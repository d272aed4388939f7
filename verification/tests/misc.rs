use rtfsn::display::{bytes_to_hex, hms, peer_hex};
use rtfsn::geoid::circulation::{hint_priority, schedule_from_hints, MeasurementSchedule, RefinementHint};
use rtfsn::geoid::model::RegionId;
use rtfsn::node::{epoch_phase_nanos, response_matches, rtt_mean_square_deviation, rtt_summary, twist_from_response};
use rtfsn::types::{make_node_id, Epoch, NodeId, Timestamp};
use rtfsn::holonomy::twist::TwistLUT;
use rtfsn::node::record_response;
use rtfsn::node::{deviation_fits_exec, rtt_sum_fits};

#[test]
fn hex_and_time_of_day() {
    assert_eq!(bytes_to_hex(&[0x00, 0xab, 0x7f]), "00ab7f");
    let id = NodeId([0x1e; 32]);
    assert_eq!(peer_hex(&id), "1e1e1e1e");
    assert_eq!(hms(3_725), "01:02:05 UTC");
    assert_eq!(hms(86_400 + 59), "00:00:59 UTC");
}

#[test]
fn node_ids_and_clock() {
    let id = make_node_id(3, 9);
    assert_eq!(id.0[0], 3);
    assert_eq!(id.0[1], 9);
    assert_eq!(id.0[2..], [0u8; 30]);
    assert!(Timestamp::now().nanos > 0);
    assert_eq!(Timestamp::from_nanos(5).nanos, 5);
}

fn hint(p: u8, b: u8) -> RefinementHint {
    RefinementHint {
        epoch: Epoch(1),
        geoid_level: 0,
        region_id: RegionId([b; 32]),
        geoid_residual_nanos: 0,
        priority: p,
        suggested_neighbor_regions: Vec::new(),
    }
}

#[test]
fn circulation_priorities_and_schedule() {
    assert_eq!(hint_priority(50_000, 1), 1);
    assert_eq!(hint_priority(50_000, 0), 2);
    assert_eq!(hint_priority(500_000, 1), 3);
    assert_eq!(hint_priority(5_000_000, 1), 5);
    assert_eq!(hint_priority(50_000_000, 1), 7);
    assert_eq!(hint_priority(500_000_000, 0), 10);
    let s = schedule_from_hints(&[hint(3, 1), hint(7, 2), hint(3, 3), hint(9, 4)]);
    let order: Vec<(u8, u8)> = s.priority_regions.iter().map(|(r, p)| (r.0[0], *p)).collect();
    assert_eq!(order, vec![(4, 9), (2, 7), (1, 3), (3, 3)]);
    assert_eq!(s.total_measurements(), 8 + 2 * 22);
    assert_eq!(MeasurementSchedule::default_schedule().total_measurements(), 8);
}

#[test]
fn daemon_decisions() {
    assert!(response_matches(Some((5, 2)), 5, Epoch(2)));
    assert!(!response_matches(Some((5, 2)), 5, Epoch(3)));
    assert!(!response_matches(None, 5, Epoch(2)));
    let t = twist_from_response(1_000, 1_600, 1_700, 2_100, Epoch(4));
    assert_eq!(t.rtt_nanos, 1_000);
    assert_eq!(t.offset_nanos, 100);
    assert_eq!(t.quality, 90);
    assert_eq!(t.epoch_measured, 4);
    assert_eq!(rtt_summary(&[]), (0, 0, 0, 0));
    assert_eq!(rtt_summary(&[30, 10, 21]), (10, 30, 20, 3));
    assert_eq!(rtt_mean_square_deviation(&[10, 30], 20), 100);
    assert_eq!(rtt_mean_square_deviation(&[10], 20), 0);
    assert_eq!(epoch_phase_nanos(30), (30_000_000_000, 20_000_000_000, 5_000_000_000));
}

#[test]
fn merged_region_hashes_member_ids_in_order() {
    let a = RegionId([1u8; 32]);
    let b = RegionId([2u8; 32]);
    let mut joined = Vec::new();
    joined.extend_from_slice(&a.0);
    joined.extend_from_slice(&b.0);
    let merged = RegionId::from_merge(&[a, b]);
    assert_eq!(merged.0, *blake3::hash(&joined).as_bytes());
    assert_ne!(merged.0, RegionId::from_merge(&[b, a]).0);
}

#[test]
fn clock_readings_become_timestamps() {
    assert_eq!(Timestamp::from_clock_reading(Some(1_700_000_000_000_000_000)).nanos, 1_700_000_000_000_000_000);
    assert_eq!(Timestamp::from_clock_reading(None).nanos, 0);
}

#[test]
fn responses_are_recorded() {
    let local = make_node_id(0, 1);
    let peer = make_node_id(0, 2);
    let mut lut = TwistLUT::new();
    let mut raw = Vec::new();
    record_response(&mut lut, &mut raw, local, peer, 1_000, 1_600, 1_700, 2_100, Epoch(3));
    let latest = lut.latest(peer, local).unwrap();
    assert_eq!(latest.rtt_nanos, 1_000);
    assert_eq!(latest.offset_nanos, 100);
    assert_eq!(latest.asymmetry_nanos, 200);
    assert_eq!(latest.quality, 90);
    assert_eq!(latest.epoch_measured, 3);
    assert_eq!(raw, vec![(peer, 1_000, 1_600, 1_700, 2_100)]);
    assert_eq!(lut.edge_count(), 1);
}

#[test]
fn precondition_checks() {
    assert!(rtt_sum_fits(&[1, 2, 3]));
    assert!(!rtt_sum_fits(&[u64::MAX, 1]));
    assert!(deviation_fits_exec(&[10, 20, 30], 20));
    assert!(deviation_fits_exec(&[u64::MAX], 0));
    assert!(!deviation_fits_exec(&[0, 4_000_000_000], 0));
    let s = schedule_from_hints(&[hint(3, 1), hint(7, 2)]);
    assert_eq!(s.checked_total(), Some(8 + 2 * 10));
    let big = MeasurementSchedule {
        priority_regions: vec![(RegionId([1u8; 32]), 10)],
        min_measurements: 0,
        extra_measurements_per_priority: u32::MAX,
    };
    assert_eq!(big.checked_total(), None);
    let zero = MeasurementSchedule {
        priority_regions: vec![(RegionId([1u8; 32]), 10)],
        min_measurements: 5,
        extra_measurements_per_priority: 0,
    };
    assert_eq!(zero.checked_total(), Some(5));
}
