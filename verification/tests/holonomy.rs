use rtfsn::holonomy::chiral::{ChiralFrame, Chirality};
use rtfsn::holonomy::samr::SAMRState;
use rtfsn::holonomy::solver::{defect_summary, detect_defective_nodes, edge_error};
use rtfsn::holonomy::temporal_mirror::{EpochBoundarySolver, TemporalMirror};
use rtfsn::holonomy::twist::{TwistIndex, TwistLUT};
use rtfsn::types::NodeId;
use rtfsn::holonomy::temporal_mirror::fixed_point_fits_exec;
use rtfsn::holonomy::twist::profile_fits_exec;

#[test]
fn test_chiral_frame_predict() {
    let frame = ChiralFrame::new(1_000_000, 100, 10);
    let predicted = frame.predict_offset(1_000_000_000);
    assert_eq!(predicted, 1_000_100);
}

#[test]
fn test_twist_consistency() {
    let a = ChiralFrame::new(1_000_000, 0, 10);
    let b = ChiralFrame::new(1_005_000, 0, 10);
    let twist = a.twist(&b);

    assert!(twist.is_consistent(10_000_000, 1_000));
    assert!(!twist.is_consistent(1_000, 1_000));
}

#[test]
fn test_chirality_projection() {
    assert_eq!(Chirality::C3.project_once(), 1);
    assert_eq!(Chirality::C2.project_once(), 0);
    for c in [Chirality::C0, Chirality::C1, Chirality::C2, Chirality::C3] {
        assert_eq!(c.project_twice(), 0);
    }
}

#[test]
fn chiral_details() {
    let mut h = [0u8; 32];
    h[0] = 0b1010_0110;
    assert_eq!(Chirality::from_identity_hash(&h), Chirality::C2);
    let f = ChiralFrame::new(5, -100, 1).with_chirality(Chirality::C3);
    assert_eq!(f.chirality, Chirality::C3);
    // Negative products round toward zero.
    assert_eq!(f.predict_offset(15_000_000), 5 - 1);
    let t = ChiralFrame::new(0, 0, 0).twist(&ChiralFrame::new(-7, 3, 0));
    assert_eq!(t.offset_diff_nanos, 7);
    assert_eq!(t.drift_diff_ppb, -3);
    assert_eq!(t.magnitude_nanos(), 7);
}

#[test]
fn test_samr_total_resolution() {
    let state = SAMRState::clock_default();
    assert_eq!(state.total_resolution(), 210);
}

#[test]
fn test_crt_roundtrip() {
    let mut state = SAMRState::clock_default();
    state.channels[0].set(1, 0);
    state.channels[1].set(0, 0);
    state.channels[2].set(2, 0);
    state.channels[3].set(3, 0);

    let encoded = state.crt_decode();
    assert!(encoded < 210);

    assert_eq!(encoded % 2, 1);
    assert_eq!(encoded % 3, 0);
    assert_eq!(encoded % 5, 2);
    assert_eq!(encoded % 7, 3);
}

#[test]
fn test_adaptive_scheduling() {
    let mut state = SAMRState::clock_default();
    state.channels[0].set(1, 0);
    state.channels[1].set(1, 50_000_000);
    state.channels[2].set(2, 10_000_000);
    state.channels[3].set(3, 200);

    let next = state.next_channel_to_refine().unwrap();
    assert_eq!(next, 1, "should refine tier channel (highest defect)");
}

#[test]
fn samr_classifiers() {
    let mut state = SAMRState::clock_default();
    state.classify_reachability(true);
    state.classify_tier(50_000_000);
    state.classify_offset(0, 3_000_000);
    state.classify_drift(-500);
    assert_eq!(state.channels[0].value, 1);
    assert_eq!(state.channels[1].value, 1);
    assert_eq!(state.channels[2].value, 1);
    assert_eq!(state.channels[3].value, 1);
    let code = state.crt_decode();
    assert_eq!(code % 2, 1);
    assert_eq!(code % 3, 1);
    assert_eq!(code % 5, 1);
    assert_eq!(code % 7, 1);
}

#[test]
fn test_temporal_mirror_convergence() {
    let forward = vec![1_000_000_000, 1_000_001_000, 999_999_000];
    let backward = vec![1_000_000_500, 1_000_000_200, 999_999_800];

    let mirror = TemporalMirror::find_fixed_point(&forward, &backward, 100);
    assert!(mirror.is_consistent(1_000), "disagreement={}", mirror.disagreement_nanos);
}

#[test]
fn test_epoch_boundary_solver() {
    let mut solver = EpochBoundarySolver::new(30_000_000_000);

    let offsets = vec![100, -200, 50, -80, 150];
    let drifts = vec![10, -5, 3, -2, 8];

    let mirror = solver.solve_boundary(&offsets, &drifts, 0);
    assert!(mirror.is_consistent(10_000));
}

#[test]
fn mirror_values() {
    let empty = TemporalMirror::find_fixed_point(&[], &[1], 10);
    assert_eq!(empty.disagreement_nanos, u64::MAX);
    assert_eq!(empty.iterations_to_converge, 0);
    // Means 1000 and 5000; each round halves the gap: 4000 -> 2000 -> 1000 -> 500.
    let m = TemporalMirror::find_fixed_point(&[1000], &[5000], 10);
    assert_eq!(m.iterations_to_converge, 3);
    assert_eq!(m.predictive_time_nanos, 2750);
    assert_eq!(m.retrodictive_time_nanos, 3250);
    assert_eq!(m.fixed_point_nanos, 3000);
    assert_eq!(m.disagreement_nanos, 500);
    let mut solver = EpochBoundarySolver::new(1000);
    assert!(solver.latest_mirror().is_none());
    let first = solver.solve_boundary(&[0], &[0], 5).fixed_point_nanos;
    assert_eq!(first, 1005);
    assert_eq!(solver.latest_mirror().unwrap().fixed_point_nanos, 1005);
}

fn twist(offset_nanos: i64, rtt_nanos: u64, epoch: u64) -> TwistIndex {
    TwistIndex { rtt_nanos, offset_nanos, asymmetry_nanos: 0, quality: 100, epoch_measured: epoch }
}

#[test]
fn test_twist_lut_basic() {
    let mut lut = TwistLUT::new();
    let a = NodeId([1u8; 32]);
    let b = NodeId([2u8; 32]);

    let twist = TwistIndex {
        rtt_nanos: 50_000_000,
        offset_nanos: 1_000_000,
        asymmetry_nanos: 100_000,
        quality: 100,
        epoch_measured: 1,
    };

    lut.insert(a, b, twist);
    assert!(lut.latest(a, b).is_some());
    assert!(lut.latest(b, a).is_some());
}

#[test]
fn test_loop_holonomy_consistent() {
    let mut lut = TwistLUT::new();
    let a = NodeId([1u8; 32]);
    let b = NodeId([2u8; 32]);
    let c = NodeId([3u8; 32]);

    lut.insert(a, b, TwistIndex {
        rtt_nanos: 10_000_000,
        offset_nanos: 1_000_000,
        asymmetry_nanos: 0,
        quality: 100,
        epoch_measured: 1,
    });
    lut.insert(b, c, TwistIndex {
        rtt_nanos: 10_000_000,
        offset_nanos: 2_000_000,
        asymmetry_nanos: 0,
        quality: 100,
        epoch_measured: 1,
    });
    lut.insert(a, c, TwistIndex {
        rtt_nanos: 10_000_000,
        offset_nanos: 3_000_000,
        asymmetry_nanos: 0,
        quality: 100,
        epoch_measured: 1,
    });

    let holonomy = lut.loop_holonomy(&[a, b, c]).unwrap();
    assert_eq!(holonomy, 0, "holonomy = {holonomy}");
}

#[test]
fn holonomy_rotation_reversal_and_defects() {
    let mut lut = TwistLUT::new();
    let a = NodeId([1u8; 32]);
    let b = NodeId([2u8; 32]);
    let c = NodeId([3u8; 32]);
    lut.insert(a, b, twist(1_000, 1, 1));
    lut.insert(b, c, twist(2_000, 1, 1));
    lut.insert(a, c, twist(2_500, 1, 1));
    let h = lut.loop_holonomy(&[a, b, c]).unwrap();
    assert_eq!(h, 500);
    assert_eq!(lut.loop_holonomy(&[b, c, a]).unwrap(), 500);
    assert_eq!(lut.loop_holonomy(&[c, a, b]).unwrap(), 500);
    assert_eq!(lut.loop_holonomy(&[c, b, a]).unwrap(), -500);
    assert!(lut.loop_holonomy(&[a, b]).is_none());
    let d = NodeId([4u8; 32]);
    assert!(lut.loop_holonomy(&[a, b, d]).is_none());
    assert_eq!(lut.edge_count(), 3);
    let mut ns = lut.neighbors(b);
    ns.sort_by(|x, y| x.0.cmp(&y.0));
    assert_eq!(ns, vec![a, c]);
    assert_eq!(lut.get(c, b).unwrap().len(), 1);
}

#[test]
fn test_relational_latency_profile() {
    let mut lut = TwistLUT::new();
    let a = NodeId([1u8; 32]);
    let b = NodeId([2u8; 32]);

    let rtts: &[u64] = &[
        10_000_000, 12_000_000, 14_000_000, 16_000_000, 18_000_000, 20_000_000, 22_000_000, 24_000_000,
        26_000_000, 28_000_000,
    ];
    for (i, &rtt) in rtts.iter().enumerate() {
        lut.insert(
            a,
            b,
            TwistIndex {
                rtt_nanos: rtt,
                offset_nanos: 0,
                asymmetry_nanos: 0,
                quality: 100,
                epoch_measured: (i + 1) as u64,
            },
        );
    }

    let profile = lut.profile(a, b).expect("profile should exist");
    assert_eq!(profile.sample_count, 10);
    assert_eq!(profile.mean_nanos, 19_000_000);
    assert!(profile.p50_nanos >= 14_000_000 && profile.p50_nanos <= 24_000_000);
    assert!(profile.p10_nanos <= profile.p50_nanos);
    assert!(profile.p50_nanos <= profile.p90_nanos);
    assert!(profile.trend_nanos_per_epoch > 0);
    assert_eq!(profile.epoch_first, 1);
    assert_eq!(profile.epoch_last, 10);
}

#[test]
fn profile_exact_values() {
    let mut lut = TwistLUT::new();
    let a = NodeId([1u8; 32]);
    let b = NodeId([2u8; 32]);
    assert!(lut.profile(a, b).is_none());
    for (e, r) in [(1u64, 30u64), (2, 10), (3, 20)] {
        lut.insert(b, a, twist(0, r, e));
    }
    let p = lut.profile(a, b).unwrap();
    assert_eq!(p.mean_nanos, 20);
    // (100 + 100 + 0) / 3
    assert_eq!(p.variance_nanos, 66);
    assert_eq!(p.p10_nanos, 10);
    assert_eq!(p.p50_nanos, 20);
    assert_eq!(p.p90_nanos, 30);
    // n*sxy - sx*sy = 3*110 - 6*60 = -30, n*sxx - sx^2 = 42 - 36 = 6.
    assert_eq!(p.trend_nanos_per_epoch, -5);
    assert_eq!(p.epoch_first, 1);
    assert_eq!(p.epoch_last, 3);
}

#[test]
fn exchange_measurement() {
    let t = TwistIndex::from_exchange(1_000, 1_600, 1_700, 2_100);
    assert_eq!(t.rtt_nanos, 1_000);
    assert_eq!(t.offset_nanos, 100);
    assert_eq!(t.asymmetry_nanos, 600 - 400);
    assert_eq!(t.quality, 100);
    let odd = TwistIndex::from_exchange(0, 0, 0, 3);
    assert_eq!(odd.offset_nanos, -1);
    let wrapped = TwistIndex::from_exchange(10, 0, 0, 5);
    assert_eq!(wrapped.rtt_nanos, u64::MAX - 4);
}

#[test]
fn test_solver_detects_byzantine() {
    let nodes: Vec<NodeId> = (0..5).map(|i| NodeId([i as u8; 32])).collect();
    let mut frames = Vec::new();
    for i in 0..4 {
        frames.push((nodes[i], ChiralFrame::new(0, 0, 100)));
    }
    frames.push((nodes[4], ChiralFrame::new(1_000_000_000, 0, 100)));

    let mut lut = TwistLUT::new();
    for i in 0..5 {
        for j in (i + 1)..5 {
            let twist_offset = if i < 4 && j < 4 {
                0
            } else if j == 4 {
                1_000_000
            } else {
                0
            };
            lut.insert(nodes[i], nodes[j], twist(twist_offset, 10_000_000, 1));
        }
    }

    let defective = detect_defective_nodes(&frames, &lut, 100_000_000);
    assert!(defective.contains(&nodes[4]), "should detect Byzantine node");
}

#[test]
fn solver_pieces() {
    let lo = NodeId([1u8; 32]);
    let hi = NodeId([2u8; 32]);
    // The larger identity is expected at the smaller's offset plus the twist.
    assert_eq!(edge_error(hi, 10, lo, 0, 25), 15);
    assert_eq!(edge_error(lo, 10, hi, 0, 25), -35);
    assert_eq!(edge_error(hi, i64::MIN, lo, i64::MAX, 1), i64::MAX);
    let r = defect_summary(&[10, 2_000, 30], 4);
    assert_eq!(r.iterations, 4);
    assert_eq!(r.max_defect_nanos, 2_000);
    assert_eq!(r.mean_defect_nanos, 680);
    assert!(!r.converged);
    let empty = defect_summary(&[], 1);
    assert_eq!(empty.max_defect_nanos, 0);
    assert!(empty.converged);
}

#[test]
fn fit_checks_for_profiles_and_mirrors() {
    let t = |rtt: u64, e: u64| TwistIndex { rtt_nanos: rtt, offset_nanos: 0, asymmetry_nanos: 0, quality: 90, epoch_measured: e };
    assert!(profile_fits_exec(&[]));
    assert!(profile_fits_exec(&[t(1_000, 1), t(2_000, 2), t(3_000, 3)]));
    assert!(!profile_fits_exec(&[t(i64::MAX as u64, 1), t(i64::MAX as u64, 2)]));
    assert!(!profile_fits_exec(&[t(1_000, 1 << 40), t(1_000, 2)]));
    assert!(fixed_point_fits_exec(&[1_000, 2_000], &[1_500], 50));
    assert!(fixed_point_fits_exec(&[], &[i64::MAX], 50));
    assert!(!fixed_point_fits_exec(&[i64::MAX, 1], &[0], 50));
    assert!(!fixed_point_fits_exec(&[i64::MAX], &[i64::MAX], 50));
    let solver = EpochBoundarySolver::new(30_000_000_000);
    assert!(solver.boundary_fits(&[1_000, -1_000], &[10, -10], 60_000_000_000));
    assert!(!solver.boundary_fits(&[i64::MAX], &[0], 60_000_000_000));
    assert!(!solver.boundary_fits(&[0], &[i64::MAX], 60_000_000_000));
    assert!(solver.boundary_fits(&[], &[], u64::MAX));
}
