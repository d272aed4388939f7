use rtfsn::epoch::{EpochManager, EpochPhase};
use rtfsn::types::{Epoch, NodeId};

#[test]
fn test_epoch_lifecycle() {
    let mut mgr = EpochManager::new(3, 10_000_000_000);

    assert_eq!(mgr.current_epoch, Epoch(0));
    assert_eq!(mgr.current_phase, EpochPhase::Measure);

    assert!(mgr.try_advance(20_000_000_000));
    assert_eq!(mgr.current_phase, EpochPhase::Solve);

    assert!(mgr.try_advance(20_000_000_001));
    assert_eq!(mgr.current_phase, EpochPhase::Publish);

    assert!(!mgr.try_advance(20_000_000_002));

    mgr.record_beacon(NodeId([1u8; 32]));
    mgr.record_beacon(NodeId([2u8; 32]));
    mgr.record_beacon(NodeId([3u8; 32]));

    assert!(mgr.try_advance(20_000_000_003));
    assert_eq!(mgr.current_epoch, Epoch(1));
    assert_eq!(mgr.current_phase, EpochPhase::Measure);
}

#[test]
fn beacons_count_once_and_reset() {
    let mut mgr = EpochManager::new(2, 5);
    mgr.try_advance(10);
    mgr.try_advance(11);
    mgr.record_beacon(NodeId([7u8; 32]));
    mgr.record_beacon(NodeId([7u8; 32]));
    assert_eq!(mgr.beacon_count(), 1);
    assert!(!mgr.has_quorum());
    // Publish ends on timeout without quorum.
    assert!(mgr.try_advance(17));
    assert_eq!(mgr.beacon_count(), 0);
    assert_eq!(mgr.phase_start_nanos(), 17);
}

#[test]
fn measure_waits_for_timeout() {
    let mut mgr = EpochManager::new(1, 100);
    assert!(!mgr.try_advance(100));
    assert_eq!(mgr.current_phase, EpochPhase::Measure);
    assert!(mgr.try_advance(101));
}

#[test]
fn phases_cycle() {
    assert_eq!(EpochPhase::Measure.next(), Some(EpochPhase::Solve));
    assert_eq!(EpochPhase::Solve.next(), Some(EpochPhase::Publish));
    assert_eq!(EpochPhase::Publish.next(), None);
    assert_eq!(Epoch(4).next(), Epoch(5));
    assert_eq!(Epoch(0).prev(), None);
    assert_eq!(Epoch(4).prev(), Some(Epoch(3)));
}
