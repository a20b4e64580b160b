use tracker::assets::AssetStore;
use tracker::state::ObjectiveState;
use tracker::tracker::{AutoTrackerState, MemData, TrackerAction, TrackerEvent};

#[test]
fn progress_order() {
    let all = [
        ObjectiveState::Disabled,
        ObjectiveState::Locked,
        ObjectiveState::GlitchLocked,
        ObjectiveState::Unlocked,
        ObjectiveState::Complete,
    ];
    for (i, s) in all.iter().enumerate() {
        assert_eq!(s.ordinal(), i as u32);
    }
    let unlocked: Vec<bool> = all.iter().map(|s| s.at_least(&ObjectiveState::Unlocked)).collect();
    assert_eq!(unlocked, vec![false, false, false, true, true]);
    assert!(ObjectiveState::GlitchLocked.at_least(&ObjectiveState::Locked));
    assert!(ObjectiveState::Locked.is(&ObjectiveState::Locked));
    assert!(!ObjectiveState::Locked.is(&ObjectiveState::Unlocked));
}

#[test]
fn memory_reads_are_little_endian() {
    let m = MemData { data: vec![0x01, 0x02, 0x03, 0x04, 0x05] };
    assert_eq!(m.get_u8(0), 0x01);
    assert_eq!(m.get_u8(5), 0);
    assert_eq!(m.get_u16(1), 0x0302);
    assert_eq!(m.get_u16(4), 0);
    assert_eq!(m.get_u24(2), 0x050403);
    assert_eq!(m.get_u24(3), 0);
    assert_eq!(m.get_u32(1), 0x05040302);
    assert_eq!(m.get_u32(2), 0);
    let empty = MemData { data: vec![] };
    assert_eq!(empty.get_u16(0), 0);
}

#[test]
fn tracker_connects_samples_and_reconnects() {
    let s = AutoTrackerState::Idle;
    assert_eq!(s.on_event(TrackerEvent::Tick), (AutoTrackerState::Idle, TrackerAction::Nothing));
    let (s, a) = s.on_event(TrackerEvent::Start);
    assert_eq!((s, a), (AutoTrackerState::Connecting, TrackerAction::Connect));
    let (s, _) = s.on_event(TrackerEvent::Connected);
    assert_eq!(s, AutoTrackerState::Running);
    assert_eq!(s.on_event(TrackerEvent::Tick), (AutoTrackerState::Running, TrackerAction::Sample));
    let (s, a) = s.on_event(TrackerEvent::SampleFailed);
    assert_eq!((s, a), (AutoTrackerState::Disconnected, TrackerAction::Disconnect));
    assert_eq!(s.on_event(TrackerEvent::Tick), (AutoTrackerState::Connecting, TrackerAction::Connect));
    assert_eq!(
        AutoTrackerState::Connecting.on_event(TrackerEvent::ConnectFailed),
        (AutoTrackerState::Disconnected, TrackerAction::Nothing)
    );
    assert_eq!(s.on_event(TrackerEvent::Stop), (AutoTrackerState::Idle, TrackerAction::Disconnect));
    assert_eq!(s.on_event(TrackerEvent::ControlClosed).1, TrackerAction::Exit);
}

#[test]
fn asset_store_keeps_latest() {
    let mut store: AssetStore<u32> = AssetStore::new();
    let key = "objective:pan:locked".to_string();
    assert!(store.get(&key).is_none());
    store.add(&key, 1);
    store.add(&"map:world".to_string(), 2);
    assert_eq!(**store.get(&key).unwrap(), 1);
    store.add(&key, 3);
    assert_eq!(**store.get(&key).unwrap(), 3);
    assert_eq!(**store.get(&"map:world".to_string()).unwrap(), 2);
}
