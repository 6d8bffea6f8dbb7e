use actionkv::cubesat::{check_status, CubeSat, GroundStation, StatusMessage};

#[test]
fn send_then_recv() {
    let base = GroundStation {};
    let mut sat_a = CubeSat::new(0);
    assert_eq!(sat_a.recv(), None);
    base.send(&mut sat_a, "Hello there!".to_string());
    assert_eq!(sat_a.recv(), Some("Hello there!".to_string()));
    assert_eq!(sat_a.recv(), None);
    assert_eq!(sat_a.id, 0);
}

#[test]
fn latest_message_comes_first() {
    let base = GroundStation {};
    let mut sat = CubeSat::new(7);
    base.send(&mut sat, "one".to_string());
    base.send(&mut sat, "two".to_string());
    assert_eq!(sat.recv(), Some("two".to_string()));
    assert_eq!(sat.recv(), Some("one".to_string()));
}

#[test]
fn status_is_ok() {
    let sat = CubeSat::new(1);
    assert_eq!(check_status(&sat), StatusMessage::Okay);
}
