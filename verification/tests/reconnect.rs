use omni_track::reconnect::{ReconnectTimer, WIFI_CONNECT_TIMEOUT_NS};

#[test]
fn reconnect_is_paced() {
    let mut t = ReconnectTimer::new(WIFI_CONNECT_TIMEOUT_NS);
    assert!(!t.connect_due(true, 0));
    assert!(t.connect_due(false, 0));
    let s = 1_000_000_000u64;
    t.record_try(s);
    assert!(!t.connect_due(false, s));
    assert!(!t.connect_due(false, 31 * s));
    assert!(t.connect_due(false, 31 * s + 1));
    assert!(!t.connect_due(true, 90 * s));
    // A clock reading before the last attempt counts as no time passed.
    assert!(!t.connect_due(false, 500));
}
