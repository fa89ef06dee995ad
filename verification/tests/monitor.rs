use std::sync::Arc;

use flash_utils::monitor::{
    disconnect_events, is_disconnect_event, parse_ip_addr, parse_ip_addrs,
};
use flash_utils::{FlashError, Monitor, SocketConfig};

#[test]
fn parses_dotted_decimal_addresses() {
    assert_eq!(parse_ip_addr("10.0.0.1").unwrap(), [10, 0, 0, 1]);
    assert_eq!(parse_ip_addr("255.255.255.255").unwrap(), [255, 255, 255, 255]);
    assert_eq!(parse_ip_addr("0.0.0.0").unwrap(), [0, 0, 0, 0]);
    assert_eq!(parse_ip_addr("192.168.100.7").unwrap(), [192, 168, 100, 7]);
}

fn rejected(s: &str) {
    match parse_ip_addr(s) {
        Err(FlashError::InvalidIpAddr(t)) => assert_eq!(t, s),
        Ok(a) => panic!("{s:?} parsed as {a:?}"),
    }
}

#[test]
fn rejects_malformed_addresses() {
    for s in [
        "", "1.2.3", "1.2.3.4.5", "256.0.0.1", "01.2.3.4", "1.2.3.04", "1..3.4", " 1.2.3.4",
        "1.2.3.4 ", "+1.2.3.4", "1.2.3.-4", "1234.1.1.1", "a.b.c.d", "1.2.3.4.", "::1",
    ] {
        rejected(s);
    }
}

#[test]
fn parses_every_reply_or_reports_the_first_bad_one() {
    let ok = vec!["10.0.0.1".to_string(), "10.0.0.2".to_string()];
    assert_eq!(parse_ip_addrs(&ok).unwrap(), vec![[10, 0, 0, 1], [10, 0, 0, 2]]);
    let bad = vec!["10.0.0.1".to_string(), "x".to_string(), "y".to_string()];
    match parse_ip_addrs(&bad) {
        Err(FlashError::InvalidIpAddr(t)) => assert_eq!(t, "x"),
        Ok(v) => panic!("parsed {v:?}"),
    }
    assert_eq!(parse_ip_addrs(&vec![]).unwrap(), Vec::<[u8; 4]>::new());
}

#[test]
fn disconnect_mask_is_hangup_error_and_read_hangup() {
    let events = disconnect_events();
    assert_eq!(events, libc::POLLHUP | libc::POLLERR | libc::POLLRDHUP);
    assert!([0x2018, 0x818, 0x4018, 0x18].contains(&events));
    assert_eq!(events & 0x18, 0x18);
}

#[test]
fn disconnect_needs_a_ready_poll_and_a_matching_event() {
    let events = disconnect_events();
    assert!(is_disconnect_event(1, libc::POLLHUP, events));
    assert!(is_disconnect_event(1, libc::POLLRDHUP | libc::POLLIN, events));
    assert!(!is_disconnect_event(1, libc::POLLIN, events));
    assert!(!is_disconnect_event(0, libc::POLLHUP, events));
    assert!(!is_disconnect_event(-1, libc::POLLERR, events));
}

#[test]
fn monitor_keeps_its_client() {
    let client = Arc::new(42u32);
    let m = Monitor::new(client.clone());
    assert!(Arc::ptr_eq(m.uds_client(), &client));
}

#[test]
fn socket_config_groups_its_settings() {
    let c = SocketConfig::new(1u8, "poll", Some(3));
    assert_eq!(c.xsk, 1);
    assert_eq!(c.poll, "poll");
    assert_eq!(c.pollout_status, Some(3));
}

#[test]
fn monitor_error_message() {
    let e = parse_ip_addr("1.2.3").unwrap_err();
    assert_eq!(e.message(), "flash error: invalid IP address 1.2.3");
}
