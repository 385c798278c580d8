use freedroid::error::Error;
use freedroid::transfer::{done_report, last_percent, progress_report, TransferEvent, TransferState};
use freedroid::wifi::{
    check_connect_output, check_pair_output, connect_failed, pair_failed, tcpip_address,
    wifi_ip_from_output,
};

#[test]
fn reads_wifi_address() {
    let out = "30: wlan0: <BROADCAST,MULTICAST,UP> mtu 1500\n    inet 192.168.1.5/24 brd 192.168.1.255 scope global wlan0\n    inet 10.0.0.9/8 scope global\n";
    assert_eq!(wifi_ip_from_output(out).ok().unwrap(), "192.168.1.5");
    match wifi_ip_from_output("Device \"wlan0\" does not exist.\n") {
        Err(Error::Adb(m)) => assert_eq!(m, "could not determine device Wi-Fi IP (is Wi-Fi on?)"),
        _ => panic!(),
    }
    assert!(wifi_ip_from_output("inet   \ninet6 fe80::1/64\n").is_err());
    assert_eq!(tcpip_address("192.168.1.5"), "192.168.1.5:5555");
}

#[test]
fn reads_connect_and_pair_replies() {
    assert!(connect_failed("failed to connect to 1.2.3.4:5555"));
    assert!(!connect_failed("connected to 1.2.3.4:5555"));
    assert_eq!(check_connect_output("connected to 1.2.3.4:5555\n").ok().unwrap(), "connected to 1.2.3.4:5555");
    match check_connect_output("  Cannot connect to x \n") {
        Err(Error::Adb(m)) => assert_eq!(m, "Cannot connect to x"),
        _ => panic!(),
    }
    assert!(check_connect_output("UNABLE to reach").is_err());
    assert!(pair_failed("failed: wrong code"));
    assert!(check_pair_output("Failed: Wrong password or connection was dropped.").is_err());
    assert_eq!(check_pair_output("Successfully paired to 1.2.3.4:37000 [guid=x]\n").ok().unwrap(), "Successfully paired to 1.2.3.4:37000 [guid=x]");
}

#[test]
fn finds_last_progress_marker() {
    assert_eq!(last_percent("[ 10%] /sdcard/a\r[ 45%] /sdcard/a"), Some(45));
    assert_eq!(last_percent("[100%] done"), Some(100));
    assert_eq!(last_percent("no marker"), None);
    assert_eq!(last_percent("[ 300%] x"), None);
    assert_eq!(last_percent("[ 10%] a [ 300%] b"), None);
    assert_eq!(last_percent("[ 30%] a [ 7%] b"), Some(7));
}

#[test]
fn transfer_reports_changes_only() {
    let mut s = TransferState::new();
    assert_eq!(s.step(TransferEvent::Stdout(b"[  5%] /sdcard/f".to_vec())), Some(5));
    assert_eq!(s.step(TransferEvent::Stdout(b"[  5%] /sdcard/f".to_vec())), None);
    assert_eq!(s.step(TransferEvent::Other), None);
    assert_eq!(s.step(TransferEvent::Stderr(b"[ 50%] /sdcard/f".to_vec())), Some(50));
    assert_eq!(s.last_pct, 50);
    assert_eq!(s.stderr_buf, "[ 50%] /sdcard/f");
    assert_eq!(s.step(TransferEvent::Terminated(Some(0))), None);
    assert!(s.outcome().is_ok());
    assert_eq!(s.final_percent(), Some(100));
    let d = done_report("id1", &s.outcome());
    assert!(d.success);
    assert_eq!(d.error, None);
}

#[test]
fn failed_transfer_reports_error_output() {
    let mut s = TransferState::new();
    s.step(TransferEvent::Stderr(b"  adb: error: remote object does not exist\n".to_vec()));
    s.step(TransferEvent::Terminated(Some(1)));
    let r = s.outcome();
    match &r {
        Err(Error::Adb(m)) => assert_eq!(m, "adb: error: remote object does not exist"),
        _ => panic!(),
    }
    assert_eq!(s.final_percent(), None);
    let d = done_report("id2", &r);
    assert!(!d.success);
    assert_eq!(d.error.as_deref(), Some("adb error: adb: error: remote object does not exist"));
    let mut t = TransferState::new();
    t.step(TransferEvent::Terminated(None));
    match t.outcome() {
        Err(Error::Adb(m)) => assert_eq!(m, "transfer failed"),
        _ => panic!(),
    }
    let p = progress_report("id3", 7, "pull", "a.jpg");
    assert_eq!((p.id.as_str(), p.percent, p.direction.as_str(), p.name.as_str()), ("id3", 7, "pull", "a.jpg"));
}
