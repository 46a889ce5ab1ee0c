use ip_pinger::pings::{host_is_up, resolved_hostname, select_open_ports, IpProperties};

#[test]
fn host_is_up_decisions() {
    let ip = 0x0102_0304;
    assert!(!host_is_up(ip, &"Unknown".to_string()));
    assert!(!host_is_up(ip, &"1.2.3.4".to_string()));
    assert!(host_is_up(ip, &"1.2.3.5".to_string()));
    assert!(host_is_up(ip, &"dns.example.org".to_string()));
    assert!(host_is_up(ip, &"unknown".to_string()));
    assert!(host_is_up(ip, &"".to_string()));
    assert!(host_is_up(ip, &"1.2.3.4.".to_string()));
    assert!(host_is_up(ip, &"né.example".to_string()));
}

#[test]
fn resolved_hostname_falls_back() {
    assert_eq!(resolved_hostname(None), "Unknown".to_string());
    assert_eq!(resolved_hostname(Some("a.b".to_string())), "a.b".to_string());
}

#[test]
fn ip_properties_new_and_clone() {
    let p = IpProperties::new(42, true, 17, "h".to_string());
    let q = p.clone();
    assert_eq!(q.ip, 42);
    assert!(q.up);
    assert_eq!(q.rtt_millis, 17);
    assert_eq!(q.hostname, "h".to_string());
}

#[test]
fn select_open_ports_keeps_flagged() {
    let ports = vec![22, 80, 443, 8080];
    let open = vec![false, true, false, true];
    assert_eq!(select_open_ports(&ports, &open), vec![80, 8080]);
    assert_eq!(select_open_ports(&ports, &vec![false; 4]), Vec::<u16>::new());
    assert_eq!(select_open_ports(&Vec::new(), &Vec::new()), Vec::<u16>::new());
}
