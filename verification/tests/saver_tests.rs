use ip_pinger::pings::IpProperties;
use ip_pinger::saver::format_records;

#[test]
fn one_line_per_result() {
    let props = vec![
        IpProperties::new(0x0102_0304, true, 15, "host.example".to_string()),
        IpProperties::new(0x0A00_0001, false, 0, "Unknown".to_string()),
    ];
    let text = String::from_utf8(format_records(&props)).unwrap();
    assert_eq!(text, "1.2.3.4,true,15,host.example\n10.0.0.1,false,0,Unknown\n");
}

#[test]
fn empty_report() {
    assert!(format_records(&Vec::new()).is_empty());
}

#[test]
fn non_ascii_host_name_kept() {
    let props = vec![IpProperties::new(0, true, 1234567, "café.example".to_string())];
    let text = String::from_utf8(format_records(&props)).unwrap();
    assert_eq!(text, "0.0.0.0,true,1234567,café.example\n");
}

#[test]
fn report_of_joined_runs_is_joined_reports() {
    let a = vec![IpProperties::new(1, true, 2, "a".to_string())];
    let b = vec![
        IpProperties::new(3, false, 4, "b".to_string()),
        IpProperties::new(5, true, 6, "c".to_string()),
    ];
    let mut both = Vec::new();
    both.push(a[0].clone());
    both.push(b[0].clone());
    both.push(b[1].clone());
    let mut joined = format_records(&a);
    joined.extend(format_records(&b));
    assert_eq!(format_records(&both), joined);
}
