use ip_pinger::parser::{
    add_to_ip, expand_records, first_bad_line, is_ip_valid, parse_ips, parse_ports, parse_range_line, read_csv,
    unwrap_ips, valid_records, CsvError, IpRange, LineError,
};

fn ip(a: u32, b: u32, c: u32, d: u32) -> u32 {
    (a << 24) | (b << 16) | (c << 8) | d
}

fn lines(text: &[&str]) -> Vec<Vec<u8>> {
    text.iter().map(|l| l.as_bytes().to_vec()).collect()
}

#[test]
fn add_to_ip_adds_and_wraps() {
    assert_eq!(add_to_ip(ip(1, 2, 3, 4), 2), ip(1, 2, 3, 6));
    assert_eq!(add_to_ip(ip(10, 0, 0, 255), 1), ip(10, 0, 1, 0));
    assert_eq!(add_to_ip(u32::MAX, 1), 0);
    assert_eq!(add_to_ip(u32::MAX, 5), 4);
    assert_eq!(add_to_ip(7, 0), 7);
}

#[test]
fn unwrap_ips_lists_range() {
    let r = IpRange { start_ip: ip(10, 0, 0, 254), end_ip: ip(10, 0, 1, 1) };
    assert_eq!(
        unwrap_ips(r),
        vec![ip(10, 0, 0, 254), ip(10, 0, 0, 255), ip(10, 0, 1, 0), ip(10, 0, 1, 1)]
    );
}

#[test]
fn unwrap_ips_single_and_empty() {
    let one = IpRange { start_ip: ip(8, 8, 8, 8), end_ip: ip(8, 8, 8, 8) };
    assert_eq!(unwrap_ips(one), vec![ip(8, 8, 8, 8)]);
    let backwards = IpRange { start_ip: ip(8, 8, 8, 9), end_ip: ip(8, 8, 8, 8) };
    assert_eq!(unwrap_ips(backwards), Vec::<u32>::new());
    let backwards_to_top = IpRange { start_ip: u32::MAX, end_ip: 3 };
    assert_eq!(unwrap_ips(backwards_to_top), Vec::<u32>::new());
    let just_below_top = IpRange { start_ip: u32::MAX - 2, end_ip: u32::MAX - 1 };
    assert_eq!(unwrap_ips(just_below_top), vec![u32::MAX - 2, u32::MAX - 1]);
}

#[test]
fn unwrap_ips_up_to_last_address() {
    let to_top = IpRange { start_ip: u32::MAX - 2, end_ip: u32::MAX };
    assert_eq!(unwrap_ips(to_top), vec![u32::MAX - 2, u32::MAX - 1, u32::MAX]);
    let top = IpRange { start_ip: u32::MAX, end_ip: u32::MAX };
    assert_eq!(unwrap_ips(top), vec![u32::MAX]);
    let last_block = IpRange { start_ip: ip(255, 255, 255, 0), end_ip: u32::MAX };
    let all = unwrap_ips(last_block);
    assert_eq!(all.len(), 256);
    assert_eq!(all[0], ip(255, 255, 255, 0));
    assert_eq!(all[255], u32::MAX);
}

#[test]
fn parse_ips_lists_addresses() {
    let text = lines(&["10.0.0.1;10.0.0.3", "9.9.9.9;9.9.9.9;1", "255.255.255.254;255.255.255.255"]);
    assert_eq!(
        parse_ips(&text),
        (3, vec![ip(10, 0, 0, 1), ip(10, 0, 0, 2), ip(10, 0, 0, 3), ip(9, 9, 9, 9), u32::MAX - 1, u32::MAX])
    );
    assert_eq!(parse_ips(&Vec::new()), (0, Vec::new()));
}

#[test]
fn every_address_is_valid() {
    let mut x: u32 = 1;
    for _ in 0..1000 {
        assert!(is_ip_valid(x));
        x = x.wrapping_mul(747796405).wrapping_add(2891336453);
    }
    assert!(is_ip_valid(0));
    assert!(is_ip_valid(u32::MAX));
}

#[test]
fn range_line_two_fields() {
    assert_eq!(
        parse_range_line(b"1.2.3.4;1.2.3.10"),
        Ok(IpRange { start_ip: ip(1, 2, 3, 4), end_ip: ip(1, 2, 3, 10) })
    );
}

#[test]
fn range_line_extra_field_ignored() {
    assert_eq!(
        parse_range_line(b"66.249.64.0;66.249.95.255;8192"),
        Ok(IpRange { start_ip: ip(66, 249, 64, 0), end_ip: ip(66, 249, 95, 255) })
    );
    assert_eq!(
        parse_range_line(b"0.0.0.0;255.255.255.255"),
        Ok(IpRange { start_ip: 0, end_ip: u32::MAX })
    );
}

#[test]
fn range_line_errors() {
    assert_eq!(parse_range_line(b"1.2.3.4"), Err(LineError::MissingEnd));
    assert_eq!(parse_range_line(b"x;1.2.3.4"), Err(LineError::InvalidStart));
    assert_eq!(parse_range_line(b""), Err(LineError::InvalidStart));
    assert_eq!(parse_range_line(b"1.2.3.4;"), Err(LineError::InvalidEnd));
    assert_eq!(parse_range_line(b"1.2.3.4;1.2.3.256"), Err(LineError::InvalidEnd));
    assert_eq!(parse_range_line(b"1.2.3.4,1.2.3.5"), Err(LineError::InvalidStart));
}

#[test]
fn read_csv_all_lines() {
    let text = lines(&["1.0.0.0;1.0.0.3", "2.0.0.0;2.0.0.0;1"]);
    assert_eq!(first_bad_line(&text), None);
    assert_eq!(
        read_csv(&text),
        vec![
            IpRange { start_ip: ip(1, 0, 0, 0), end_ip: ip(1, 0, 0, 3) },
            IpRange { start_ip: ip(2, 0, 0, 0), end_ip: ip(2, 0, 0, 0) },
        ]
    );
    assert_eq!(read_csv(&Vec::new()), Vec::new());
}

#[test]
fn first_bad_line_found() {
    let text = lines(&["1.0.0.0;1.0.0.3", "2.0.0.0", "bad;line"]);
    assert_eq!(first_bad_line(&text), Some(CsvError { line: 1, error: LineError::MissingEnd }));
    let text = lines(&["start;end", "1.0.0.0;1.0.0.3"]);
    assert_eq!(first_bad_line(&text), Some(CsvError { line: 0, error: LineError::InvalidStart }));
    let text = lines(&["1.0.0.0;1.0.0.3", ""]);
    assert_eq!(first_bad_line(&text), Some(CsvError { line: 1, error: LineError::InvalidStart }));
    let text = lines(&["1.0.0.0; 1.0.0.3"]);
    assert_eq!(first_bad_line(&text), Some(CsvError { line: 0, error: LineError::InvalidEnd }));
}

#[test]
fn valid_records_keeps_everything() {
    let records = vec![
        IpRange { start_ip: 0, end_ip: 5 },
        IpRange { start_ip: u32::MAX, end_ip: u32::MAX },
        IpRange { start_ip: 9, end_ip: 2 },
    ];
    assert_eq!(valid_records(records.clone()), records);
}

#[test]
fn expand_records_concatenates() {
    let records = vec![
        IpRange { start_ip: 10, end_ip: 12 },
        IpRange { start_ip: 5, end_ip: 4 },
        IpRange { start_ip: 1, end_ip: 2 },
    ];
    assert_eq!(expand_records(&records), vec![10, 11, 12, 1, 2]);
    assert_eq!(expand_records(&Vec::new()), Vec::<u32>::new());
}

#[test]
fn parse_ports_list() {
    assert_eq!(parse_ports(&lines(&["80", "443", "+22", "65535"])), Ok(vec![80, 443, 22, 65535]));
    assert_eq!(parse_ports(&lines(&["80", "http", "x"])), Err(1));
    assert_eq!(parse_ports(&lines(&["65536"])), Err(0));
    assert_eq!(parse_ports(&lines(&[""])), Err(0));
    assert_eq!(parse_ports(&Vec::new()), Ok(Vec::new()));
}
