use ip_pinger::text::{
    format_ipv4, parse_ipv4, parse_octet, parse_unsigned, push_decimal, split_bytes,
};

fn decimal(n: u128) -> Vec<u8> {
    let mut out = Vec::new();
    push_decimal(&mut out, n);
    out
}

#[test]
fn decimal_text_of_numbers() {
    assert_eq!(decimal(0), b"0".to_vec());
    assert_eq!(decimal(7), b"7".to_vec());
    assert_eq!(decimal(10), b"10".to_vec());
    assert_eq!(decimal(255), b"255".to_vec());
    assert_eq!(decimal(1000), b"1000".to_vec());
    assert_eq!(decimal(u128::MAX), u128::MAX.to_string().into_bytes());
}

#[test]
fn push_decimal_appends() {
    let mut out = b"x=".to_vec();
    push_decimal(&mut out, 42);
    assert_eq!(out, b"x=42".to_vec());
}

#[test]
fn format_ipv4_dotted_quad() {
    assert_eq!(format_ipv4(0x0102_0304), b"1.2.3.4".to_vec());
    assert_eq!(format_ipv4(0), b"0.0.0.0".to_vec());
    assert_eq!(format_ipv4(u32::MAX), b"255.255.255.255".to_vec());
    assert_eq!(format_ipv4(0xC0A8_000A), b"192.168.0.10".to_vec());
}

#[test]
fn parse_ipv4_reads_addresses() {
    assert_eq!(parse_ipv4(b"192.168.1.1"), Some(0xC0A8_0101));
    assert_eq!(parse_ipv4(b"0.0.0.0"), Some(0));
    assert_eq!(parse_ipv4(b"255.255.255.255"), Some(u32::MAX));
    assert_eq!(parse_ipv4(b"8.8.4.4"), Some(0x0808_0404));
}

#[test]
fn parse_ipv4_rejects_malformed() {
    for text in [
        &b""[..],
        b"1.2.3",
        b"1.2.3.4.5",
        b"256.1.1.1",
        b"1.2.3.999",
        b"01.2.3.4",
        b"1.2.3.00",
        b"1..3.4",
        b"1.2.3.4 ",
        b" 1.2.3.4",
        b"+1.2.3.4",
        b"a.b.c.d",
        b"1.2.3.4;",
        b"0001.2.3.4",
    ] {
        assert_eq!(parse_ipv4(text), None, "{:?}", String::from_utf8_lossy(text));
    }
}

#[test]
fn parse_ipv4_octet_values() {
    assert_eq!(parse_ipv4(b"10.0.0.1"), Some(0x0A00_0001));
    assert_eq!(parse_ipv4(b"127.0.0.1"), Some(0x7F00_0001));
    assert_eq!(parse_ipv4(b"222.173.190.239"), Some(0xDEAD_BEEF));
    assert_eq!(parse_ipv4(b"10.00.0.1"), None);
    assert_eq!(parse_ipv4(b"300.1.1.1"), None);
}

#[test]
fn format_then_parse_round_trip() {
    let mut ip: u32 = 7;
    for _ in 0..2000 {
        assert_eq!(parse_ipv4(&format_ipv4(ip)), Some(ip));
        ip = ip.wrapping_mul(2654435761).wrapping_add(12345);
    }
}

#[test]
fn split_bytes_fields() {
    let fields = split_bytes(b"a;b;;c", b';');
    assert_eq!(fields, vec![b"a".to_vec(), b"b".to_vec(), b"".to_vec(), b"c".to_vec()]);
    assert_eq!(split_bytes(b"", b';'), vec![Vec::<u8>::new()]);
    assert_eq!(split_bytes(b";", b';'), vec![Vec::<u8>::new(), Vec::<u8>::new()]);
    assert_eq!(split_bytes(b"abc", b';'), vec![b"abc".to_vec()]);
}

#[test]
fn parse_octet_cases() {
    assert_eq!(parse_octet(b"0"), Some(0));
    assert_eq!(parse_octet(b"255"), Some(255));
    assert_eq!(parse_octet(b"256"), None);
    assert_eq!(parse_octet(b"00"), None);
    assert_eq!(parse_octet(b"012"), None);
    assert_eq!(parse_octet(b""), None);
    assert_eq!(parse_octet(b"1000"), None);
    assert_eq!(parse_octet(b"1a"), None);
}

#[test]
fn parse_unsigned_like_from_str() {
    assert_eq!(parse_unsigned(b"255", 255), Some(255));
    assert_eq!(parse_unsigned(b"256", 255), None);
    assert_eq!(parse_unsigned(b"+5", 255), Some(5));
    assert_eq!(parse_unsigned(b"007", 255), Some(7));
    assert_eq!(parse_unsigned(b"", 255), None);
    assert_eq!(parse_unsigned(b"+", 255), None);
    assert_eq!(parse_unsigned(b"-1", 255), None);
    assert_eq!(parse_unsigned(b"-0", 255), None);
    assert_eq!(parse_unsigned(b"65535", 65535), Some(65535));
    assert_eq!(parse_unsigned(b"65536", 65535), None);
    assert_eq!(parse_unsigned(b"99999999999999999999", 65535), None);
    for text in ["0", "+12", "012", "255", "256", "", "+", "-3", "1 ", "4x"] {
        assert_eq!(
            parse_unsigned(text.as_bytes(), 255),
            text.parse::<u8>().ok().map(u32::from),
            "{}",
            text
        );
    }
}
