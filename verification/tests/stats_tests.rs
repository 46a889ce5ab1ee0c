use ip_pinger::pings::IpProperties;
use ip_pinger::stats::{report_due, sort_up_from_down, up_rtt_total, RunningStats};

fn prop(ip: u32, up: bool, rtt: u128) -> IpProperties {
    IpProperties::new(ip, up, rtt, format!("h{}", ip))
}

#[test]
fn sort_keeps_order_in_each_part() {
    let props = vec![prop(1, true, 5), prop(2, false, 6), prop(3, true, 7), prop(4, false, 8)];
    let (up, down) = sort_up_from_down(&props);
    assert_eq!(up.iter().map(|p| p.ip).collect::<Vec<_>>(), vec![1, 3]);
    assert_eq!(down.iter().map(|p| p.ip).collect::<Vec<_>>(), vec![2, 4]);
    assert_eq!(up[1].hostname, "h3".to_string());
    assert_eq!(up.len() + down.len(), props.len());
}

#[test]
fn sort_of_nothing() {
    let (up, down) = sort_up_from_down(&Vec::new());
    assert!(up.is_empty() && down.is_empty());
}

#[test]
fn rtt_total_of_up_results() {
    let props = vec![prop(1, true, 5), prop(2, false, 600), prop(3, true, 7)];
    assert_eq!(up_rtt_total(&props), Some((12, 2)));
    assert_eq!(up_rtt_total(&Vec::new()), Some((0, 0)));
}

#[test]
fn rtt_total_overflow() {
    let big = i64::MAX as u128;
    let props = vec![prop(1, true, big), prop(2, true, 1)];
    assert_eq!(up_rtt_total(&props), None);
    let props = vec![prop(1, true, big), prop(2, false, 1)];
    assert_eq!(up_rtt_total(&props), Some((i64::MAX, 1)));
}

#[test]
fn rtt_total_takes_millis_as_i64() {
    let wraps = (1u128 << 64) + 3;
    let props = vec![prop(1, true, wraps)];
    assert_eq!(up_rtt_total(&props), Some((3, 1)));
}

#[test]
fn running_stats_accumulate() {
    let mut s = RunningStats::new();
    assert_eq!((s.up, s.down, s.ms_per_chunk, s.treated_chunks), (0, 0, 0, 1));
    s.record_chunk(3, 5, 100);
    assert_eq!((s.up, s.down, s.ms_per_chunk, s.treated_chunks), (3, 5, 50, 2));
    s.record_chunk(1, 1, 250);
    assert_eq!((s.up, s.down, s.ms_per_chunk, s.treated_chunks), (4, 6, 116, 3));
    assert_eq!(s.total(), 10);
}

#[test]
fn report_due_every_thirty_two_chunks() {
    assert!(report_due(0, 10));
    assert!(!report_due(160, 10));
    assert!(report_due(320, 10));
    assert!(!report_due(310, 10));
    assert!(report_due(640, 10));
    assert!(!report_due(16, 1));
    assert!(report_due(32, 1));
    assert!(!report_due(64 - 4, 4));
    assert!(!report_due(64, 4));
    assert!(report_due(128, 4));
}

#[test]
fn running_totals_are_sums_of_chunks() {
    let chunks = [(3usize, 5usize, 10u128), (0, 4, 20), (7, 1, 30), (2, 2, 40)];
    let mut s = RunningStats::new();
    let (mut up, mut down) = (0, 0);
    for (k, (u, d, ms)) in chunks.iter().enumerate() {
        let before = (s.up, s.down);
        s.record_chunk(*u, *d, *ms);
        up += u;
        down += d;
        assert_eq!((s.up, s.down, s.treated_chunks), (up, down, k + 2));
        assert!(s.up >= before.0 && s.down >= before.1);
    }
}

#[test]
fn report_after_every_thirty_second_chunk() {
    let mut s = RunningStats::new();
    for j in 1..=100usize {
        s.record_chunk(3, 7, 5);
        assert_eq!(report_due(s.total(), 10), j % 32 == 0, "chunk {}", j);
    }
}
