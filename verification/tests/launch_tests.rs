use ip_pinger::launch::{
    chunk_ips, full_port_range, plan_from_order, plan_work, pool_next, PoolAction, WorkPlan,
};

#[test]
fn full_scan_ports() {
    let ports = full_port_range();
    assert_eq!(ports.len(), 65535);
    assert_eq!(ports[0], 1);
    assert_eq!(ports[65534], 65535);
    assert!(ports.windows(2).all(|w| w[1] == w[0] + 1));
}

#[test]
fn chunks_keep_every_address() {
    let ips: Vec<u32> = (0..10).collect();
    let chunks = chunk_ips(&ips, 3);
    assert_eq!(chunks, vec![vec![0, 1, 2], vec![3, 4, 5], vec![6, 7, 8], vec![9]]);
    assert_eq!(chunk_ips(&ips, 10), vec![ips.clone()]);
    assert_eq!(chunk_ips(&ips, 11), vec![ips.clone()]);
    assert_eq!(chunk_ips(&ips, 1).len(), 10);
    assert_eq!(chunk_ips(&Vec::new(), 4), Vec::<Vec<u32>>::new());
    assert_eq!(chunk_ips(&ips, 5), vec![vec![0, 1, 2, 3, 4], vec![5, 6, 7, 8, 9]]);
}

#[test]
fn plan_single_thread() {
    let ips: Vec<u32> = (0..10).collect();
    match plan_from_order(ips.clone(), 1, 0) {
        WorkPlan::Single(v) => assert_eq!(v, ips),
        WorkPlan::Chunked(_) => panic!("expected one thread"),
    }
}

#[test]
fn plan_fewer_than_a_chunk() {
    let ips: Vec<u32> = (0..10).collect();
    match plan_from_order(ips.clone(), 16, 4096) {
        WorkPlan::Single(v) => assert_eq!(v, ips),
        WorkPlan::Chunked(_) => panic!("expected one thread"),
    }
    match plan_from_order(ips.clone(), 2, 11) {
        WorkPlan::Single(v) => assert_eq!(v, ips),
        WorkPlan::Chunked(_) => panic!("expected one thread"),
    }
}

#[test]
fn plan_exactly_one_chunk() {
    let ips: Vec<u32> = (0..10).collect();
    match plan_from_order(ips.clone(), 2, 10) {
        WorkPlan::Chunked(c) => assert_eq!(c, vec![ips]),
        WorkPlan::Single(_) => panic!("expected chunks"),
    }
}

#[test]
fn plan_no_addresses() {
    match plan_from_order(Vec::new(), 16, 4096) {
        WorkPlan::Single(v) => assert!(v.is_empty()),
        WorkPlan::Chunked(_) => panic!("expected no chunks"),
    }
}

#[test]
fn plan_chunks() {
    let ips: Vec<u32> = (0..10).collect();
    match plan_from_order(ips, 4, 4) {
        WorkPlan::Chunked(c) => assert_eq!(c, vec![vec![0, 1, 2, 3], vec![4, 5, 6, 7], vec![8, 9]]),
        WorkPlan::Single(_) => panic!("expected chunks"),
    }
}

#[test]
fn plan_work_shuffles() {
    let ips: Vec<u32> = (0..1000).collect();
    match plan_work(ips.clone(), 1, 0) {
        WorkPlan::Single(v) => {
            assert_ne!(v, ips);
            let mut sorted = v.clone();
            sorted.sort();
            assert_eq!(sorted, ips);
        },
        WorkPlan::Chunked(_) => panic!("expected one thread"),
    }
}

#[test]
fn plan_work_chunks_a_permutation() {
    let ips: Vec<u32> = (0..100).collect();
    match plan_work(ips, 8, 30) {
        WorkPlan::Chunked(c) => {
            assert_eq!(c.len(), 4);
            assert_eq!(c[3].len(), 10);
            let mut all: Vec<u32> = c.concat();
            all.sort();
            assert_eq!(all, (0..100).collect::<Vec<u32>>());
        },
        WorkPlan::Single(_) => panic!("expected chunks"),
    }
}

#[test]
fn three_addresses_two_per_chunk() {
    match plan_work(vec![7, 8, 9], 2, 2) {
        WorkPlan::Chunked(c) => {
            assert_eq!(c.len(), 2);
            assert_eq!(c[0].len(), 2);
            assert_eq!(c[1].len(), 1);
            let mut all = c.concat();
            all.sort();
            assert_eq!(all, vec![7, 8, 9]);
        },
        WorkPlan::Single(_) => panic!("expected chunks"),
    }
}

#[test]
fn pool_decisions() {
    assert_eq!(pool_next(3, 0, 2), PoolAction::Spawn);
    assert_eq!(pool_next(3, 1, 2), PoolAction::Spawn);
    assert_eq!(pool_next(3, 2, 2), PoolAction::Collect);
    assert_eq!(pool_next(0, 2, 2), PoolAction::Collect);
    assert_eq!(pool_next(0, 0, 2), PoolAction::Finish);
}

#[test]
fn pool_run_hands_out_every_chunk() {
    let (mut pending, mut running, capacity) = (7usize, 0usize, 3usize);
    let (mut spawned, mut collected, mut steps) = (0, 0, 0);
    loop {
        match pool_next(pending, running, capacity) {
            PoolAction::Spawn => {
                pending -= 1;
                running += 1;
                spawned += 1;
            },
            PoolAction::Collect => {
                running -= 1;
                collected += 1;
            },
            PoolAction::Finish => break,
        }
        assert!(running <= capacity);
        steps += 1;
    }
    assert_eq!((spawned, collected, steps), (7, 7, 14));
}
