use narwhal::analysis::{Analysis, BatchInfo, Increments};

#[test]
fn counters_grow_with_each_commit() {
    let mut a = Analysis::new();
    let first = a.observe(
        1_000,
        &vec![
            BatchInfo { size: 512, samples: vec![] },
            BatchInfo { size: 100, samples: vec![900, 990] },
            BatchInfo { size: 3, samples: vec![400] },
        ],
    );
    assert_eq!(
        first,
        Increments {
            certificates: 1,
            commit_gap: 1_000,
            bytes: 615,
            samples: 3,
            first_sent: 900,
            latency: 100 + 10 + 600,
            latency_square: 10_000 + 100 + 360_000,
        }
    );
    let second = a.observe(1_250, &vec![BatchInfo { size: 7, samples: vec![1_240] }]);
    assert_eq!(
        second,
        Increments {
            certificates: 1,
            commit_gap: 250,
            bytes: 7,
            samples: 1,
            first_sent: 0,
            latency: 10,
            latency_square: 100,
        }
    );
}

#[test]
fn the_first_sample_is_recorded_when_it_comes() {
    let mut a = Analysis::new();
    assert_eq!(a.observe(10, &vec![]).first_sent, 0);
    assert_eq!(a.observe(20, &vec![BatchInfo { size: 1, samples: vec![] }]).first_sent, 0);
    let third = a.observe(30, &vec![BatchInfo { size: 1, samples: vec![25, 26] }]);
    assert_eq!(third.first_sent, 25);
    assert_eq!(third.commit_gap, 10);
    assert_eq!(a.observe(40, &vec![BatchInfo { size: 1, samples: vec![35] }]).first_sent, 0);
}

#[test]
fn amounts_stop_at_the_largest_number() {
    let mut a = Analysis::new();
    let r = a.observe(
        u64::MAX,
        &vec![
            BatchInfo { size: u64::MAX, samples: vec![0, 1] },
            BatchInfo { size: 5, samples: vec![u64::MAX - 3] },
        ],
    );
    assert_eq!(r.bytes, u64::MAX);
    assert_eq!(r.samples, 3);
    assert_eq!(r.latency, u64::MAX);
    assert_eq!(r.latency_square, u64::MAX);
    assert_eq!(r.commit_gap, u64::MAX);
    let s = a.observe(5, &vec![BatchInfo { size: 1, samples: vec![9, 2] }]);
    assert_eq!(s.commit_gap, 0);
    assert_eq!(s.latency, 3);
    assert_eq!(s.latency_square, 9);
    let t = a.observe(4_294_967_296, &vec![BatchInfo { size: 1, samples: vec![1, 0] }]);
    assert_eq!(t.latency, 2 * 4_294_967_296 - 1);
    assert_eq!(t.latency_square, u64::MAX);
    let u = a.observe(4_294_967_295, &vec![BatchInfo { size: 1, samples: vec![0] }]);
    assert_eq!(u.latency_square, 4_294_967_295 * 4_294_967_295);
}
