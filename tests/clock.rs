use datacake_cluster::hlc::{node_id_of, Clock, ClockOverflow, Hlc};

#[test]
fn clock_moves_with_wall_time() {
    let mut c = Clock::new(3);
    assert_eq!(c.now_at(100), Ok(Hlc::new(100, 0, 3)));
    assert_eq!(c.now_at(100), Ok(Hlc::new(100, 1, 3)));
    assert_eq!(c.now_at(90), Ok(Hlc::new(100, 2, 3)));
    assert_eq!(c.now_at(101), Ok(Hlc::new(101, 0, 3)));
}

#[test]
fn clock_is_strictly_monotone() {
    let mut c = Clock::new(1);
    let walls = [5u64, 5, 3, 9, 9, 9, 2, 10];
    let mut prev = Hlc::new(0, 0, 1);
    for w in walls {
        let t = c.now_at(w).unwrap();
        assert!(prev.is_before(&t));
        prev = t;
    }
    let a = c.observe_at(&Hlc::new(10, 7, 2), 4).unwrap();
    assert!(prev.is_before(&a));
    assert_eq!(a, Hlc::new(10, 8, 1));
}

#[test]
fn clock_overflow_within_one_millisecond() {
    let mut c = Clock::new(1);
    let remote = Hlc::new(50, u32::MAX - 1, 9);
    assert_eq!(c.observe_at(&remote, 10), Ok(Hlc::new(50, u32::MAX, 1)));
    assert_eq!(c.now_at(50), Err(ClockOverflow));
    assert_eq!(c.now_at(51), Ok(Hlc::new(51, 0, 1)));
}

#[test]
fn observe_moves_past_remote() {
    let mut c = Clock::new(1);
    c.now_at(100).unwrap();
    let remote = Hlc::new(200, 4, 2);
    let t = c.observe_at(&remote, 150).unwrap();
    assert_eq!(t, Hlc::new(200, 5, 1));
    assert!(remote.is_before(&t));
    let t2 = c.observe_at(&Hlc::new(200, 9, 3), 200).unwrap();
    assert_eq!(t2, Hlc::new(200, 10, 1));
    let t3 = c.observe_at(&Hlc::new(10, 0, 3), 300).unwrap();
    assert_eq!(t3, Hlc::new(300, 0, 1));
    let t4 = c.observe_at(&Hlc::new(10, 0, 3), 250).unwrap();
    assert_eq!(t4, Hlc::new(300, 1, 1));
}

#[test]
fn node_id_is_crc32_of_name() {
    assert_eq!(node_id_of("123456789"), 0xCBF4_3926);
    assert_eq!(node_id_of(""), 0);
    let c = Clock::for_node("123456789");
    assert_eq!(c.node(), 0xCBF4_3926);
}

#[test]
fn timestamps_order_lexicographically() {
    assert!(Hlc::new(1, 9, 9).is_before(&Hlc::new(2, 0, 0)));
    assert!(Hlc::new(2, 0, 9).is_before(&Hlc::new(2, 1, 0)));
    assert!(Hlc::new(2, 1, 0).is_before(&Hlc::new(2, 1, 1)));
    assert!(!Hlc::new(2, 1, 1).is_before(&Hlc::new(2, 1, 1)));
}
