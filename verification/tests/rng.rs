use ahc_solvers::rng::{XorShift32, XorShift64};

#[test]
fn xorshift32_sequence() {
    let mut rng = XorShift32::new(1);
    assert_eq!(rng.gen_u32(), 270369);
    assert_eq!(rng.gen_u32(), 67634689);
    assert_eq!(rng.gen_u32(), 2647435461);
}

#[test]
fn xorshift32_zero_seed_is_replaced() {
    let mut rng = XorShift32::new(0);
    assert_eq!(rng.gen_u32(), 253983);
    assert_eq!(rng.gen_u32(), 4228382207);
}

#[test]
fn xorshift32_range_scales_the_draw() {
    let mut rng = XorShift32::new(1);
    // 10 + floor(10 * 270369 / 2^32)
    assert_eq!(rng.gen_range(10, 20), 10);
    for _ in 0..100 {
        let x = rng.gen_range(3, 7);
        assert!((3..7).contains(&x));
    }
}

#[test]
fn xorshift32_shuffles() {
    let mut rng = XorShift32::new(42);
    let mut v = vec![0, 1, 2, 3, 4, 5];
    rng.shuffle(&mut v);
    assert_eq!(v, vec![4, 1, 2, 5, 3, 0]);
    // the state after the shuffle is 3759983556
    assert_eq!(rng.gen_u32(), 1441438134);
}

#[test]
fn xorshift32_partial_shuffle() {
    let mut rng = XorShift32::new(42);
    let mut v = vec![0, 1, 2, 3, 4, 5];
    rng.partial_shuffle(&mut v, 3);
    assert_eq!(v, vec![0, 4, 2, 3, 1, 5]);
}

#[test]
fn xorshift64_steps() {
    let mut rng = XorShift64::new(5);
    assert_eq!(rng.next_u64(), 644);
    let mut rng = XorShift64::new(5);
    assert_eq!(rng.gen_usize(10), 4);
    let mut rng = XorShift64::new(5);
    assert_eq!(rng.gen_usize(1), 0);
    assert_eq!(rng.next_u64(), 644);
    let mut rng = XorShift64::new(0);
    assert_eq!(rng.next_u64(), 9640342942507420846);
    let mut rng = XorShift64::new(5);
    assert!(!rng.gen_bool());
    let mut rng = XorShift64::new(5);
    assert_eq!(rng.gen_range(7), 644 % 7);
}
