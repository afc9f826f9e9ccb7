use ahc_solvers::connected::make_connected3x3;

fn flood(s: usize) -> bool {
    if s == 0 {
        return true;
    }
    let root = s.trailing_zeros() as usize;
    let mut seen = 1usize << root;
    let mut stack = vec![root];
    while let Some(u) = stack.pop() {
        let (r, c) = (u / 3, u % 3);
        let mut nbrs = Vec::new();
        if r > 0 {
            nbrs.push(u - 3);
        }
        if r < 2 {
            nbrs.push(u + 3);
        }
        if c > 0 {
            nbrs.push(u - 1);
        }
        if c < 2 {
            nbrs.push(u + 1);
        }
        for v in nbrs {
            if s & (1 << v) != 0 && seen & (1 << v) == 0 {
                seen |= 1 << v;
                stack.push(v);
            }
        }
    }
    seen == s
}

#[test]
fn connected3x3_small_sets() {
    let t = make_connected3x3();
    assert_eq!(t.len(), 512);
    assert!(t.contains(0));
    assert!(t.contains(0b1));
    assert!(t.contains(0b11));
    assert!(!t.contains(0b101));
    assert!(!t.contains(0b1_0001));
    assert!(t.contains(0b1_0010));
    assert!(t.contains(511));
    assert!(!t.contains(0b1_0100_0101));
}

#[test]
fn connected3x3_matches_flood_fill() {
    let t = make_connected3x3();
    for s in 0..512usize {
        assert_eq!(t.contains(s), flood(s), "subset {}", s);
    }
}
