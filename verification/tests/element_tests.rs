use simplepir::element::Element;

fn gen_q() -> u64 {
    return 101u64;
}

#[test]
fn test_new() {
    let q = gen_q();
    let f = Element::new(q);
    assert_eq!(f.uint, 0u64);
}

#[test]
fn element_test_add() {
    let f = Element::from(gen_q(), 101u64);
    let g = Element::from(gen_q(), 1u64);
    let r = f + g;
    assert_eq!(r.uint, 1u64);

    let f = Element::from(gen_q(), 1u64);
    let g = Element::from(gen_q(), 1u64);
    let r = f + g;
    assert_eq!(r.uint, 2u64);
}

#[test]
fn element_test_add_assign() {
    let mut f = Element::from(gen_q(), 101u64);
    let g = Element::from(gen_q(), 1u64);
    f.add_assign(g);
    assert_eq!(f.uint, 1u64);
}

#[test]
fn test_sub() {
    let f = Element::from(gen_q(), 0u64);
    let g = Element::from(gen_q(), 1u64);
    let r = f - g;
    assert_eq!(r.uint, 100u64);
}

#[test]
fn test_sub_assign() {
    let mut f = Element::from(gen_q(), 101u64);
    let g = Element::from(gen_q(), 1u64);
    f.sub_assign(g);
    assert_eq!(f.uint, 100u64);
}

#[test]
fn element_test_mul() {
    let f = Element::from(gen_q(), 101u64);
    let g = Element::from(gen_q(), 2u64);
    let r = f * g;
    assert_eq!(r.uint, 0u64);

    let f = Element::from(gen_q(), 3u64);
    let g = Element::from(gen_q(), 5u64);
    let r = f * g;
    assert_eq!(r.uint, 15u64);
}

#[test]
fn element_test_mul_assign() {
    let mut f = Element::from(gen_q(), 100u64);
    let g = Element::from(gen_q(), 2u64);
    f.mul_assign(g);
    assert_eq!(f.uint, 99u64);
}

#[test]
fn test_ring_laws_concrete() {
    // (a + b) - b == a, and a * 1 == a, at q = 101
    let q = gen_q();
    let a = Element::from(q, 55u64);
    let b = Element::from(q, 77u64);
    let sum = a + b;
    let back = sum - b;
    assert_eq!(back.uint, 55u64);
    let one = Element::from(q, 1u64);
    assert_eq!((a * one).uint, 55u64);
    // 0 - 1 wraps to q - 1
    let zero = Element::new(q);
    assert_eq!((zero - one).uint, 100u64);
}

#[test]
fn test_uniform_rand_range() {
    // With a modulus of 1 the only admissible sample is 0.
    for _ in 0..32 {
        let e = Element::gen_uniform_rand(1);
        assert_eq!(e.uint, 0u64);
        assert_eq!(e.q, 1u64);
    }
    for _ in 0..64 {
        let e = Element::gen_uniform_rand(7);
        assert!(e.uint < 7);
    }
}
