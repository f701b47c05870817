use halo2_arithmetic::field::Fp;
use halo2_arithmetic::field::P;
use halo2_arithmetic::field::batch_invert;
use halo2_arithmetic::field::powers;

#[test]
fn test_field_basics() {
    let a = Fp::new(200);
    let b = Fp::new(100);
    assert_eq!(a.add(b).as_u64(), 300 % P);
    assert_eq!(a.sub(b).as_u64(), 100);
    assert_eq!(b.sub(a).as_u64(), P - 100);
    assert_eq!(a.mul(b).as_u64(), (200 * 100) % P);
    assert_eq!(a.neg().add(a).as_u64(), 0);
    assert_eq!(Fp::new(P).as_u64(), 0);
    assert_eq!(Fp::zero().as_u64(), 0);
    assert_eq!(Fp::one().as_u64(), 1);
}

#[test]
fn test_pow() {
    let g = Fp::new(3);
    assert_eq!(g.pow(0).as_u64(), 1);
    assert_eq!(g.pow(1).as_u64(), 3);
    assert_eq!(g.pow(4).as_u64(), 81);
    assert_eq!(g.pow(5).as_u64(), 243);
    assert_eq!(g.pow(6).as_u64(), (243 * 3) % P);
    // the chosen root of unity has order exactly 2^8
    assert_eq!(g.pow(256).as_u64(), 1);
    assert_ne!(g.pow(128).as_u64(), 1);
}

#[test]
fn test_invert_every_nonzero_element() {
    assert!(Fp::new(0).invert().is_none());
    for v in 1..P {
        let a = Fp::new(v);
        let inv = a.invert().expect("nonzero element must invert");
        assert_eq!(a.mul(inv).as_u64(), 1);
    }
}

#[test]
fn test_known_inverses() {
    // 2 * 129 == 258 == P + 1 and 3 * 86 == 258 == P + 1
    assert_eq!(Fp::new(2).invert().unwrap().as_u64(), 129);
    assert_eq!(Fp::new(3).invert().unwrap().as_u64(), 86);
}

#[test]
fn test_batch_invert_matches_single_inversion() {
    let mut v: Vec<Fp> = (1..40).map(Fp::new).collect();
    let expected: Vec<u64> = v
        .iter()
        .map(|x| x.invert().unwrap().as_u64())
        .collect();
    assert!(batch_invert(&mut v));
    let got: Vec<u64> = v.iter().map(|x| x.as_u64()).collect();
    assert_eq!(got, expected);
}

#[test]
fn test_batch_invert_rejects_zero() {
    let mut v = vec![Fp::new(5), Fp::new(0), Fp::new(7)];
    let before: Vec<u64> = v.iter().map(|x| x.as_u64()).collect();
    assert!(!batch_invert(&mut v));
    let after: Vec<u64> = v.iter().map(|x| x.as_u64()).collect();
    assert_eq!(before, after);
}

#[test]
fn test_powers_lazy_and_restartable() {
    let mut p1 = powers(Fp::new(3));
    assert_eq!(p1.next().as_u64(), 1);
    assert_eq!(p1.next().as_u64(), 3);
    assert_eq!(p1.next().as_u64(), 9);
    assert_eq!(p1.next().as_u64(), 27);
    // a second invocation yields an independent fresh sequence
    let mut p2 = powers(Fp::new(3));
    assert_eq!(p2.next().as_u64(), 1);
    assert_eq!(p2.next().as_u64(), 3);
    assert_eq!(p1.next().as_u64(), 81);
}

#[test]
fn test_to_repr_little_endian() {
    let r = Fp::new(256).to_repr();
    assert_eq!(r, vec![0u8, 1u8]);
    let r2 = Fp::new(77).to_repr();
    assert_eq!(r2, vec![77u8, 0u8]);
}
