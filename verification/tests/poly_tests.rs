use halo2_arithmetic::field::Fp;
use halo2_arithmetic::field::P;
use halo2_arithmetic::poly::InterpolationError;
use halo2_arithmetic::poly::compute_inner_product;
use halo2_arithmetic::poly::eval_polynomial;
use halo2_arithmetic::poly::evaluate_vanishing_polynomial;
use halo2_arithmetic::poly::kate_division;
use halo2_arithmetic::poly::lagrange_interpolate;
use rand_core::RngCore;
use rand_core::SeedableRng;

fn random_elems(rng: &mut rand_chacha::ChaChaRng, n: usize) -> Vec<Fp> {
    (0..n).map(|_| Fp::new(rng.next_u64())).collect()
}

fn distinct_elems(rng: &mut rand_chacha::ChaChaRng, n: usize) -> Vec<Fp> {
    let mut out: Vec<Fp> = Vec::new();
    while out.len() < n {
        let cand = Fp::new(rng.next_u64());
        if !out.iter().any(|x| x.as_u64() == cand.as_u64()) {
            out.push(cand);
        }
    }
    out
}

#[test]
fn test_lagrange_interpolate() {
    let mut rng = rand_chacha::ChaChaRng::from_seed([0u8; 32]);

    let points = distinct_elems(&mut rng, 5);
    let evals = random_elems(&mut rng, 5);

    for coeffs in 0..5 {
        let points = points[0..coeffs].to_vec();
        let evals = evals[0..coeffs].to_vec();

        let poly = lagrange_interpolate(&points, &evals).unwrap();
        assert_eq!(poly.len(), points.len());

        for (point, eval) in points.iter().zip(evals.iter()) {
            assert_eq!(
                eval_polynomial(&poly, *point, 4).as_u64(),
                eval.as_u64()
            );
        }
    }
}

#[test]
fn test_lagrange_interpolate_degenerate() {
    let points = vec![Fp::new(5), Fp::new(9), Fp::new(5)];
    let evals = vec![Fp::new(1), Fp::new(2), Fp::new(3)];
    assert_eq!(
        lagrange_interpolate(&points, &evals),
        Err(InterpolationError::DegenerateInput)
    );
}

#[test]
fn test_eval_polynomial_chunked_matches_serial() {
    let mut rng = rand_chacha::ChaChaRng::from_seed([1u8; 32]);
    let poly = random_elems(&mut rng, 37);
    let x = Fp::new(rng.next_u64());
    let base = eval_polynomial(&poly, x, 1).as_u64();
    for threads in 2..9 {
        assert_eq!(eval_polynomial(&poly, x, threads).as_u64(), base);
    }
}

#[test]
fn test_eval_polynomial_exact_value() {
    // 5 + 2 X + 7 X^2 at X = 10: 5 + 20 + 700 == 725 == 2 * 257 + 211
    let poly = vec![Fp::new(5), Fp::new(2), Fp::new(7)];
    assert_eq!(eval_polynomial(&poly, Fp::new(10), 1).as_u64(), 725 % P);
    assert_eq!(eval_polynomial(&Vec::new(), Fp::new(10), 3).as_u64(), 0);
}

#[test]
fn test_compute_inner_product_exact_value() {
    let a = vec![Fp::new(2), Fp::new(3), Fp::new(5)];
    let b = vec![Fp::new(7), Fp::new(11), Fp::new(13)];
    // 14 + 33 + 65 == 112
    assert_eq!(compute_inner_product(&a, &b).as_u64(), 112);
    let empty: Vec<Fp> = Vec::new();
    assert_eq!(compute_inner_product(&empty, &empty).as_u64(), 0);
}

fn mul_by_x_minus(q: &[Fp], b: Fp) -> Vec<Fp> {
    // (X - b) * q, coefficient by coefficient
    let n = q.len();
    let mut out = Vec::new();
    for i in 0..n + 1 {
        let lo = if i >= 1 { q[i - 1] } else { Fp::zero() };
        let hi = if i < n { b.mul(q[i]) } else { Fp::zero() };
        out.push(lo.sub(hi));
    }
    out
}

#[test]
fn test_kate_division_recovers_quotient() {
    let mut rng = rand_chacha::ChaChaRng::from_seed([2u8; 32]);
    for deg in 1..12 {
        let q = random_elems(&mut rng, deg);
        let b = Fp::new(rng.next_u64());
        let p = mul_by_x_minus(&q, b);
        let got = kate_division(&p, b);
        assert_eq!(got.len(), q.len());
        for i in 0..q.len() {
            assert_eq!(got[i].as_u64(), q[i].as_u64());
        }
    }
}

#[test]
fn test_vanishing_polynomial_empty_is_one() {
    let roots: Vec<Fp> = Vec::new();
    assert_eq!(
        evaluate_vanishing_polynomial(&roots, Fp::new(42), 4).as_u64(),
        1
    );
}

#[test]
fn test_vanishing_polynomial_matches_product() {
    let mut rng = rand_chacha::ChaChaRng::from_seed([3u8; 32]);
    for n in 0..20 {
        let roots = random_elems(&mut rng, n);
        let z = Fp::new(rng.next_u64());
        let mut expected = Fp::one();
        for r in roots.iter() {
            expected = z.sub(*r).mul(expected);
        }
        for threads in 1..5 {
            assert_eq!(
                evaluate_vanishing_polynomial(&roots, z, threads).as_u64(),
                expected.as_u64()
            );
        }
    }
}

#[test]
fn test_vanishing_polynomial_root_gives_zero() {
    let roots = vec![Fp::new(17), Fp::new(100)];
    assert_eq!(
        evaluate_vanishing_polynomial(&roots, Fp::new(17), 2).as_u64(),
        0
    );
}
