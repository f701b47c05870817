use halo2_arithmetic::field::Fp;
use halo2_arithmetic::group::Pt;
use halo2_arithmetic::group::PtAffine;
use halo2_arithmetic::group::batch_normalize;
use halo2_arithmetic::msm::best_multiexp;
use halo2_arithmetic::msm::cpu_multiexp;
use halo2_arithmetic::msm::multiexp_serial;
use halo2_arithmetic::msm::small_multiexp;
use rand_core::RngCore;
use rand_core::SeedableRng;

fn random_inputs(
    rng: &mut rand_chacha::ChaChaRng,
    n: usize,
) -> (Vec<Fp>, Vec<PtAffine>) {
    let coeffs = (0..n).map(|_| Fp::new(rng.next_u64())).collect();
    let bases = (0..n).map(|_| PtAffine::new(rng.next_u64())).collect();
    (coeffs, bases)
}

fn direct_msm(coeffs: &[Fp], bases: &[PtAffine]) -> Pt {
    let mut acc = Pt::identity();
    for (c, b) in coeffs.iter().zip(bases.iter()) {
        acc = acc.add(b.to_curve().mul_scalar(*c));
    }
    acc
}

#[test]
fn test_best_multiexp_matches_direct() {
    let mut rng = rand_chacha::ChaChaRng::from_seed([8u8; 32]);
    for n in 1..64 {
        let (coeffs, bases) = random_inputs(&mut rng, n);
        let expected = direct_msm(&coeffs, &bases).as_u64();
        for threads in [1usize, 2, 5] {
            assert_eq!(
                best_multiexp(&coeffs, &bases, threads).as_u64(),
                expected,
                "mismatch at n = {}",
                n
            );
        }
    }
}

#[test]
fn test_small_and_bucketed_multiexp_agree() {
    let mut rng = rand_chacha::ChaChaRng::from_seed([9u8; 32]);
    for n in 0..48 {
        let (coeffs, bases) = random_inputs(&mut rng, n);
        let small = small_multiexp(&coeffs, &bases);
        let best = best_multiexp(&coeffs, &bases, 4);
        assert_eq!(small.as_u64(), best.as_u64(), "mismatch at n = {}", n);
        assert_eq!(small, best);
    }
}

#[test]
fn test_multiexp_serial_from_identity() {
    let coeffs = vec![Fp::new(3), Fp::new(5)];
    let bases = vec![PtAffine::new(10), PtAffine::new(20)];
    let mut acc = Pt::identity();
    multiexp_serial(&coeffs, &bases, &mut acc);
    // 3 * 10 + 5 * 20 == 130
    assert_eq!(acc.as_u64(), 130);
}

#[test]
fn test_cpu_multiexp_chunked_path() {
    let mut rng = rand_chacha::ChaChaRng::from_seed([10u8; 32]);
    let (coeffs, bases) = random_inputs(&mut rng, 100);
    let expected = direct_msm(&coeffs, &bases).as_u64();
    // more points than workers takes the chunked path
    assert_eq!(cpu_multiexp(&coeffs, &bases, 3).as_u64(), expected);
}

#[test]
fn test_multiexp_empty() {
    let coeffs: Vec<Fp> = Vec::new();
    let bases: Vec<PtAffine> = Vec::new();
    assert_eq!(best_multiexp(&coeffs, &bases, 2).as_u64(), 0);
    assert_eq!(small_multiexp(&coeffs, &bases).as_u64(), 0);
}

#[test]
fn test_batch_normalize_preserves_values() {
    let src = vec![Pt::new(0), Pt::new(77), Pt::new(256)];
    let aff = batch_normalize(&src);
    assert_eq!(aff.len(), 3);
    for (p, a) in src.iter().zip(aff.iter()) {
        assert_eq!(p.as_u64(), a.as_u64());
    }
}
