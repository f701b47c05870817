use halo2_arithmetic::field::Fp;
use halo2_arithmetic::field::ROOT_OF_UNITY;
use halo2_arithmetic::field::S;
use halo2_arithmetic::field::TWO_INV;
use halo2_arithmetic::fft::best_fft;
use halo2_arithmetic::fft::cpu_fft;
use halo2_arithmetic::fft::g_to_lagrange;
use halo2_arithmetic::fft::recursive_butterfly_arithmetic;
use halo2_arithmetic::group::Pt;
use halo2_arithmetic::poly::eval_polynomial;
use rand_core::RngCore;
use rand_core::SeedableRng;

fn random_elems(rng: &mut rand_chacha::ChaChaRng, n: usize) -> Vec<Fp> {
    (0..n).map(|_| Fp::new(rng.next_u64())).collect()
}

/// A root of unity of multiplicative order `2^k`.
fn omega(k: u32) -> Fp {
    Fp::new(ROOT_OF_UNITY).pow(1u64 << (S - k))
}

#[test]
fn test_fft_round_trip() {
    let mut rng = rand_chacha::ChaChaRng::from_seed([4u8; 32]);
    for k in 0..=8u32 {
        let n = 1usize << k;
        let w = omega(k);
        let w_inv = w.invert().unwrap();
        let n_inv = Fp::new(TWO_INV).pow(k as u64);
        let original = random_elems(&mut rng, n);
        for threads in [1usize, 2, 4, 7] {
            let mut a = original.clone();
            best_fft(&mut a, w, k, threads);
            best_fft(&mut a, w_inv, k, threads);
            let restored: Vec<u64> = a.iter().map(|x| x.mul(n_inv).as_u64()).collect();
            let expect: Vec<u64> = original.iter().map(|x| x.as_u64()).collect();
            assert_eq!(restored, expect, "round trip failed at k = {}", k);
        }
    }
}

#[test]
fn test_fft_evaluates_polynomial() {
    // the transform of a coefficient vector is its evaluations at the
    // powers of the root
    let mut rng = rand_chacha::ChaChaRng::from_seed([5u8; 32]);
    for k in 0..=5u32 {
        let n = 1usize << k;
        let w = omega(k);
        let coeffs = random_elems(&mut rng, n);
        let mut a = coeffs.clone();
        cpu_fft(&mut a, w, k, 1);
        for i in 0..n {
            let x = w.pow(i as u64);
            assert_eq!(
                a[i].as_u64(),
                eval_polynomial(&coeffs, x, 1).as_u64(),
                "evaluation mismatch at k = {}, i = {}",
                k,
                i
            );
        }
    }
}

#[test]
fn test_fft_strategies_agree() {
    let mut rng = rand_chacha::ChaChaRng::from_seed([6u8; 32]);
    let k = 5u32;
    let n = 1usize << k;
    let w = omega(k);
    let original = random_elems(&mut rng, n);
    // deep: few threads forces the recursive strategy
    let mut deep = original.clone();
    cpu_fft(&mut deep, w, k, 1);
    // shallow: many threads takes the layered strategy
    let mut wide = original.clone();
    cpu_fft(&mut wide, w, k, 64);
    let dv: Vec<u64> = deep.iter().map(|x| x.as_u64()).collect();
    let wv: Vec<u64> = wide.iter().map(|x| x.as_u64()).collect();
    assert_eq!(dv, wv);
}

#[test]
fn test_recursive_butterfly_single_block() {
    // one butterfly on a pair: sum and difference
    let mut a = vec![Fp::new(10), Fp::new(3)];
    let twiddles = vec![Fp::one()];
    recursive_butterfly_arithmetic(&mut a, 2, 1, &twiddles);
    assert_eq!(a[0].as_u64(), 13);
    assert_eq!(a[1].as_u64(), 7);
}

#[test]
fn test_g_to_lagrange_matches_manual() {
    let mut rng = rand_chacha::ChaChaRng::from_seed([7u8; 32]);
    for k in 0..=4u32 {
        let n = 1usize << k;
        let points: Vec<Pt> = (0..n).map(|_| Pt::new(rng.next_u64())).collect();
        let got = g_to_lagrange(points.clone(), k, 3);
        // manual: inverse transform, scale by the inverse of the
        // length, normalize
        let w_inv = omega(k).invert().unwrap();
        let n_inv = Fp::new(TWO_INV).pow(k as u64);
        let mut manual = points.clone();
        best_fft(&mut manual, w_inv, k, 1);
        for i in 0..n {
            assert_eq!(got[i].as_u64(), manual[i].mul_scalar(n_inv).as_u64());
        }
    }
}
