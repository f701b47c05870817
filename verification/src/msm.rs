//! Multi-scalar multiplication: `sum coeffs[i] * bases[i]` over the
//! group, by the windowed bucket method (Pippenger), with a bit-serial
//! double-and-add fallback for tiny inputs. Scalars are read through
//! their canonical little-endian byte encoding, a fixed window of bits
//! at a time.

use vstd::prelude::*;
use vstd::arithmetic::power2::pow2;
use vstd::arithmetic::power2::lemma_pow2_pos;
use vstd::arithmetic::power2::lemma_pow2_adds;
use vstd::arithmetic::power2::lemma_pow2_unfold;
use vstd::arithmetic::power2::lemma_pow2_strictly_increases;
use vstd::arithmetic::div_mod::lemma_small_mod;
use vstd::arithmetic::div_mod::lemma_div_denominator;
use vstd::arithmetic::div_mod::lemma_fundamental_div_mod;
use vstd::arithmetic::div_mod::lemma_add_mod_noop;
use vstd::arithmetic::div_mod::lemma_mul_mod_noop_general;
use vstd::arithmetic::div_mod::lemma_mod_twice;
use vstd::arithmetic::div_mod::lemma_mod_bound;
use vstd::arithmetic::mul::lemma_mul_is_distributive_add_other_way;
use crate::field::Fp;
use crate::field::P;
use crate::field::NUM_BITS;
use crate::field::fadd;
use crate::field::fmul;
use crate::field::fpow;
use crate::field::lemma_fadd_assoc;
use crate::field::lemma_fadd_rearrange;
use crate::field::lemma_fmul_comm;
use crate::field::lemma_fadd_noop;
use crate::field::lemma_fmul_noop;
use crate::field::lemma_fmul_distributes;
use crate::group::Pt;
use crate::group::PtAffine;
use crate::poly::inner_prod;

verus! {

/// The residues held by a sequence of affine points.
pub open spec fn aviews(s: Seq<PtAffine>) -> Seq<int> {
    s.map_values(|x: PtAffine| x@)
}

/// The residues held by a sequence of field elements.
pub open spec fn fviews(s: Seq<Fp>) -> Seq<int> {
    s.map_values(|x: Fp| x@)
}

/// The partial multi-scalar sum with every scalar shifted right by
/// `sh` bits: `sum (cs[i] / 2^sh) * bs[i]`.
pub open spec fn shifted_msm(cs: Seq<int>, bs: Seq<int>, sh: nat) -> int
    decreases cs.len(),
{
    if cs.len() == 0 {
        0
    } else {
        fadd(
            shifted_msm(cs.drop_last(), bs.drop_last(), sh),
            fmul(cs.last() / (pow2(sh) as int), bs.last()),
        )
    }
}

/// The multi-scalar sum of one window of digits: `sum digit_i * bs[i]`
/// with `digit_i = (cs[i] / 2^sh) % 2^c`.
pub open spec fn digit_msm(cs: Seq<int>, bs: Seq<int>, sh: nat, c: nat) -> int
    decreases cs.len(),
{
    if cs.len() == 0 {
        0
    } else {
        fadd(
            digit_msm(cs.drop_last(), bs.drop_last(), sh, c),
            fmul((cs.last() / (pow2(sh) as int)) % (pow2(c) as int), bs.last()),
        )
    }
}

/// Scaling distributes over a residue sum from the right.
proof fn lemma_fmul_distributes_right(x: int, y: int, t: int)
    ensures
        fmul(fadd(x, y), t) == fadd(fmul(x, t), fmul(y, t)),
{
    lemma_fmul_comm(fadd(x, y), t);
    lemma_fmul_distributes(t, x, y);
    lemma_fmul_comm(t, x);
    lemma_fmul_comm(t, y);
}

/// With no shift the shifted sum is the plain inner product.
pub proof fn lemma_shifted_msm_zero_shift(cs: Seq<int>, bs: Seq<int>)
    ensures
        shifted_msm(cs, bs, 0) == inner_prod(cs, bs),
    decreases cs.len(),
{
    assert(pow2(0) == 1) by {
        vstd::arithmetic::power2::lemma2_to64();
    }
    if cs.len() > 0 {
        lemma_shifted_msm_zero_shift(cs.drop_last(), bs.drop_last());
        vstd::arithmetic::div_mod::lemma_div_basics(cs.last());
    }
}

/// Scalars smaller than the shift leave nothing: the shifted sum is
/// zero.
pub proof fn lemma_shifted_msm_all_zero(cs: Seq<int>, bs: Seq<int>, sh: nat)
    requires
        forall|i: int| 0 <= i < cs.len() ==> 0 <= #[trigger] cs[i] < pow2(sh),
    ensures
        shifted_msm(cs, bs, sh) == 0,
    decreases cs.len(),
{
    lemma_pow2_pos(sh);
    if cs.len() > 0 {
        lemma_shifted_msm_all_zero(cs.drop_last(), bs.drop_last(), sh);
        assert(cs.last() == cs[cs.len() - 1]);
        assert(cs.last() / (pow2(sh) as int) == 0) by {
            vstd::arithmetic::div_mod::lemma_basic_div(cs.last(), pow2(sh) as int);
        }
        assert(fmul(0, bs.last()) == 0) by {
            lemma_small_mod(0nat, P as nat);
        }
        assert(fadd(0, 0) == 0) by {
            lemma_small_mod(0nat, P as nat);
        }
    }
}

/// One element of the window step: splitting the shifted scalar into
/// its upper part and its lowest `c`-bit digit splits its term.
proof fn lemma_window_split_one(v: int, b: int, sh: nat, c: nat)
    requires
        v >= 0,
    ensures
        fmul(v / (pow2(sh) as int), b) == fadd(
            fmul(fmul(v / (pow2(sh + c) as int), b), fpow(2, c)),
            fmul((v / (pow2(sh) as int)) % (pow2(c) as int), b),
        ),
{
    let p = P as int;
    let m = pow2(sh) as int;
    let mc = pow2(c) as int;
    lemma_pow2_pos(sh);
    lemma_pow2_pos(c);
    lemma_pow2_adds(sh, c);
    let x = v / m;
    let hi = v / (pow2(sh + c) as int);
    assert(hi == x / mc) by {
        lemma_div_denominator(v, m, mc);
    }
    lemma_fundamental_div_mod(x, mc);
    let dig = x % mc;
    assert(x == mc * hi + dig);
    // fmul(x, b) splits as a residue sum
    assert(fmul(x, b) == fadd(fmul(mc * hi, b), fmul(dig, b))) by {
        lemma_mul_is_distributive_add_other_way(b, mc * hi, dig);
        lemma_add_mod_noop((mc * hi) * b, dig * b, p);
        assert((mc * hi + dig) * b == (mc * hi) * b + dig * b);
        lemma_mod_twice((mc * hi) * b + dig * b, p);
    }
    // and the upper term carries the 2^c factor
    assert(fmul(mc * hi, b) == fmul(fmul(hi, b), fpow(2, c))) by {
        assert(fpow(2, c) == mc % p) by {
            vstd::arithmetic::power2::lemma_pow2(c);
        }
        lemma_mul_mod_noop_general(hi * b, mc, p);
        assert(fmul(fmul(hi, b), fpow(2, c)) == ((hi * b) % p * (mc % p)) % p);
        assert(((hi * b) % p * (mc % p)) % p == ((hi * b) * mc) % p) by {
            vstd::arithmetic::div_mod::lemma_mul_mod_noop(hi * b, mc, p);
        }
        assert((hi * b) * mc == (mc * hi) * b) by (nonlinear_arith);
    }
}

/// The window step over whole sequences: one doubling pass and one
/// digit pass move the shifted sum down by `c` bits.
pub proof fn lemma_window_split(cs: Seq<int>, bs: Seq<int>, sh: nat, c: nat)
    requires
        forall|i: int| 0 <= i < cs.len() ==> #[trigger] cs[i] >= 0,
    ensures
        shifted_msm(cs, bs, sh) == fadd(
            fmul(shifted_msm(cs, bs, (sh + c) as nat), fpow(2, c)),
            digit_msm(cs, bs, sh, c),
        ),
    decreases cs.len(),
{
    if cs.len() == 0 {
        assert(fmul(0, fpow(2, c)) == 0) by {
            lemma_small_mod(0nat, P as nat);
        }
        assert(fadd(0, 0) == 0) by {
            lemma_small_mod(0nat, P as nat);
        }
    } else {
        lemma_window_split(cs.drop_last(), bs.drop_last(), sh, c);
        assert(cs.last() == cs[cs.len() - 1]);
        lemma_window_split_one(cs.last(), bs.last(), sh, c);
        let sd = shifted_msm(cs.drop_last(), bs.drop_last(), (sh + c) as nat);
        let dd = digit_msm(cs.drop_last(), bs.drop_last(), sh, c);
        let hterm = fmul(fmul(cs.last() / (pow2(sh + c) as int), bs.last()), fpow(2, c));
        let dterm = fmul((cs.last() / (pow2(sh) as int)) % (pow2(c) as int), bs.last());
        // expand the scaled sum, then regroup the four summands
        lemma_fmul_distributes_right(
            sd,
            fmul(cs.last() / (pow2(sh + c) as int), bs.last()),
            fpow(2, c),
        );
        lemma_fadd_rearrange(fmul(sd, fpow(2, c)), hterm, dd, dterm);
    }
}

/// The scalar value carried by a two-byte little-endian encoding.
pub open spec fn repr_val(bs: Seq<u8>) -> int {
    bs[0] + 256 * bs[1]
}

/// Sum of the bucket residues from index `t` on.
pub open spec fn suffix_sum(bv: Seq<int>, t: int) -> int
    decreases bv.len() - t,
{
    if t < 0 || t >= bv.len() {
        0
    } else {
        fadd(bv[t], suffix_sum(bv, t + 1))
    }
}

/// The summation-by-parts total from index `t` on: bucket `j`
/// weighted by `j - t + 1`.
pub open spec fn suffix_weighted(bv: Seq<int>, t: int) -> int
    decreases bv.len() - t,
{
    if t < 0 || t >= bv.len() {
        0
    } else {
        fadd(suffix_sum(bv, t), suffix_weighted(bv, t + 1))
    }
}

/// Empty buckets contribute nothing.
proof fn lemma_suffix_zero(bv: Seq<int>, t: int)
    requires
        forall|j: int| 0 <= j < bv.len() ==> #[trigger] bv[j] == 0,
    ensures
        suffix_sum(bv, t) == 0,
        suffix_weighted(bv, t) == 0,
    decreases bv.len() - t,
{
    lemma_small_mod(0nat, P as nat);
    if 0 <= t < bv.len() {
        lemma_suffix_zero(bv, t + 1);
    }
}

/// Dropping a base into bucket `k` raises the plain suffix sums from
/// `t <= k` by the base, and leaves the later ones alone.
proof fn lemma_suffix_sum_update(bv: Seq<int>, t: int, k: int, x: int)
    requires
        0 <= k < bv.len(),
        0 <= t,
    ensures
        t <= k ==> suffix_sum(bv.update(k, fadd(bv[k], x)), t) == fadd(suffix_sum(bv, t), x),
        t > k ==> suffix_sum(bv.update(k, fadd(bv[k], x)), t) == suffix_sum(bv, t),
    decreases bv.len() - t,
{
    let bv2 = bv.update(k, fadd(bv[k], x));
    if t < bv.len() {
        lemma_suffix_sum_update(bv, t + 1, k, x);
        if t < k {
            lemma_fadd_assoc(bv[t], suffix_sum(bv, t + 1), x);
        } else if t == k {
            lemma_fadd_assoc(bv[k], x, suffix_sum(bv, k + 1));
            lemma_fadd_assoc(bv[k], suffix_sum(bv, k + 1), x);
            assert(fadd(x, suffix_sum(bv, k + 1)) == fadd(suffix_sum(bv, k + 1), x));
        }
    }
}

/// The same for the weighted totals: the raise is the base times the
/// weight of its bucket.
proof fn lemma_suffix_weighted_update(bv: Seq<int>, t: int, k: int, x: int)
    requires
        0 <= k < bv.len(),
        0 <= t,
    ensures
        t <= k ==> suffix_weighted(bv.update(k, fadd(bv[k], x)), t) == fadd(
            suffix_weighted(bv, t),
            fmul(k - t + 1, x),
        ),
        t > k ==> suffix_weighted(bv.update(k, fadd(bv[k], x)), t) == suffix_weighted(bv, t),
    decreases bv.len() - t,
{
    let p = P as int;
    let bv2 = bv.update(k, fadd(bv[k], x));
    if t < bv.len() {
        lemma_suffix_weighted_update(bv, t + 1, k, x);
        lemma_suffix_sum_update(bv, t, k, x);
        if t < k {
            lemma_fadd_rearrange(
                suffix_sum(bv, t),
                x,
                suffix_weighted(bv, t + 1),
                fmul(k - t, x),
            );
            assert(fadd(x, fmul(k - t, x)) == fmul(k - t + 1, x)) by {
                lemma_fadd_noop(x, (k - t) * x);
                lemma_mul_is_distributive_add_other_way(x, k - t, 1);
                assert((k - t) * x + 1 * x == (k - t + 1) * x);
                assert(1 * x == x);
            }
        } else if t == k {
            lemma_fadd_assoc(suffix_sum(bv, k), x, suffix_weighted(bv, k + 1));
            lemma_fadd_assoc(suffix_sum(bv, k), suffix_weighted(bv, k + 1), x);
            assert(fadd(x, suffix_weighted(bv, k + 1)) == fadd(suffix_weighted(bv, k + 1), x));
            assert(fmul(1, x) == x % p) by {
                assert(1 * x == x);
            }
            lemma_fadd_noop(suffix_weighted(bv, k), x);
        }
    }
}

/// Every digit sum is a reduced residue.
proof fn lemma_digit_msm_bound(cs: Seq<int>, bs: Seq<int>, sh: nat, c: nat)
    ensures
        0 <= digit_msm(cs, bs, sh, c) < P,
    decreases cs.len(),
{
    if cs.len() == 0 {
    } else {
        lemma_mod_bound(
            digit_msm(cs.drop_last(), bs.drop_last(), sh, c) + fmul(
                (cs.last() / (pow2(sh) as int)) % (pow2(c) as int),
                bs.last(),
            ),
            P as int,
        );
    }
}

/// Appending to both vectors adds the inner products.
pub proof fn lemma_inner_prod_append(a1: Seq<int>, b1: Seq<int>, a2: Seq<int>, b2: Seq<int>)
    requires
        a1.len() == b1.len(),
        a2.len() == b2.len(),
    ensures
        inner_prod(a1 + a2, b1 + b2) == fadd(inner_prod(a1, b1), inner_prod(a2, b2)),
    decreases a2.len(),
{
    crate::poly::lemma_inner_prod_bound(a1, b1);
    if a2.len() == 0 {
        assert(a1 + a2 =~= a1);
        assert(b1 + b2 =~= b1);
        if a1.len() == 0 {
            lemma_small_mod(0nat, P as nat);
        } else {
            lemma_small_mod(inner_prod(a1, b1) as nat, P as nat);
        }
    } else {
        lemma_inner_prod_append(a1, b1, a2.drop_last(), b2.drop_last());
        assert((a1 + a2).drop_last() =~= a1 + a2.drop_last());
        assert((b1 + b2).drop_last() =~= b1 + b2.drop_last());
        assert((a1 + a2).last() == a2.last());
        assert((b1 + b2).last() == b2.last());
        lemma_fadd_assoc(
            inner_prod(a1, b1),
            inner_prod(a2.drop_last(), b2.drop_last()),
            fmul(a2.last(), b2.last()),
        );
    }
}

/// The three-state accumulator of the bucket method: a bucket is
/// empty, holds the one affine point that landed in it, or holds an
/// accumulated projective sum. Keeping the first point affine defers
/// the costlier projective addition until a second point lands.
#[derive(Clone, Copy)]
pub enum Bucket {
    Empty,
    Affine(PtAffine),
    Projective(Pt),
}

impl Bucket {
    /// The residue a bucket holds.
    pub open spec fn bval(self) -> int {
        match self {
            Bucket::Empty => 0,
            Bucket::Affine(a) => a@,
            Bucket::Projective(p) => p@,
        }
    }

    /// The transition when a base lands in the bucket.
    pub fn add_assign(&mut self, other: &PtAffine)
        ensures
            final(self).bval() == fadd(old(self).bval(), other@),
            0 <= final(self).bval() < P,
    {
        let ov = other.as_u64();
        proof {
            lemma_small_mod(ov as nat, P as nat);
        }
        *self = match *self {
            Bucket::Empty => Bucket::Affine(*other),
            Bucket::Affine(a) => {
                proof {
                    crate::field::lemma_fadd_comm(a@, other@);
                }
                Bucket::Projective(a.add(*other))
            },
            Bucket::Projective(p) => Bucket::Projective(p.add_affine(*other)),
        };
        proof {
            if (*old(self)) is Empty {
                assert(fadd(0, other@) == other@);
            }
        }
    }

    /// Folds the bucket into a running projective sum.
    pub fn add(self, other: Pt) -> (r: Pt)
        ensures
            r@ == fadd(self.bval(), other@),
            0 <= r@ < P,
    {
        match self {
            Bucket::Empty => {
                let ov = other.as_u64();
                proof {
                    lemma_small_mod(ov as nat, P as nat);
                }
                other
            },
            Bucket::Affine(a) => other.add_affine(a),
            Bucket::Projective(p) => {
                proof {
                    crate::field::lemma_fadd_comm(p@, other@);
                }
                other.add(p)
            },
        }
    }
}

/// The residues held by a bucket vector.
pub open spec fn bviews(s: Seq<Bucket>) -> Seq<int> {
    s.map_values(|b: Bucket| b.bval())
}

/// Two to the given power, as a machine word.
fn pow2u(e: u32) -> (r: u64)
    requires
        e <= 63,
    ensures
        r as int == pow2(e as nat),
        r >= 1,
{
    proof {
        vstd::arithmetic::power2::lemma2_to64();
        vstd::arithmetic::power2::lemma2_to64_rest();
    }
    let mut r: u64 = 1;
    let mut j: u32 = 0;
    while j < e
        invariant
            j <= e <= 63,
            r as int == pow2(j as nat),
        decreases e - j,
    {
        proof {
            lemma_pow2_unfold((j + 1) as nat);
            if j + 1 < 63 {
                lemma_pow2_strictly_increases((j + 1) as nat, 63nat);
            }
            vstd::arithmetic::power2::lemma2_to64_rest();
        }
        r = r * 2;
        j = j + 1;
    }
    r
}

/// Extracts the `c`-bit digit of window `segment` from a two-byte
/// little-endian scalar encoding: bits `segment * c` and up, masked
/// to `c` bits.
fn get_at(segment: usize, c: usize, bytes: &Vec<u8>) -> (d: usize)
    requires
        bytes@.len() == 2,
        1 <= c <= 9,
        segment <= 16,
    ensures
        d as int == (repr_val(bytes@) / (pow2((segment * c) as nat) as int)) % (pow2(
            c as nat,
        ) as int),
        d < pow2(c as nat),
{
    let v: u64 = bytes[0] as u64 + 256 * (bytes[1] as u64);
    proof {
        assert(segment * c <= 16 * 9) by (nonlinear_arith)
            requires
                segment <= 16,
                c <= 9,
        ;
    }
    let skip_bits = segment * c;
    proof {
        vstd::arithmetic::power2::lemma2_to64();
        lemma_pow2_pos(c as nat);
        lemma_pow2_pos((segment * c) as nat);
    }
    if skip_bits >= 16 {
        proof {
            lemma_pow2_strictly_increases(16nat, (skip_bits + 1) as nat);
            if skip_bits > 16 {
                lemma_pow2_strictly_increases(16nat, skip_bits as nat);
            }
            assert(v < pow2(skip_bits as nat));
            assert(v as int / (pow2(skip_bits as nat) as int) == 0) by {
                vstd::arithmetic::div_mod::lemma_basic_div(
                    v as int,
                    pow2(skip_bits as nat) as int,
                );
            }
            lemma_small_mod(0nat, pow2(c as nat));
        }
        0
    } else {
        let divisor = pow2u(skip_bits as u32);
        let m = pow2u(c as u32);
        let d = ((v / divisor) % m) as usize;
        proof {
            lemma_mod_bound((v / divisor) as int, m as int);
        }
        d
    }
}

/// The adaptive window width: one bit below four bases, three below
/// thirty-two, then the integer value of `ceil(ln n)` (rendered as
/// fixed thresholds), capped at the scalar width.
fn window_width(n: usize) -> (c: usize)
    ensures
        1 <= c <= 9,
{
    if n < 4 {
        1
    } else if n < 32 {
        3
    } else if n <= 54 {
        4
    } else if n <= 148 {
        5
    } else if n <= 403 {
        6
    } else if n <= 1096 {
        7
    } else if n <= 2980 {
        8
    } else {
        9
    }
}

/// The byte encodings of all the scalars, with the carried values
/// pinned to the scalars.
fn collect_reprs(coeffs: &Vec<Fp>) -> (reprs: Vec<Vec<u8>>)
    ensures
        reprs@.len() == coeffs@.len(),
        forall|i: int|
            0 <= i < coeffs@.len() ==> (#[trigger] reprs@[i])@.len() == 2 && repr_val(reprs@[i]@)
                == coeffs@[i]@,
{
    let mut reprs: Vec<Vec<u8>> = Vec::new();
    let mut i: usize = 0;
    while i < coeffs.len()
        invariant
            i <= coeffs@.len(),
            reprs@.len() == i,
            forall|j: int|
                0 <= j < i ==> (#[trigger] reprs@[j])@.len() == 2 && repr_val(reprs@[j]@)
                    == coeffs@[j]@,
        decreases coeffs@.len() - i,
    {
        let r = coeffs[i].to_repr();
        proof {
            lemma_fundamental_div_mod(coeffs@[i as int]@, 256);
        }
        reprs.push(r);
        i = i + 1;
    }
    reprs
}

/// Computes `sum coeffs[i] * bases[i]` into `acc` by the windowed
/// bucket method: for each digit window, from the most significant
/// down, the accumulator is doubled once per window bit, every base
/// with a nonzero digit lands in the digit's bucket, and the buckets
/// are folded by summation by parts.
pub fn multiexp_serial(coeffs: &Vec<Fp>, bases: &Vec<PtAffine>, acc: &mut Pt)
    requires
        coeffs@.len() == bases@.len(),
        old(acc)@ == 0,
    ensures
        final(acc)@ == inner_prod(fviews(coeffs@), aviews(bases@)),
        0 <= final(acc)@ < P,
{
    let n = coeffs.len();
    let _rc = crate::field::all_reduced(coeffs);
    let _rb = crate::group::all_reduced_affine(bases);
    let ghost cv = fviews(coeffs@);
    let ghost bv = aviews(bases@);
    let reprs = collect_reprs(coeffs);
    let c = window_width(bases.len());
    let segments = (NUM_BITS as usize) / c + 1;
    let mut cur = Pt::identity();
    let mut s = segments;
    proof {
        assert(c * segments >= 10) by (nonlinear_arith)
            requires
                1 <= c <= 9,
                segments == 9int / (c as int) + 1,
        ;
        assert forall|i: int| 0 <= i < cv.len() implies 0 <= #[trigger] cv[i] < pow2(
            (c * segments) as nat,
        ) by {
            vstd::arithmetic::power2::lemma2_to64();
            if (c * segments) as nat > 10 {
                lemma_pow2_strictly_increases(10nat, (c * segments) as nat);
            }
        }
        lemma_shifted_msm_all_zero(cv, bv, (c * segments) as nat);
    }
    while s > 0
        invariant
            n == coeffs@.len(),
            coeffs@.len() == bases@.len(),
            cv == fviews(coeffs@),
            bv == aviews(bases@),
            forall|i: int| 0 <= i < cv.len() ==> 0 <= #[trigger] cv[i] < P,
            forall|i: int| 0 <= i < bv.len() ==> 0 <= #[trigger] bv[i] < P,
            reprs@.len() == n,
            forall|j: int|
                0 <= j < n ==> (#[trigger] reprs@[j])@.len() == 2 && repr_val(reprs@[j]@)
                    == cv[j],
            1 <= c <= 9,
            segments == 9int / (c as int) + 1,
            s <= segments,
            cur@ == shifted_msm(cv, bv, (c * s) as nat),
            0 <= cur@ < P,
        decreases s,
    {
        s = s - 1;
        proof {
            assert(c * (s + 1) == c * s + c) by (nonlinear_arith);
            assert(s * c == c * s) by (nonlinear_arith);
            assert(s <= 9int / (c as int) < 16);
        }
        let ghost before = cur@;
        proof {
            vstd::arithmetic::power::lemma_pow0(2);
            lemma_small_mod(1nat, P as nat);
            assert(before * 1 == before);
            lemma_small_mod(before as nat, P as nat);
        }
        let mut j: usize = 0;
        while j < c
            invariant
                j <= c <= 9,
                0 <= cur@ < P,
                cur@ == fmul(before, fpow(2, j as nat)),
            decreases c - j,
        {
            proof {
                lemma_double_step(before, cur@, j as nat);
            }
            cur = cur.double();
            j = j + 1;
        }
        // buckets, one per nonzero digit value
        let m = pow2u(c as u32);
        proof {
            vstd::arithmetic::power2::lemma2_to64();
            if (c as nat) < 9 {
                lemma_pow2_strictly_increases(c as nat, 9nat);
            }
            assert(m <= 512);
        }
        let nbuckets = (m - 1) as usize;
        let mut buckets: Vec<Bucket> = Vec::new();
        let mut f: usize = 0;
        while f < nbuckets
            invariant
                f <= nbuckets,
                buckets@.len() == f,
                forall|t: int| 0 <= t < f ==> (#[trigger] buckets@[t]).bval() == 0,
            decreases nbuckets - f,
        {
            buckets.push(Bucket::Empty);
            f = f + 1;
        }
        proof {
            assert forall|t: int| 0 <= t < bviews(buckets@).len() implies #[trigger] bviews(
                buckets@,
            )[t] == 0 by {
                assert(buckets@[t].bval() == 0);
            }
            lemma_suffix_zero(bviews(buckets@), 0);
            assert(cv.take(0) =~= Seq::<int>::empty());
            assert(bv.take(0) =~= Seq::<int>::empty());
        }
        let mut i: usize = 0;
        while i < n
            invariant
                n == coeffs@.len(),
                coeffs@.len() == bases@.len(),
                cv == fviews(coeffs@),
                bv == aviews(bases@),
                forall|ii: int| 0 <= ii < cv.len() ==> 0 <= #[trigger] cv[ii] < P,
                forall|ii: int| 0 <= ii < bv.len() ==> 0 <= #[trigger] bv[ii] < P,
                reprs@.len() == n,
                forall|jj: int|
                    0 <= jj < n ==> (#[trigger] reprs@[jj])@.len() == 2 && repr_val(reprs@[jj]@)
                        == cv[jj],
                1 <= c <= 9,
                s < segments,
                segments == 9int / (c as int) + 1,
                i <= n,
                buckets@.len() == nbuckets,
                nbuckets + 1 == pow2(c as nat),
                suffix_weighted(bviews(buckets@), 0) == digit_msm(
                    cv.take(i as int),
                    bv.take(i as int),
                    (c * s) as nat,
                    c as nat,
                ),
            decreases n - i,
        {
            proof {
                assert(s * c == c * s) by (nonlinear_arith);
                assert(s <= 9int / (c as int) < 16);
            }
            let digit = get_at(s, c, &reprs[i]);
            let ghost bvw = bviews(buckets@);
            let ghost dig = (cv[i as int] / (pow2((c * s) as nat) as int)) % (pow2(
                c as nat,
            ) as int);
            proof {
                assert(cv.take(i + 1).drop_last() =~= cv.take(i as int));
                assert(bv.take(i + 1).drop_last() =~= bv.take(i as int));
                assert(cv.take(i + 1).last() == cv[i as int]);
                assert(bv.take(i + 1).last() == bv[i as int]);
                lemma_digit_msm_bound(cv.take(i as int), bv.take(i as int), (c * s) as nat,
                    c as nat);
            }
            if digit != 0 {
                let mut bk = buckets[digit - 1];
                bk.add_assign(&bases[i]);
                buckets.set(digit - 1, bk);
                proof {
                    assert(bviews(buckets@) =~= bvw.update(
                        digit - 1,
                        fadd(bvw[digit - 1], bv[i as int]),
                    ));
                    lemma_suffix_weighted_update(bvw, 0, digit - 1, bv[i as int]);
                    assert(digit - 1 - 0 + 1 == dig);
                }
            } else {
                proof {
                    assert(fmul(0, bv[i as int]) == 0) by {
                        lemma_small_mod(0nat, P as nat);
                    }
                    lemma_small_mod(
                        digit_msm(
                            cv.take(i as int),
                            bv.take(i as int),
                            (c * s) as nat,
                            c as nat,
                        ) as nat,
                        P as nat,
                    );
                }
            }
            i = i + 1;
        }
        // summation by parts
        let mut running = Pt::identity();
        let mut t = nbuckets;
        let ghost doubled = cur@;
        let ghost bvw = bviews(buckets@);
        proof {
            assert(cv.take(n as int) =~= cv);
            assert(bv.take(n as int) =~= bv);
            lemma_small_mod(doubled as nat, P as nat);
        }
        while t > 0
            invariant
                buckets@.len() == nbuckets,
                bvw == bviews(buckets@),
                t <= nbuckets,
                running@ == suffix_sum(bvw, t as int),
                0 <= running@ < P,
                cur@ == fadd(doubled, suffix_weighted(bvw, t as int)),
                0 <= cur@ < P,
                0 <= doubled < P,
            decreases t,
        {
            t = t - 1;
            let bk = buckets[t];
            running = bk.add(running);
            proof {
                lemma_fadd_assoc(doubled, suffix_weighted(bvw, t as int + 1), suffix_sum(
                    bvw,
                    t as int,
                ));
                assert(fadd(suffix_weighted(bvw, t as int + 1), suffix_sum(bvw, t as int)) == fadd(
                    suffix_sum(bvw, t as int),
                    suffix_weighted(bvw, t as int + 1),
                ));
            }
            cur = cur.add(running);
        }
        proof {
            if nbuckets == 0 {
                // a one-bit window has a single bucket index, zero
                assert(bvw.len() == 0);
                assert(suffix_weighted(bvw, 0) == 0);
            }
            assert(cur@ == fadd(doubled, digit_msm(cv, bv, (c * s) as nat, c as nat)));
            lemma_window_split(cv, bv, (c * s) as nat, c as nat);
            assert(doubled == fmul(shifted_msm(cv, bv, (c * s + c) as nat), fpow(2, c as nat)));
        }
    }
    proof {
        assert(c * 0 == 0) by (nonlinear_arith);
        lemma_shifted_msm_zero_shift(cv, bv);
    }
    *acc = cur;
}

/// Performs a small multi-exponentiation operation.
///
/// Uses the double-and-add algorithm with doublings shared across
/// points, walking the byte encodings bit by bit from the most
/// significant end: intended for tiny inputs or cross-checking, and
/// it agrees with the bucketed method on every input.
pub fn small_multiexp(coeffs: &Vec<Fp>, bases: &Vec<PtAffine>) -> (r: Pt)
    requires
        coeffs@.len() == bases@.len(),
    ensures
        r@ == inner_prod(fviews(coeffs@), aviews(bases@)),
        0 <= r@ < P,
{
    let n = coeffs.len();
    let _rc = crate::field::all_reduced(coeffs);
    let _rb = crate::group::all_reduced_affine(bases);
    let ghost cv = fviews(coeffs@);
    let ghost bv = aviews(bases@);
    let reprs = collect_reprs(coeffs);
    let mut acc = Pt::identity();
    let mut sh: usize = 16;
    proof {
        assert forall|i: int| 0 <= i < cv.len() implies 0 <= #[trigger] cv[i] < pow2(16) by {
            vstd::arithmetic::power2::lemma2_to64();
        }
        lemma_shifted_msm_all_zero(cv, bv, 16nat);
    }
    while sh > 0
        invariant
            n == coeffs@.len(),
            coeffs@.len() == bases@.len(),
            cv == fviews(coeffs@),
            bv == aviews(bases@),
            forall|i: int| 0 <= i < cv.len() ==> 0 <= #[trigger] cv[i] < P,
            forall|i: int| 0 <= i < bv.len() ==> 0 <= #[trigger] bv[i] < P,
            reprs@.len() == n,
            forall|j: int|
                0 <= j < n ==> (#[trigger] reprs@[j])@.len() == 2 && repr_val(reprs@[j]@)
                    == cv[j],
            sh <= 16,
            acc@ == shifted_msm(cv, bv, sh as nat),
            0 <= acc@ < P,
        decreases sh,
    {
        sh = sh - 1;
        proof {
            vstd::arithmetic::power::lemma_pow0(2);
            lemma_small_mod(1nat, P as nat);
            assert(shifted_msm(cv, bv, (sh + 1) as nat) * 1 == shifted_msm(
                cv,
                bv,
                (sh + 1) as nat,
            ));
            lemma_small_mod(acc@ as nat, P as nat);
            lemma_double_step(shifted_msm(cv, bv, (sh + 1) as nat), acc@, 0nat);
        }
        acc = acc.double();
        let ghost doubled = acc@;
        proof {
            assert(cv.take(0) =~= Seq::<int>::empty());
            assert(bv.take(0) =~= Seq::<int>::empty());
            lemma_small_mod(doubled as nat, P as nat);
        }
        let mut i: usize = 0;
        while i < n
            invariant
                n == coeffs@.len(),
                coeffs@.len() == bases@.len(),
                cv == fviews(coeffs@),
                bv == aviews(bases@),
                forall|ii: int| 0 <= ii < cv.len() ==> 0 <= #[trigger] cv[ii] < P,
                forall|ii: int| 0 <= ii < bv.len() ==> 0 <= #[trigger] bv[ii] < P,
                reprs@.len() == n,
                forall|jj: int|
                    0 <= jj < n ==> (#[trigger] reprs@[jj])@.len() == 2 && repr_val(reprs@[jj]@)
                        == cv[jj],
                sh <= 16,
                i <= n,
                0 <= doubled < P,
                acc@ == fadd(doubled, digit_msm(cv.take(i as int), bv.take(i as int), sh as nat, 1nat)),
                0 <= acc@ < P,
            decreases n - i,
        {
            let bit = get_at(sh, 1, &reprs[i]);
            let ghost dig = (cv[i as int] / (pow2(sh as nat) as int)) % (pow2(1nat) as int);
            proof {
                assert(cv.take(i + 1).drop_last() =~= cv.take(i as int));
                assert(bv.take(i + 1).drop_last() =~= bv.take(i as int));
                assert(cv.take(i + 1).last() == cv[i as int]);
                assert(bv.take(i + 1).last() == bv[i as int]);
                lemma_digit_msm_bound(cv.take(i as int), bv.take(i as int), sh as nat, 1nat);
            }
            if bit != 0 {
                proof {
                    assert(pow2(1nat) == 2) by {
                        vstd::arithmetic::power2::lemma2_to64();
                    }
                    assert(dig == 1);
                    assert(fmul(1, bv[i as int]) == bv[i as int]) by {
                        assert(1 * bv[i as int] == bv[i as int]);
                        lemma_small_mod(bv[i as int] as nat, P as nat);
                    }
                    lemma_fadd_assoc(
                        doubled,
                        digit_msm(cv.take(i as int), bv.take(i as int), sh as nat, 1nat),
                        bv[i as int],
                    );
                }
                acc = acc.add_affine(bases[i]);
            } else {
                proof {
                    assert(fmul(0, bv[i as int]) == 0) by {
                        lemma_small_mod(0nat, P as nat);
                    }
                    lemma_small_mod(
                        digit_msm(cv.take(i as int), bv.take(i as int), sh as nat, 1nat) as nat,
                        P as nat,
                    );
                }
            }
            i = i + 1;
        }
        proof {
            assert(cv.take(n as int) =~= cv);
            assert(bv.take(n as int) =~= bv);
            lemma_window_split(cv, bv, sh as nat, 1nat);
            assert(fpow(2, 1nat) == 2int % (P as int)) by {
                vstd::arithmetic::power::lemma_pow1(2);
            }
            assert(doubled == fmul(shifted_msm(cv, bv, (sh + 1) as nat), fpow(2, 1nat))) by {
                lemma_fmul_noop(shifted_msm(cv, bv, (sh + 1) as nat), 2);
            }
        }
    }
    proof {
        lemma_shifted_msm_zero_shift(cv, bv);
    }
    acc
}

/// Performs a multi-exponentiation operation on the CPU.
///
/// The coefficients and bases must have the same length.
///
/// With more points than workers, the input is split into one
/// contiguous chunk per worker (the last chunk absorbing the
/// remainder), each chunk is reduced by `multiexp_serial`, and the
/// per-chunk sums are folded with group addition.
pub fn cpu_multiexp(coeffs: &Vec<Fp>, bases: &Vec<PtAffine>, threads: usize) -> (r: Pt)
    requires
        coeffs@.len() == bases@.len(),
        threads >= 1,
    ensures
        r@ == inner_prod(fviews(coeffs@), aviews(bases@)),
        0 <= r@ < P,
{
    let n = coeffs.len();
    let ghost cv = fviews(coeffs@);
    let ghost bv = aviews(bases@);
    if n > threads {
        let chunk = n / threads;
        proof {
            vstd::arithmetic::div_mod::lemma_div_non_zero(n as int, threads as int);
            assert(cv.take(0) =~= Seq::<int>::empty());
            assert(bv.take(0) =~= Seq::<int>::empty());
        }
        let mut result = Pt::identity();
        let mut start: usize = 0;
        while start < n
            invariant
                n == coeffs@.len(),
                coeffs@.len() == bases@.len(),
                cv == fviews(coeffs@),
                bv == aviews(bases@),
                chunk >= 1,
                start <= n,
                result@ == inner_prod(cv.take(start as int), bv.take(start as int)),
                0 <= result@ < P,
            decreases n - start,
        {
            let len = if n - start < chunk {
                n - start
            } else {
                chunk
            };
            let mut cc: Vec<Fp> = Vec::new();
            let mut bb: Vec<PtAffine> = Vec::new();
            let mut i: usize = 0;
            while i < len
                invariant
                    n == coeffs@.len(),
                    coeffs@.len() == bases@.len(),
                    start + len <= n,
                    i <= len,
                    cc@.len() == i,
                    bb@.len() == i,
                    forall|ii: int| 0 <= ii < i ==> cc@[ii] == coeffs@[start + ii],
                    forall|ii: int| 0 <= ii < i ==> bb@[ii] == bases@[start + ii],
                decreases len - i,
            {
                cc.push(coeffs[start + i]);
                bb.push(bases[start + i]);
                i = i + 1;
            }
            let mut part = Pt::identity();
            multiexp_serial(&cc, &bb, &mut part);
            let next = result.add(part);
            proof {
                let pre_c = cv.take(start as int);
                let pre_b = bv.take(start as int);
                let mid_c = cv.subrange(start as int, start as int + len as int);
                let mid_b = bv.subrange(start as int, start as int + len as int);
                assert(fviews(cc@) =~= mid_c);
                assert(aviews(bb@) =~= mid_b);
                assert(pre_c + mid_c =~= cv.take(start as int + len as int));
                assert(pre_b + mid_b =~= bv.take(start as int + len as int));
                lemma_inner_prod_append(pre_c, pre_b, mid_c, mid_b);
            }
            result = next;
            start = start + len;
        }
        proof {
            assert(cv.take(n as int) =~= cv);
            assert(bv.take(n as int) =~= bv);
        }
        result
    } else {
        let mut acc = Pt::identity();
        multiexp_serial(coeffs, bases, &mut acc);
        acc
    }
}

/// Performs a multi-exponentiation operation.
///
/// The coefficients and bases must have the same length. The CPU
/// bucket method is the one strategy of this core; accelerator
/// backends are outside collaborators behind the same contract.
pub fn best_multiexp(coeffs: &Vec<Fp>, bases: &Vec<PtAffine>, threads: usize) -> (r: Pt)
    requires
        coeffs@.len() == bases@.len(),
        threads >= 1,
    ensures
        r@ == inner_prod(fviews(coeffs@), aviews(bases@)),
        0 <= r@ < P,
{
    cpu_multiexp(coeffs, bases, threads)
}

/// One doubling: the running value picks up one more factor of two.
proof fn lemma_double_step(base: int, cur: int, j: nat)
    requires
        cur == fmul(base, fpow(2, j)),
    ensures
        fadd(cur, cur) == fmul(base, fpow(2, j + 1)),
{
    let p = P as int;
    assert(fadd(cur, cur) == fmul(cur, 2)) by {
        assert(cur + cur == cur * 2);
    }
    crate::field::lemma_fmul_assoc(base, fpow(2, j), 2);
    assert(fmul(fpow(2, j), 2) == fpow(2, j + 1)) by {
        crate::field::lemma_pow_unfold_top(2, j);
    }
    lemma_fmul_noop(base * fpow(2, j), 2);
    assert(fmul(fmul(base, fpow(2, j)), 2) == fmul(base, fmul(fpow(2, j), 2)));
}

} // verus!
