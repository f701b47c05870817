//! The radix-2 decimation-in-time Fourier transform over any
//! `FftGroup`: bit-reversal permutation, twiddle precomputation, and
//! two strategies for the butterfly layers — a layer-by-layer
//! iterative pass when the problem is shallow relative to the
//! available parallelism, and a recursive divide-and-conquer pass
//! otherwise. Both compute exactly the same sequence, stated by the
//! shared specification `fft_of`.

use vstd::prelude::*;
use vstd::arithmetic::power2::pow2;
use vstd::arithmetic::power2::lemma_pow2_unfold;
use vstd::arithmetic::power2::lemma_pow2_pos;
use vstd::arithmetic::power2::lemma_pow2_strictly_increases;
use vstd::arithmetic::div_mod::lemma_small_mod;
use vstd::arithmetic::div_mod::lemma_mod_mod;
use vstd::arithmetic::div_mod::lemma_breakdown;
use vstd::arithmetic::div_mod::lemma_div_denominator;
use vstd::arithmetic::div_mod::lemma_mod_multiples_vanish;
use vstd::arithmetic::div_mod::lemma_div_multiples_vanish;
use crate::field::Fp;
use crate::field::P;
use crate::field::fadd;
use crate::field::fsub;
use crate::field::fneg;
use crate::field::fmul;
use crate::field::fpow;
use crate::group::FftGroup;

verus! {

/// The residues modelled by a sequence of group elements.
pub open spec fn gviews<G: FftGroup>(s: Seq<G>) -> Seq<int> {
    s.map_values(|x: G| x.gv())
}

/// The reversal of the low `l` bits of `k`: the lowest bit becomes
/// the highest of the `l`-bit result.
pub open spec fn brev(l: nat, k: int) -> int
    decreases l,
{
    if l == 0 {
        0
    } else {
        (k % 2) * pow2((l - 1) as nat) + brev((l - 1) as nat, k / 2)
    }
}

/// Bit reversal lands inside the `l`-bit range.
pub proof fn lemma_brev_bound(l: nat, k: int)
    requires
        k >= 0,
    ensures
        0 <= brev(l, k) < pow2(l),
    decreases l,
{
    if l == 0 {
        assert(pow2(0) == 1) by {
            vstd::arithmetic::power2::lemma2_to64();
        }
    } else {
        lemma_brev_bound((l - 1) as nat, k / 2);
        lemma_pow2_unfold(l);
        lemma_pow2_pos((l - 1) as nat);
        assert((k % 2) * pow2((l - 1) as nat) <= pow2((l - 1) as nat)) by (nonlinear_arith)
            requires
                0 <= k % 2 <= 1,
                pow2((l - 1) as nat) >= 0,
        ;
        assert((k % 2) * pow2((l - 1) as nat) >= 0) by (nonlinear_arith)
            requires
                0 <= k % 2,
                pow2((l - 1) as nat) >= 0,
        ;
    }
}

/// Appending one more bit to the reversal: the bit at position `l`
/// of `k` becomes the lowest bit of the longer reversal.
proof fn lemma_brev_step(l: nat, k: int)
    requires
        k >= 0,
    ensures
        brev(l + 1, k) == 2 * brev(l, k) + (k / (pow2(l) as int)) % 2,
    decreases l,
{
    if l == 0 {
        assert(pow2(0) == 1) by {
            vstd::arithmetic::power2::lemma2_to64();
        }
        vstd::arithmetic::div_mod::lemma_div_basics(k);
        assert(brev(0, k / 2) == 0);
        assert(brev(0, k) == 0);
        assert(brev(1, k) == (k % 2) * (pow2(0) as int) + brev(0, k / 2));
    } else {
        lemma_brev_step((l - 1) as nat, k / 2);
        lemma_pow2_unfold(l);
        lemma_pow2_pos((l - 1) as nat);
        assert(k / 2 / (pow2((l - 1) as nat) as int) == k / (pow2(l) as int)) by {
            lemma_div_denominator(k, 2, pow2((l - 1) as nat) as int);
        }
        assert((k % 2) * (pow2(l) as int) == 2 * ((k % 2) * (pow2((l - 1) as nat) as int))) by (
        nonlinear_arith)
            requires
                pow2(l) as int == 2 * (pow2((l - 1) as nat) as int),
        ;
    }
}

/// Peeling the top bit instead: the bit at position `l - 1` of `k`
/// is the lowest bit of the reversal.
proof fn lemma_brev_top(l: nat, k: int)
    requires
        l >= 1,
        0 <= k < pow2(l),
    ensures
        brev(l, k) == 2 * brev((l - 1) as nat, k % (pow2((l - 1) as nat) as int)) + k / (pow2(
            (l - 1) as nat,
        ) as int),
    decreases l,
{
    let m = pow2((l - 1) as nat) as int;
    lemma_pow2_pos((l - 1) as nat);
    if l == 1 {
        assert(pow2(0) == 1 && pow2(1) == 2) by {
            vstd::arithmetic::power2::lemma2_to64();
        }
        assert(k % 1 == 0);
        assert(k / 1 == k);
        assert(k % 2 == k) by {
            lemma_small_mod(k as nat, 2nat);
        }
    } else {
        let m2 = pow2((l - 2) as nat) as int;
        lemma_pow2_pos((l - 2) as nat);
        lemma_pow2_unfold(l);
        lemma_pow2_unfold((l - 1) as nat);
        lemma_brev_top((l - 1) as nat, k / 2);
        assert(k / 2 < m) by {
            lemma_div_denominator(k, 2, m);
            assert(k / (pow2(l) as int) == 0) by {
                vstd::arithmetic::div_mod::lemma_basic_div(k, pow2(l) as int);
            }
            assert(k / 2 / m == k / (2 * m)) by {
                lemma_div_denominator(k, 2, m);
            }
            vstd::arithmetic::div_mod::lemma_div_pos_is_pos(k / 2, m);
            if k / 2 >= m {
                vstd::arithmetic::div_mod::lemma_div_non_zero(k / 2, m);
            }
        }
        // (k % m) % 2 == k % 2
        assert((k % m) % 2 == k % 2) by {
            lemma_mod_mod(k, 2, m2);
        }
        // (k % m) / 2 == (k / 2) % m2
        assert((k % m) / 2 == (k / 2) % m2) by {
            lemma_breakdown(k, 2, m2);
            vstd::arithmetic::div_mod::lemma_fundamental_div_mod(k % m, 2);
            assert(k % m == 2 * ((k / 2) % m2) + k % 2);
            vstd::arithmetic::div_mod::lemma_fundamental_div_mod_converse_div(
                k % m,
                2,
                (k / 2) % m2,
                k % 2,
            );
        }
        // k / m == (k / 2) / m2
        assert(k / m == (k / 2) / m2) by {
            lemma_div_denominator(k, 2, m2);
        }
        assert((k % 2) * (2 * m2) == 2 * ((k % 2) * m2)) by (nonlinear_arith);
    }
}

/// Bit reversal is an involution on the `l`-bit range.
pub proof fn lemma_brev_involution(l: nat, k: int)
    requires
        0 <= k < pow2(l),
    ensures
        brev(l, brev(l, k)) == k,
    decreases l,
{
    if l == 0 {
        assert(pow2(0) == 1) by {
            vstd::arithmetic::power2::lemma2_to64();
        }
    } else {
        let m = pow2((l - 1) as nat) as int;
        lemma_pow2_pos((l - 1) as nat);
        lemma_pow2_unfold(l);
        let b0 = k % 2;
        let t = brev((l - 1) as nat, k / 2);
        lemma_brev_bound((l - 1) as nat, k / 2);
        assert(brev(l, k) == b0 * m + t);
        assert(0 <= b0 * m + t < pow2(l)) by (nonlinear_arith)
            requires
                0 <= b0 <= 1,
                0 <= t < m,
                pow2(l) == 2 * m,
        ;
        lemma_brev_top(l, b0 * m + t);
        assert((b0 * m + t) % m == t) by {
            vstd::arithmetic::mul::lemma_mul_is_commutative(b0, m);
            lemma_mod_multiples_vanish(b0, t, m);
            lemma_small_mod(t as nat, m as nat);
        }
        assert((b0 * m + t) / m == b0) by {
            lemma_div_multiples_vanish(b0, m);
            vstd::arithmetic::div_mod::lemma_hoist_over_denominator(t, b0, m as nat);
            assert(t / m == 0) by {
                vstd::arithmetic::div_mod::lemma_basic_div(t, m);
            }
        }
        assert(k / 2 < m) by {
            lemma_div_denominator(k, 2, m);
            assert(k / (2 * m) == 0) by {
                vstd::arithmetic::div_mod::lemma_basic_div(k, 2 * m);
            }
        }
        lemma_brev_involution((l - 1) as nat, k / 2);
        assert(brev(l, brev(l, k)) == 2 * (k / 2) + k % 2);
        vstd::arithmetic::div_mod::lemma_fundamental_div_mod(k, 2);
    }
}

/// The sequence reordered by bit reversal of its indices.
pub open spec fn bitrev_perm(s: Seq<int>, l: nat) -> Seq<int> {
    Seq::new(s.len(), |i: int| s[brev(l, i)])
}

/// Reverses the low `l` bits of `k`.
fn bitreverse(k: usize, l: u32) -> (r: usize)
    requires
        (k as int) < pow2(l as nat),
        pow2(l as nat) <= usize::MAX as int,
    ensures
        r as int == brev(l as nat, k as int),
        (r as int) < pow2(l as nat),
{
    let mut r: usize = 0;
    let mut kk: usize = k;
    let mut j: u32 = 0;
    proof {
        assert(pow2(0) == 1) by {
            vstd::arithmetic::power2::lemma2_to64();
        }
    }
    while j < l
        invariant
            j <= l,
            (k as int) < pow2(l as nat),
            pow2(l as nat) <= usize::MAX as int,
            r as int == brev(j as nat, k as int),
            (r as int) < pow2(j as nat),
            kk as int == k as int / (pow2(j as nat) as int),
        decreases l - j,
    {
        proof {
            lemma_brev_step(j as nat, k as int);
            lemma_brev_bound((j + 1) as nat, k as int);
            lemma_pow2_unfold((j + 1) as nat);
            if j + 1 < l {
                lemma_pow2_strictly_increases((j + 1) as nat, l as nat);
            }
            lemma_pow2_pos(j as nat);
            assert(kk as int % 2 == (k as int / (pow2(j as nat) as int)) % 2);
            assert(k as int / (pow2(j as nat) as int) / 2 == k as int / (pow2(
                (j + 1) as nat,
            ) as int)) by {
                lemma_div_denominator(k as int, pow2(j as nat) as int, 2);
            }
        }
        r = r * 2 + (kk % 2);
        kk = kk / 2;
        j = j + 1;
    }
    r
}

/// Reorders `a` in place by the bit-reversal permutation: every index
/// trades places with its `l`-bit reversal, each pair swapped once.
fn bitrev_shuffle<G: FftGroup>(a: &mut Vec<G>, l: u32)
    requires
        old(a)@.len() == pow2(l as nat),
        pow2(l as nat) <= usize::MAX as int,
    ensures
        final(a)@.len() == old(a)@.len(),
        forall|i: int|
            0 <= i < old(a)@.len() ==> (#[trigger] final(a)@[i]).gv() == old(a)@[brev(
                l as nat,
                i,
            )].gv(),
{
    let ghost orig = a@;
    let n = a.len();
    proof {
        assert forall|i: int| 0 <= i < n implies brev(l as nat, i) >= 0 by {
            lemma_brev_bound(l as nat, i);
        }
    }
    let mut k: usize = 0;
    while k < n
        invariant
            n == orig.len(),
            a@.len() == n,
            n == pow2(l as nat),
            pow2(l as nat) <= usize::MAX as int,
            k <= n,
            forall|i: int|
                0 <= i < n ==> #[trigger] a@[i] == (if i < k || brev(l as nat, i) < k {
                    orig[brev(l as nat, i)]
                } else {
                    orig[i]
                }),
        decreases n - k,
    {
        proof {
            lemma_brev_bound(l as nat, k as int);
        }
        let rk = bitreverse(k, l);
        proof {
            lemma_brev_involution(l as nat, k as int);
        }
        if k < rk {
            let x = a[k];
            let y = a[rk];
            a.set(k, y);
            a.set(rk, x);
        }
        proof {
            assert forall|i: int| 0 <= i < n implies #[trigger] a@[i] == (if i < k + 1 || brev(
                l as nat,
                i,
            ) < k + 1 {
                orig[brev(l as nat, i)]
            } else {
                orig[i]
            }) by {
                lemma_brev_bound(l as nat, i);
                lemma_brev_involution(l as nat, i);
            }
        }
        k = k + 1;
    }
}

/// The butterfly combination of two transformed half-blocks `l` and
/// `r` with twiddle stride `tc`: entry `i` of the first half becomes
/// `l[i] + tw[i * tc] * r[i]` and entry `i` of the second half
/// becomes `l[i] - tw[i * tc] * r[i]`; the first pair uses twiddle
/// one and skips the multiplication.
pub open spec fn combine(l: Seq<int>, r: Seq<int>, tc: int, tw: Seq<int>) -> Seq<int> {
    Seq::new(
        l.len() + r.len(),
        |i: int|
            if i == 0 {
                fadd(l[0], r[0])
            } else if i < l.len() {
                fadd(l[i], fmul(r[i], tw[i * tc]))
            } else if i == l.len() {
                fsub(l[0], r[0])
            } else {
                fsub(l[i - l.len()], fmul(r[i - l.len()], tw[(i - l.len()) * tc]))
            },
    )
}

/// The radix-2 butterfly recursion: transform each half with the
/// doubled twiddle stride, then combine. A block shorter than two is
/// left as it is.
pub open spec fn butterfly(s: Seq<int>, tc: int, tw: Seq<int>) -> Seq<int>
    decreases s.len(),
{
    if s.len() < 2 {
        s
    } else {
        combine(
            butterfly(s.take(s.len() as int / 2), 2 * tc, tw),
            butterfly(s.skip(s.len() as int / 2), 2 * tc, tw),
            tc,
            tw,
        )
    }
}

/// What the whole transform computes: the butterfly recursion applied
/// to the bit-reversed input, with the twiddle table holding the
/// powers of `w`.
pub open spec fn fft_of(s: Seq<int>, l: nat, w: int) -> Seq<int> {
    butterfly(bitrev_perm(s, l), 1, pows_seq(w, (s.len() / 2) as nat))
}

/// The first `m` powers of `w`, reduced.
pub open spec fn pows_seq(w: int, m: nat) -> Seq<int> {
    Seq::new(m, |i: int| fpow(w, i as nat))
}

/// Applies one in-place butterfly combination to the block of length
/// `2 * half` starting at `start`, with twiddle stride `tc`.
#[verifier::rlimit(100)]
fn combine_block<G: FftGroup>(
    a: &mut Vec<G>,
    start: usize,
    half: usize,
    tc: usize,
    twiddles: &Vec<Fp>,
)
    requires
        half >= 1,
        start + 2 * half <= old(a)@.len(),
        (half as int - 1) * (tc as int) < twiddles@.len(),
    ensures
        final(a)@.len() == old(a)@.len(),
        gviews(final(a)@.subrange(start as int, start as int + 2 * half)) == combine(
            gviews(old(a)@.subrange(start as int, start as int + half)),
            gviews(old(a)@.subrange(start as int + half, start as int + 2 * half)),
            tc as int,
            crate::poly::views(twiddles@),
        ),
        forall|idx: int|
            ((0 <= idx < start) || (start + 2 * half <= idx < old(a)@.len())) ==> final(a)@[idx]
                == old(a)@[idx],
{
    let total = a.len();
    let twlen = twiddles.len();
    proof {
        assert(start + 2 * half <= total);
    }
    let ghost orig = a@;
    let ghost lv = gviews(orig.subrange(start as int, start as int + half));
    let ghost rv = gviews(orig.subrange(start as int + half, start as int + 2 * half));
    let ghost twv = crate::poly::views(twiddles@);
    let ghost cmb = combine(lv, rv, tc as int, twv);
    let t = a[start + half];
    let x = a[start];
    a.set(start, x.gadd(t));
    a.set(start + half, x.gsub(t));
    let mut i: usize = 1;
    while i < half
        invariant
            a@.len() == orig.len(),
            half >= 1,
            start + 2 * half <= orig.len(),
            (half as int - 1) * (tc as int) < twiddles@.len(),
            twv == crate::poly::views(twiddles@),
            lv == gviews(orig.subrange(start as int, start as int + half)),
            rv == gviews(orig.subrange(start as int + half, start as int + 2 * half)),
            cmb == combine(lv, rv, tc as int, twv),
            start + 2 * half <= total,
            twlen == twiddles@.len(),
            1 <= i <= half,
            forall|j: int|
                0 <= j < i ==> (#[trigger] a@[start + j]).gv() == cmb[j] && a@[start + half
                    + j].gv() == cmb[half + j],
            forall|j: int|
                i <= j < half ==> (#[trigger] a@[start + j]) == orig[start + j] && a@[start + half
                    + j] == orig[start + half + j],
            forall|idx: int|
                ((0 <= idx < start) || (start + 2 * half <= idx < orig.len())) ==> #[trigger] a@[idx]
                    == orig[idx],
        decreases half - i,
    {
        proof {
            assert((i as int) * (tc as int) <= (half as int - 1) * (tc as int)) by (
            nonlinear_arith)
                requires
                    i as int <= half as int - 1,
                    tc as int >= 0,
            ;
        }
        let ghost pre = a@;
        proof {
            assert forall|j: int| 0 <= j < i implies (#[trigger] pre[start + j]).gv() == cmb[j]
                && pre[start + half + j].gv() == cmb[half + j] by {
                assert(a@[start + j].gv() == cmb[j]);
            }
            assert forall|j: int| i <= j < half implies (#[trigger] pre[start + j]) == orig[start
                + j] && pre[start + half + j] == orig[start + half + j] by {
                assert(a@[start + j] == orig[start + j]);
            }
            assert forall|idx: int|
                ((0 <= idx < start) || (start + 2 * half <= idx < orig.len())) implies (
            #[trigger] pre[idx]) == orig[idx] by {
                assert(a@[idx] == orig[idx]);
            }
        }
        let t = a[start + half + i].gscale(twiddles[i * tc]);
        let x = a[start + i];
        a.set(start + i, x.gadd(t));
        a.set(start + half + i, x.gsub(t));
        proof {
            assert(lv[i as int] == orig[start + i].gv());
            assert(rv[i as int] == orig[start + half + i].gv());
            assert(twv[i as int * tc as int] == twiddles@[i as int * tc as int]@);
            assert(a@[start + i].gv() == cmb[i as int]);
            assert(a@[start + half + i].gv() == cmb[half + i]);
            assert forall|j: int| 0 <= j < i + 1 implies (#[trigger] a@[start + j]).gv() == cmb[j]
                && a@[start + half + j].gv() == cmb[half + j] by {
                if j < i {
                    assert(pre[start + j].gv() == cmb[j] && pre[start + half + j].gv() == cmb[half
                        + j]);
                    assert(start + j != start + i && start + j != start + half + i);
                    assert(start + half + j != start + i && start + half + j != start + half + i);
                    assert(a@[start + j] == pre[start + j]);
                    assert(a@[start + half + j] == pre[start + half + j]);
                }
            }
            assert forall|j: int| i + 1 <= j < half implies (#[trigger] a@[start + j])
                == orig[start + j] && a@[start + half + j] == orig[start + half + j] by {
                assert(pre[start + j] == orig[start + j]);
                assert(pre[start + half + j] == orig[start + half + j]);
                assert(start + j != start + i && start + j != start + half + i);
                assert(start + half + j != start + i && start + half + j != start + half + i);
                assert(a@[start + j] == pre[start + j]);
                assert(a@[start + half + j] == pre[start + half + j]);
            }
            assert forall|idx: int|
                ((0 <= idx < start) || (start + 2 * half <= idx < orig.len()))
                    implies #[trigger] a@[idx] == orig[idx] by {
                assert(pre[idx] == orig[idx]);
                assert(idx != start + i && idx != start + half + i);
                assert(a@[idx] == pre[idx]);
            }
        }
        i = i + 1;
    }
    proof {
        assert forall|idx: int| 0 <= idx < 2 * half implies gviews(
            a@.subrange(start as int, start as int + 2 * half),
        )[idx] == cmb[idx] by {
            if idx < half {
                assert(a@[start + idx].gv() == cmb[idx]);
            } else {
                let j = idx - half;
                assert(a@[start + j].gv() == cmb[j]);
                assert(a@[start + half + j].gv() == cmb[half + j]);
            }
        }
        assert(gviews(a@.subrange(start as int, start as int + 2 * half)) =~= cmb);
    }
}

/// Transforms `a` by the radix-2 butterfly recursion with twiddle
/// stride `twiddle_chunk`: the two halves are transformed with the
/// doubled stride through the two-way `join` primitive — they touch
/// disjoint data, so an embedding may run them on separate workers —
/// and the half-results are combined with one butterfly pass.
pub fn recursive_butterfly_arithmetic<G: FftGroup>(
    a: &mut Vec<G>,
    n: usize,
    twiddle_chunk: usize,
    twiddles: &Vec<Fp>,
)
    requires
        old(a)@.len() == n,
        n >= 2,
        vstd::arithmetic::power2::is_pow2(n as int),
        twiddle_chunk >= 1,
        (n as int) * (twiddle_chunk as int) <= 2 * twiddles@.len(),
    ensures
        final(a)@.len() == n,
        gviews(final(a)@) == butterfly(
            gviews(old(a)@),
            twiddle_chunk as int,
            crate::poly::views(twiddles@),
        ),
    decreases n,
{
    let ghost orig = a@;
    let ghost twv = crate::poly::views(twiddles@);
    if n == 2 {
        let t = a[1];
        let x = a[0];
        a.set(0, x.gadd(t));
        a.set(1, x.gsub(t));
        proof {
            let s = gviews(orig);
            assert(s.take(1).len() == 1);
            assert(butterfly(s.take(1), 2 * twiddle_chunk as int, twv) == s.take(1));
            assert(butterfly(s.skip(1), 2 * twiddle_chunk as int, twv) == s.skip(1));
            assert(s.take(1)[0] == s[0]);
            assert(s.skip(1)[0] == s[1]);
            assert(gviews(a@) =~= combine(s.take(1), s.skip(1), twiddle_chunk as int, twv));
        }
    } else {
        let half = n / 2;
        proof {
            reveal(vstd::arithmetic::power2::is_pow2);
            assert(n % 2 == 0 && vstd::arithmetic::power2::is_pow2(half as int));
            assert(half >= 2);
            assert((half as int) * (2 * twiddle_chunk as int) == (n as int) * (
            twiddle_chunk as int)) by (nonlinear_arith)
                requires
                    n as int == 2 * half as int,
            ;
            assert(2 * (twiddle_chunk as int) <= twiddles@.len()) by (nonlinear_arith)
                requires
                    (n as int) * (twiddle_chunk as int) <= 2 * twiddles@.len(),
                    n as int >= 4,
                    twiddle_chunk as int >= 1,
            ;
        }
        let twlen = twiddles.len();
        proof {
            assert(2 * (twiddle_chunk as int) <= twlen as int);
        }
        let mut left: Vec<G> = Vec::new();
        let mut i: usize = 0;
        while i < half
            invariant
                a@ == orig,
                n == orig.len(),
                half <= n,
                i <= half,
                left@ == orig.subrange(0, i as int),
            decreases half - i,
        {
            left.push(a[i]);
            proof {
                assert(left@ =~= orig.subrange(0, i as int + 1));
            }
            i = i + 1;
        }
        let mut right: Vec<G> = Vec::new();
        let mut i: usize = half;
        while i < n
            invariant
                a@ == orig,
                n == orig.len(),
                half <= i <= n,
                right@ == orig.subrange(half as int, i as int),
            decreases n - i,
        {
            right.push(a[i]);
            proof {
                assert(right@ =~= orig.subrange(half as int, i as int + 1));
            }
            i = i + 1;
        }
        let ghost left_bf = butterfly(gviews(left@), 2 * twiddle_chunk as int, twv);
        let ghost right_bf = butterfly(gviews(right@), 2 * twiddle_chunk as int, twv);
        let lgo = (move || -> (out: Vec<G>)
            ensures
                out@.len() == half,
                gviews(out@) == left_bf,
            {
                let mut l = left;
                recursive_butterfly_arithmetic(&mut l, half, 2 * twiddle_chunk, twiddles);
                l
            });
        let rgo = (move || -> (out: Vec<G>)
            ensures
                out@.len() == half,
                gviews(out@) == right_bf,
            {
                let mut r = right;
                recursive_butterfly_arithmetic(&mut r, half, 2 * twiddle_chunk, twiddles);
                r
            });
        let (lres, rres) = crate::distributor::join(lgo, rgo);
        let left = lres;
        let right = rres;
        let mut i: usize = 0;
        while i < half
            invariant
                a@.len() == n,
                n == orig.len(),
                half * 2 == n,
                i <= half,
                left@.len() == half,
                right@.len() == half,
                forall|j: int| 0 <= j < i ==> #[trigger] a@[j] == left@[j],
                forall|j: int| i <= j < half ==> #[trigger] a@[j] == orig[j],
                forall|j: int| half <= j < n ==> #[trigger] a@[j] == orig[j],
            decreases half - i,
        {
            let x = left[i];
            a.set(i, x);
            i = i + 1;
        }
        let mut i: usize = 0;
        while i < half
            invariant
                a@.len() == n,
                n == orig.len(),
                half * 2 == n,
                i <= half,
                left@.len() == half,
                right@.len() == half,
                forall|j: int| 0 <= j < half ==> #[trigger] a@[j] == left@[j],
                forall|j: int| 0 <= j < i ==> #[trigger] a@[half + j] == right@[j],
                forall|j: int| i <= j < half ==> #[trigger] a@[half + j] == orig[half + j],
            decreases half - i,
        {
            let x = right[i];
            a.set(half + i, x);
            i = i + 1;
        }
        proof {
            assert((half as int - 1) * (twiddle_chunk as int) < twiddles@.len()) by (
            nonlinear_arith)
                requires
                    (n as int) * (twiddle_chunk as int) <= 2 * twiddles@.len(),
                    n as int == 2 * half as int,
                    half as int >= 2,
                    twiddle_chunk as int >= 1,
            ;
            assert forall|j: int| 0 <= j < half implies a@.subrange(0, half as int)[j]
                == left@[j] by {
                assert(a@[j] == left@[j]);
            }
            assert forall|j: int| 0 <= j < half implies a@.subrange(half as int, n as int)[j]
                == right@[j] by {
                assert(a@[half + j] == right@[j]);
            }
            assert(a@.subrange(0, half as int) =~= left@);
            assert(a@.subrange(half as int, n as int) =~= right@);
        }
        combine_block(a, 0, half, twiddle_chunk, twiddles);
        proof {
            assert(gviews(orig.take(n as int / 2)) =~= gviews(orig).take(n as int / 2));
            assert(gviews(orig.subrange(0, half as int)) =~= gviews(orig).take(n as int / 2));
            assert(gviews(orig.subrange(half as int, n as int)) =~= gviews(orig).skip(
                n as int / 2,
            ));
            assert(gviews(a@) =~= gviews(a@.subrange(0, n as int)));
            assert(gviews(a@.subrange(0, n as int)) == combine(
                butterfly(gviews(orig).take(n as int / 2), 2 * twiddle_chunk as int, twv),
                butterfly(gviews(orig).skip(n as int / 2), 2 * twiddle_chunk as int, twv),
                twiddle_chunk as int,
                twv,
            ));
        }
    }
}

/// Performs the radix-2 transform of `a` in place, given an element
/// `omega` intended as a root of unity of order `2^log_n` and the
/// exact length `2^log_n`. The vector, read as the coefficients of a
/// polynomial, becomes the butterfly-network image `fft_of` of
/// itself; whenever `omega` negates itself at half the length, as a
/// root of unity of order `2^log_n` does, those are the evaluations
/// of the polynomial at the powers of `omega` (`lemma_fft_evaluates`
/// states this of `fft_of`), and providing the inverse root and
/// dividing by the length inverts the transform.
///
/// Shallow transforms (depth at most the log of the worker count) run
/// layer by layer, each layer's blocks being mutually independent;
/// deeper ones run through the recursive split.
pub fn cpu_fft<G: FftGroup>(a: &mut Vec<G>, omega: Fp, log_n: u32, threads: usize)
    requires
        old(a)@.len() == pow2(log_n as nat),
        threads >= 1,
    ensures
        final(a)@.len() == old(a)@.len(),
        gviews(final(a)@) == fft_of(gviews(old(a)@), log_n as nat, omega@),
{
    let ghost orig = a@;
    let n = a.len();
    let log_threads = crate::distributor::log2_floor(threads);
    bitrev_shuffle(a, log_n);
    let ghost shuf = a@;
    let ghost sviews = gviews(shuf);
    let ghost twv_target = pows_seq(omega@, (n / 2) as nat);
    proof {
        assert forall|i: int| 0 <= i < n implies sviews[i] == bitrev_perm(
            gviews(orig),
            log_n as nat,
        )[i] by {
            lemma_brev_bound(log_n as nat, i);
        }
        assert(sviews =~= bitrev_perm(gviews(orig), log_n as nat));
    }
    let half_n = n / 2;
    let mut twiddles: Vec<Fp> = Vec::new();
    let mut pw = crate::field::powers(omega);
    while twiddles.len() < half_n
        invariant
            twiddles@.len() <= half_n,
            pw.base_view() == omega@,
            pw.count() == twiddles@.len(),
            forall|i: int|
                0 <= i < twiddles@.len() ==> (#[trigger] twiddles@[i])@ == fpow(omega@, i as nat),
        decreases half_n - twiddles@.len(),
    {
        let t = pw.next();
        twiddles.push(t);
    }
    let ghost twv = crate::poly::views(twiddles@);
    proof {
        assert(twv =~= twv_target);
    }
    if log_n == 0 {
        proof {
            assert(pow2(0) == 1) by {
                vstd::arithmetic::power2::lemma2_to64();
            }
            assert(gviews(a@).len() < 2);
            assert(gviews(a@) == butterfly(sviews, 1, twv_target));
            assert(gviews(a@) =~= fft_of(gviews(orig), log_n as nat, omega@));
        }
        return ;
    }
    if log_n <= log_threads {
        let ghost ln = log_n as nat;
        let mut half_blk: usize = 1;
        let mut twiddle_chunk: usize = half_n;
        let mut layer: u32 = 0;
        proof {
            assert(pow2(0) == 1) by {
                vstd::arithmetic::power2::lemma2_to64();
            }
            lemma_pow2_pos((ln - 1) as nat);
            lemma_pow2_unfold(ln);
            assert(n >= 2);
            assert(pow2(ln) / 2 == pow2((ln - 1) as nat));
            assert forall|b: int| 0 <= b < n implies #[trigger] gviews(a@.subrange(b, b + 1))
                == butterfly(sviews.subrange(b, b + 1), n as int, twv) by {
                assert(gviews(a@.subrange(b, b + 1)) =~= sviews.subrange(b, b + 1));
            }
        }
        while layer < log_n
            invariant
                a@.len() == n,
                n == pow2(ln),
                ln == log_n as nat,
                shuf.len() == n,
                sviews == gviews(shuf),
                twv == crate::poly::views(twiddles@),
                twiddles@.len() == n / 2,
                layer <= log_n,
                half_blk == pow2(layer as nat),
                half_blk <= n,
                layer < log_n ==> twiddle_chunk == pow2((ln - layer as nat - 1) as nat),
                layer < log_n ==> twiddle_chunk >= 1,
                layer < log_n ==> half_blk * 2 * twiddle_chunk == n,
                half_blk >= 1,
                forall|b: int|
                    0 <= b < n as int / half_blk as int ==> #[trigger] gviews(
                        a@.subrange(b * half_blk, (b + 1) * half_blk),
                    ) == butterfly(
                        sviews.subrange(b * half_blk, (b + 1) * half_blk),
                        n as int / half_blk as int,
                        twv,
                    ),
            decreases log_n - layer,
        {
            proof {
                assert(2 * half_blk <= n) by (nonlinear_arith)
                    requires
                        half_blk * 2 * twiddle_chunk == n,
                        half_blk >= 1,
                        twiddle_chunk >= 1,
                ;
            }
            let blk = 2 * half_blk;
            proof {
                lemma_pow2_unfold((layer + 1) as nat);
                if layer + 1 < log_n {
                    lemma_pow2_strictly_increases((layer + 1) as nat, ln);
                } else {
                    assert(pow2((layer + 1) as nat) == n);
                }
                assert(blk * twiddle_chunk == n);
                assert(n as int / blk as int == twiddle_chunk as int) by {
                    vstd::arithmetic::div_mod::lemma_div_multiples_vanish(
                        twiddle_chunk as int,
                        blk as int,
                    );
                    vstd::arithmetic::mul::lemma_mul_is_commutative(blk as int, twiddle_chunk as int);
                }
                assert(n as int / half_blk as int == 2 * twiddle_chunk as int) by {
                    vstd::arithmetic::div_mod::lemma_div_multiples_vanish(
                        2 * twiddle_chunk as int,
                        half_blk as int,
                    );
                    assert(half_blk as int * (2 * twiddle_chunk as int) == n) by (nonlinear_arith)
                        requires
                            half_blk * 2 * twiddle_chunk == n,
                    ;
                    vstd::arithmetic::mul::lemma_mul_is_commutative(
                        half_blk as int,
                        2 * twiddle_chunk as int,
                    );
                }
            }
            let nb = n / blk;
            let ghost prev = a@;
            proof {
                assert(nb * blk == n) by {
                    vstd::arithmetic::div_mod::lemma_fundamental_div_mod(n as int, blk as int);
                    assert(n as int % blk as int == 0) by {
                        vstd::arithmetic::div_mod::lemma_mod_multiples_basic(
                            twiddle_chunk as int,
                            blk as int,
                        );
                        vstd::arithmetic::mul::lemma_mul_is_commutative(
                            blk as int,
                            twiddle_chunk as int,
                        );
                    }
                }
                assert((half_blk as int - 1) * (twiddle_chunk as int) < n as int / 2) by (
                nonlinear_arith)
                    requires
                        half_blk * 2 * twiddle_chunk == n,
                        half_blk >= 1,
                        twiddle_chunk >= 1,
                ;
            }
            let mut b: usize = 0;
            while b < nb
                invariant
                    a@.len() == n,
                    prev.len() == n,
                    b <= nb,
                    half_blk >= 1,
                    twiddle_chunk >= 1,
                    blk == 2 * half_blk,
                    nb * blk == n,
                    n as int / half_blk as int == 2 * twiddle_chunk as int,
                    n as int / blk as int == twiddle_chunk as int,
                    (half_blk as int - 1) * (twiddle_chunk as int) < twiddles@.len(),
                    twiddles@.len() == n / 2,
                    twv == crate::poly::views(twiddles@),
                    sviews.len() == n,
                    forall|bb: int|
                        0 <= bb < n as int / half_blk as int ==> #[trigger] gviews(
                            prev.subrange(bb * half_blk, (bb + 1) * half_blk),
                        ) == butterfly(
                            sviews.subrange(bb * half_blk, (bb + 1) * half_blk),
                            n as int / half_blk as int,
                            twv,
                        ),
                    forall|bb: int|
                        0 <= bb < b ==> #[trigger] gviews(a@.subrange(bb * blk, (bb + 1) * blk))
                            == butterfly(
                            sviews.subrange(bb * blk, (bb + 1) * blk),
                            twiddle_chunk as int,
                            twv,
                        ),
                    forall|idx: int| b * blk <= idx < n ==> #[trigger] a@[idx] == prev[idx],
                decreases nb - b,
            {
                proof {
                    assert((b + 1) * blk <= nb * blk) by (nonlinear_arith)
                        requires
                            b < nb,
                            blk >= 1,
                    ;
                    assert(b * blk + blk == (b + 1) * blk) by (nonlinear_arith);
                }
                let start = b * blk;
                let ghost befor = a@;
                combine_block(a, start, half_blk, twiddle_chunk, &twiddles);
                proof {
                    let s2 = sviews.subrange(start as int, start as int + blk);
                    let sl = sviews.subrange(start as int, start as int + half_blk);
                    let sr = sviews.subrange(start as int + half_blk, start as int + blk);
                    let lidx = 2 * b;
                    let ridx = 2 * b + 1;
                    assert(lidx * half_blk == start as int && ridx * half_blk == start as int
                        + half_blk && (lidx + 1) * half_blk == start as int + half_blk && (ridx + 1)
                        * half_blk == start as int + blk) by (nonlinear_arith)
                        requires
                            start == b * blk,
                            blk == 2 * half_blk,
                            lidx == 2 * b,
                            ridx == 2 * b + 1,
                    ;
                    assert(nb as int == n as int / blk as int) by {
                        vstd::arithmetic::div_mod::lemma_div_multiples_vanish(
                            nb as int,
                            blk as int,
                        );
                        vstd::arithmetic::mul::lemma_mul_is_commutative(blk as int, nb as int);
                    }
                    assert(b < twiddle_chunk);
                    assert(0 <= lidx && ridx < 2 * twiddle_chunk as int);
                    assert(ridx < n as int / half_blk as int);
                    assert(befor.subrange(start as int, start as int + half_blk) =~= prev.subrange(
                        lidx * half_blk,
                        (lidx + 1) * half_blk,
                    ));
                    assert(befor.subrange(start as int + half_blk, start as int + blk)
                        =~= prev.subrange(ridx * half_blk, (ridx + 1) * half_blk));
                    assert(gviews(prev.subrange(lidx * half_blk, (lidx + 1) * half_blk))
                        == butterfly(
                        sviews.subrange(lidx * half_blk, (lidx + 1) * half_blk),
                        n as int / half_blk as int,
                        twv,
                    ));
                    assert(gviews(prev.subrange(ridx * half_blk, (ridx + 1) * half_blk))
                        == butterfly(
                        sviews.subrange(ridx * half_blk, (ridx + 1) * half_blk),
                        n as int / half_blk as int,
                        twv,
                    ));
                    assert(sl =~= sviews.subrange(lidx * half_blk, (lidx + 1) * half_blk));
                    assert(sr =~= sviews.subrange(ridx * half_blk, (ridx + 1) * half_blk));
                    assert(gviews(befor.subrange(start as int, start as int + half_blk))
                        == butterfly(sl, n as int / half_blk as int, twv));
                    assert(gviews(befor.subrange(start as int + half_blk, start as int + blk))
                        == butterfly(sr, n as int / half_blk as int, twv));
                    assert(s2.take(s2.len() as int / 2) =~= sl);
                    assert(s2.skip(s2.len() as int / 2) =~= sr);
                    assert(gviews(a@.subrange(start as int, start as int + blk)) == butterfly(
                        s2,
                        twiddle_chunk as int,
                        twv,
                    ));
                    assert forall|bb: int| 0 <= bb < b + 1 implies #[trigger] gviews(
                        a@.subrange(bb * blk, (bb + 1) * blk),
                    ) == butterfly(
                        sviews.subrange(bb * blk, (bb + 1) * blk),
                        twiddle_chunk as int,
                        twv,
                    ) by {
                        if bb < b {
                            assert((bb + 1) * blk <= b * blk) by (nonlinear_arith)
                                requires
                                    bb < b,
                                    blk >= 1,
                            ;
                            assert(bb * blk >= 0) by (nonlinear_arith)
                                requires
                                    bb >= 0,
                                    blk >= 1,
                            ;
                            assert(bb * blk + blk == (bb + 1) * blk) by (nonlinear_arith);
                            assert forall|idx: int|
                                bb * blk <= idx < (bb + 1) * blk implies a@[idx] == befor[idx] by {
                                assert((bb + 1) * blk <= start);
                            }
                            assert forall|kk: int|
                                0 <= kk < blk implies #[trigger] a@.subrange(
                                bb * blk,
                                (bb + 1) * blk,
                            )[kk] == befor.subrange(bb * blk, (bb + 1) * blk)[kk] by {
                                assert(bb * blk + blk == (bb + 1) * blk) by (nonlinear_arith);
                                assert(a@[bb * blk + kk] == befor[bb * blk + kk]);
                            }
                            assert(a@.subrange(bb * blk, (bb + 1) * blk) =~= befor.subrange(
                                bb * blk,
                                (bb + 1) * blk,
                            ));
                        }
                    }
                }
                b = b + 1;
            }
            proof {
                assert forall|bb: int| 0 <= bb < n as int / blk as int implies #[trigger] gviews(
                    a@.subrange(bb * blk, (bb + 1) * blk),
                ) == butterfly(
                    sviews.subrange(bb * blk, (bb + 1) * blk),
                    n as int / blk as int,
                    twv,
                ) by {
                    assert(n as int / blk as int == nb as int) by {
                        vstd::arithmetic::div_mod::lemma_div_multiples_vanish(
                            nb as int,
                            blk as int,
                        );
                        vstd::arithmetic::mul::lemma_mul_is_commutative(blk as int, nb as int);
                    }
                }
            }
            half_blk = blk;
            twiddle_chunk = twiddle_chunk / 2;
            layer = layer + 1;
            proof {
                if layer < log_n {
                    lemma_pow2_unfold((ln - layer as nat) as nat);
                    assert(twiddle_chunk == pow2((ln - layer as nat - 1) as nat));
                    vstd::arithmetic::power2::lemma_pow2_adds(
                        (layer + 1) as nat,
                        (ln - layer as nat - 1) as nat,
                    );
                    lemma_pow2_unfold((layer + 1) as nat);
                    assert(half_blk * 2 == pow2((layer + 1) as nat));
                    assert((half_blk * 2) * twiddle_chunk == n) by (nonlinear_arith)
                        requires
                            half_blk * 2 == pow2((layer + 1) as nat),
                            twiddle_chunk == pow2((ln - layer as nat - 1) as nat),
                            pow2((layer + 1) as nat) * pow2((ln - layer as nat - 1) as nat) == pow2(
                                ln,
                            ),
                            n == pow2(ln),
                    ;
                    assert(half_blk * 2 * twiddle_chunk == (half_blk * 2) * twiddle_chunk) by (
                    nonlinear_arith);
                }
            }
        }
        proof {
            lemma_pow2_pos(ln);
            assert(half_blk == n);
            assert(n as int / n as int == 1) by {
                vstd::arithmetic::div_mod::lemma_div_by_self(n as int);
            }
            assert(gviews(a@.subrange(0 * (half_blk as int), (0 + 1) * (half_blk as int)))
                == butterfly(
                sviews.subrange(0 * (half_blk as int), (0 + 1) * (half_blk as int)),
                n as int / half_blk as int,
                twv,
            ));
            assert(0 * (half_blk as int) == 0) by (nonlinear_arith);
            assert((0 + 1) * (half_blk as int) == half_blk as int) by (nonlinear_arith);
            assert(gviews(a@.subrange(0, n as int)) == butterfly(
                sviews.subrange(0, n as int),
                1,
                twv,
            ));
            assert(gviews(a@) =~= gviews(a@.subrange(0, n as int)));
            assert(sviews.subrange(0, n as int) =~= sviews);
            assert(gviews(a@) =~= fft_of(gviews(orig), log_n as nat, omega@));
        }
    } else {
        proof {
            vstd::arithmetic::power2::is_pow2_equiv(n as int);
            assert(vstd::arithmetic::power2::is_pow2_exists(n as int)) by {
                vstd::arithmetic::power::lemma_pow_positive(2, log_n as nat);
                assert(vstd::arithmetic::power::pow(2, log_n as nat) == n);
            }
            lemma_pow2_unfold(log_n as nat);
            lemma_pow2_pos((log_n - 1) as nat);
            assert(n >= 2);
            assert(n as int * 1 <= 2 * twiddles@.len());
        }
        recursive_butterfly_arithmetic(a, n, 1, &twiddles);
        proof {
            assert(gviews(a@) =~= fft_of(gviews(orig), log_n as nat, omega@));
        }
    }
}

/// The butterfly recursion keeps the length of its block.
proof fn lemma_butterfly_len(s: Seq<int>, tc: int, tw: Seq<int>)
    ensures
        butterfly(s, tc, tw).len() == s.len(),
    decreases s.len(),
{
    if s.len() >= 2 {
        lemma_butterfly_len(s.take(s.len() as int / 2), 2 * tc, tw);
        lemma_butterfly_len(s.skip(s.len() as int / 2), 2 * tc, tw);
    }
}

/// The butterfly recursion reads the twiddle table only at stride
/// multiples below half the block length, so two tables that agree
/// there give the same transform.
proof fn lemma_butterfly_reindex(x: Seq<int>, tc1: int, tw1: Seq<int>, tc2: int, tw2: Seq<int>)
    requires
        x.len() < 2 || vstd::arithmetic::power2::is_pow2(x.len() as int),
        forall|j: int| 0 <= j < x.len() / 2 ==> #[trigger] tw1[j * tc1] == tw2[j * tc2],
    ensures
        butterfly(x, tc1, tw1) == butterfly(x, tc2, tw2),
    decreases x.len(),
{
    if x.len() >= 2 {
        reveal(vstd::arithmetic::power2::is_pow2);
        assert(x.len() as int % 2 == 0);
        let h = x.len() as int / 2;
        assert(x.len() == 2 * h);
        assert forall|j: int|
            0 <= j < x.take(h).len() / 2 implies #[trigger] tw1[j * (2 * tc1)] == tw2[j * (2
            * tc2)] by {
            assert(j * (2 * tc1) == (2 * j) * tc1) by (nonlinear_arith);
            assert(j * (2 * tc2) == (2 * j) * tc2) by (nonlinear_arith);
            assert(tw1[(2 * j) * tc1] == tw2[(2 * j) * tc2]);
        }
        assert forall|j: int|
            0 <= j < x.skip(h).len() / 2 implies #[trigger] tw1[j * (2 * tc1)] == tw2[j * (2
            * tc2)] by {
            assert(j * (2 * tc1) == (2 * j) * tc1) by (nonlinear_arith);
            assert(j * (2 * tc2) == (2 * j) * tc2) by (nonlinear_arith);
            assert(tw1[(2 * j) * tc1] == tw2[(2 * j) * tc2]);
        }
        lemma_butterfly_reindex(x.take(h), 2 * tc1, tw1, 2 * tc2, tw2);
        lemma_butterfly_reindex(x.skip(h), 2 * tc1, tw1, 2 * tc2, tw2);
        let bl = butterfly(x.take(h), 2 * tc1, tw1);
        let br = butterfly(x.skip(h), 2 * tc1, tw1);
        lemma_butterfly_len(x.take(h), 2 * tc1, tw1);
        lemma_butterfly_len(x.skip(h), 2 * tc1, tw1);
        assert forall|idx: int|
            0 <= idx < bl.len() + br.len() implies combine(bl, br, tc1, tw1)[idx] == combine(
            bl,
            br,
            tc2,
            tw2,
        )[idx] by {
            if idx != 0 && idx < bl.len() {
                assert(tw1[idx * tc1] == tw2[idx * tc2]);
            } else if idx > bl.len() {
                let i2 = idx - bl.len();
                assert(0 <= i2 < x.len() / 2);
                assert(tw1[i2 * tc1] == tw2[i2 * tc2]);
            }
        }
        assert(combine(bl, br, tc1, tw1) =~= combine(bl, br, tc2, tw2));
    }
}

/// The bit-reversal permutation of a block splits into the
/// bit-reversal permutations of its even-indexed and odd-indexed
/// entries, in that order.
proof fn lemma_bitrev_perm_split(s: Seq<int>, l: nat)
    requires
        l >= 1,
        s.len() == pow2(l),
    ensures
        bitrev_perm(s, l) == bitrev_perm(crate::poly::evens(s), (l - 1) as nat) + bitrev_perm(
            crate::poly::odds(s),
            (l - 1) as nat,
        ),
{
    let n = pow2(l) as int;
    let half = pow2((l - 1) as nat) as int;
    lemma_pow2_unfold(l);
    lemma_pow2_pos((l - 1) as nat);
    let ev = crate::poly::evens(s);
    let od = crate::poly::odds(s);
    assert(ev.len() == half && od.len() == half);
    let rhs = bitrev_perm(ev, (l - 1) as nat) + bitrev_perm(od, (l - 1) as nat);
    assert forall|i: int| 0 <= i < n implies bitrev_perm(s, l)[i] == rhs[i] by {
        lemma_brev_top(l, i);
        if i < half {
            lemma_small_mod(i as nat, half as nat);
            vstd::arithmetic::div_mod::lemma_basic_div(i, half);
            lemma_brev_bound((l - 1) as nat, i);
            assert(brev(l, i) == 2 * brev((l - 1) as nat, i));
            assert(s[2 * brev((l - 1) as nat, i)] == ev[brev((l - 1) as nat, i)]);
        } else {
            let i2 = i - half;
            assert(i % half == i2) by {
                lemma_mod_multiples_vanish(1, i2, half);
                lemma_small_mod(i2 as nat, half as nat);
                assert(half * 1 + i2 == i);
            }
            assert(i / half == 1) by {
                vstd::arithmetic::div_mod::lemma_hoist_over_denominator(i2, 1, half as nat);
                vstd::arithmetic::div_mod::lemma_basic_div(i2, half);
            }
            lemma_brev_bound((l - 1) as nat, i2);
            assert(brev(l, i) == 2 * brev((l - 1) as nat, i2) + 1);
            assert(s[2 * brev((l - 1) as nat, i2) + 1] == od[brev((l - 1) as nat, i2)]);
        }
    }
    assert(bitrev_perm(s, l) =~= rhs);
}

/// What the transform means: whenever the supplied element negates
/// itself at half the length (`w^(n/2) == -1`, as a root of unity of
/// order `n` does), the transform of a reduced coefficient sequence
/// holds the evaluations of the polynomial at the powers of `w`.
pub proof fn lemma_fft_evaluates(s: Seq<int>, l: nat, w: int)
    requires
        s.len() == pow2(l),
        forall|i: int| 0 <= i < s.len() ==> 0 <= #[trigger] s[i] < P,
        l >= 1 ==> fpow(w, pow2((l - 1) as nat)) == P - 1,
    ensures
        forall|k: int|
            0 <= k < s.len() ==> #[trigger] fft_of(s, l, w)[k] == crate::poly::poly_eval(
                s,
                fpow(w, k as nat),
            ),
    decreases l,
{
    let p = P as int;
    let n = pow2(l) as int;
    if l == 0 {
        assert(pow2(0) == 1) by {
            vstd::arithmetic::power2::lemma2_to64();
        }
        assert(fft_of(s, 0, w) == s);
        assert forall|k: int| 0 <= k < 1 implies #[trigger] fft_of(s, l, w)[k]
            == crate::poly::poly_eval(s, fpow(w, k as nat)) by {
            assert(s.drop_first().len() == 0);
            assert(crate::poly::poly_eval(s.drop_first(), fpow(w, 0nat)) == 0);
            assert(crate::poly::poly_eval(s, fpow(w, 0nat)) == fadd(
                s[0],
                fmul(fpow(w, 0nat), 0),
            ));
            assert(fmul(fpow(w, 0nat), 0) == 0) by {
                assert(fpow(w, 0nat) * 0 == 0);
                lemma_small_mod(0nat, P as nat);
            }
            lemma_small_mod(s[0] as nat, P as nat);
        }
    } else {
        let half = pow2((l - 1) as nat) as int;
        lemma_pow2_unfold(l);
        lemma_pow2_pos((l - 1) as nat);
        let ev = crate::poly::evens(s);
        let od = crate::poly::odds(s);
        let w2 = fmul(w, w);
        // the squared root negates itself at a quarter of the length
        if l >= 2 {
            crate::field::lemma_fpow_of_square(w, pow2((l - 2) as nat));
            lemma_pow2_unfold((l - 1) as nat);
        }
        assert forall|i: int| 0 <= i < ev.len() implies 0 <= #[trigger] ev[i] < P by {
            assert(ev[i] == s[2 * i]);
        }
        assert forall|i: int| 0 <= i < od.len() implies 0 <= #[trigger] od[i] < P by {
            assert(od[i] == s[2 * i + 1]);
        }
        lemma_fft_evaluates(ev, (l - 1) as nat, w2);
        lemma_fft_evaluates(od, (l - 1) as nat, w2);
        // the transform decomposes into the half-transforms
        lemma_bitrev_perm_split(s, l);
        let twn = pows_seq(w, (n / 2) as nat);
        let twh = pows_seq(w2, (half / 2) as nat);
        let be = bitrev_perm(ev, (l - 1) as nat);
        let bo = bitrev_perm(od, (l - 1) as nat);
        let br = bitrev_perm(s, l);
        assert(br.take(n / 2) =~= be);
        assert(br.skip(n / 2) =~= bo);
        assert forall|j: int| 0 <= j < be.len() / 2 implies #[trigger] twn[j * 2] == twh[j
            * 1] by {
            crate::field::lemma_fpow_of_square(w, j as nat);
            assert(twh[j * 1] == twh[j]);
        }
        assert(half < 2 || vstd::arithmetic::power2::is_pow2(half)) by {
            if half >= 2 {
                vstd::arithmetic::power2::is_pow2_equiv(half);
                vstd::arithmetic::power::lemma_pow_positive(2, (l - 1) as nat);
                assert(vstd::arithmetic::power::pow(2, (l - 1) as nat) == half);
            }
        }
        lemma_butterfly_reindex(be, 2, twn, 1, twh);
        lemma_butterfly_reindex(bo, 2, twn, 1, twh);
        let fe = fft_of(ev, (l - 1) as nat, w2);
        let fo = fft_of(od, (l - 1) as nat, w2);
        lemma_butterfly_len(be, 1, twh);
        lemma_butterfly_len(bo, 1, twh);
        assert(fft_of(s, l, w) == combine(fe, fo, 1, twn));
        // now read the combined entries against the split evaluation
        assert forall|k: int| 0 <= k < n implies #[trigger] fft_of(s, l, w)[k]
            == crate::poly::poly_eval(s, fpow(w, k as nat)) by {
            crate::field::lemma_fpow_range(w, k as nat);
            if k < half {
                let x = fpow(w, k as nat);
                lemma_combined_entry_low(s, fe, fo, twn, w, k, half);
            } else {
                let k2 = k - half;
                lemma_combined_entry_high(s, fe, fo, twn, w, k2, half, l);
            }
        }
    }
}

/// The first half of the combined transform: entry `k` is the even
/// evaluation plus `w^k` times the odd evaluation, which the even-odd
/// split of Horner identifies with the full evaluation at `w^k`.
proof fn lemma_combined_entry_low(
    s: Seq<int>,
    fe: Seq<int>,
    fo: Seq<int>,
    twn: Seq<int>,
    w: int,
    k: int,
    half: int,
)
    requires
        0 <= k < half,
        s.len() == 2 * half,
        fe.len() == half,
        fo.len() == half,
        twn == pows_seq(w, half as nat),
        fe[k] == crate::poly::poly_eval(crate::poly::evens(s), fpow(fmul(w, w), k as nat)),
        fo[k] == crate::poly::poly_eval(crate::poly::odds(s), fpow(fmul(w, w), k as nat)),
    ensures
        combine(fe, fo, 1, twn)[k] == crate::poly::poly_eval(s, fpow(w, k as nat)),
{
    let x = fpow(w, k as nat);
    crate::poly::lemma_poly_eval_split(s, x);
    crate::field::lemma_fpow_of_square(w, k as nat);
    assert(fmul(x, x) == fpow(w, 2 * k as nat)) by {
        crate::field::lemma_fpow_add(w, k as nat, k as nat);
    }
    let e = crate::poly::poly_eval(crate::poly::evens(s), fmul(x, x));
    let o = crate::poly::poly_eval(crate::poly::odds(s), fmul(x, x));
    assert(fe[k] == e && fo[k] == o);
    if k == 0 {
        assert(combine(fe, fo, 1, twn)[0] == fadd(fe[0], fo[0]));
        assert(fpow(w, 0nat) == 1) by {
            vstd::arithmetic::power::lemma_pow0(w);
            lemma_small_mod(1nat, P as nat);
        }
        assert(fmul(1, o) == o % (P as int)) by {
            assert(1 * o == o);
        }
        crate::poly::lemma_poly_eval_bound(crate::poly::odds(s), fmul(x, x));
        if crate::poly::odds(s).len() > 0 {
            lemma_small_mod(o as nat, P as nat);
        } else {
            lemma_small_mod(0nat, P as nat);
        }
        crate::field::lemma_fadd_noop(e, o);
    } else {
        assert(combine(fe, fo, 1, twn)[k] == fadd(fe[k], fmul(fo[k], twn[k * 1])));
        assert(twn[k] == x);
        crate::field::lemma_fmul_comm(o, x);
    }
}

/// The second half of the combined transform: entry `half + k` is the
/// even evaluation minus `w^k` times the odd evaluation, and
/// `w^(half + k) == -w^k` identifies it with the full evaluation at
/// `w^(half + k)`.
proof fn lemma_combined_entry_high(
    s: Seq<int>,
    fe: Seq<int>,
    fo: Seq<int>,
    twn: Seq<int>,
    w: int,
    k: int,
    half: int,
    l: nat,
)
    requires
        l >= 1,
        0 <= k < half,
        half == pow2((l - 1) as nat),
        s.len() == 2 * half,
        fe.len() == half,
        fo.len() == half,
        twn == pows_seq(w, half as nat),
        fpow(w, pow2((l - 1) as nat)) == P - 1,
        fe[k] == crate::poly::poly_eval(crate::poly::evens(s), fpow(fmul(w, w), k as nat)),
        fo[k] == crate::poly::poly_eval(crate::poly::odds(s), fpow(fmul(w, w), k as nat)),
    ensures
        combine(fe, fo, 1, twn)[half + k] == crate::poly::poly_eval(
            s,
            fpow(w, (half + k) as nat),
        ),
{
    let p = P as int;
    let x = fpow(w, k as nat);
    let xh = fpow(w, (half + k) as nat);
    crate::field::lemma_fpow_range(w, k as nat);
    crate::field::lemma_fpow_range(w, (half + k) as nat);
    // w^(half + k) == -w^k
    assert(xh == fneg(x)) by {
        crate::field::lemma_fpow_add(w, pow2((l - 1) as nat), k as nat);
        crate::field::lemma_fmul_comm((P - 1) as int, x);
        crate::field::lemma_fmul_neg_one(x);
    }
    // its square is the square of w^k
    assert(fmul(xh, xh) == fmul(x, x)) by {
        crate::field::lemma_fneg_mul(x, fneg(x));
        crate::field::lemma_fmul_comm(fneg(x), x);
        crate::field::lemma_fneg_mul(x, x);
        crate::field::lemma_fneg_involution(fmul(x, x));
        vstd::arithmetic::div_mod::lemma_mod_twice(x * x, p);
    }
    crate::poly::lemma_poly_eval_split(s, xh);
    crate::field::lemma_fpow_of_square(w, k as nat);
    assert(fpow(fmul(w, w), k as nat) == fmul(x, x)) by {
        crate::field::lemma_fpow_add(w, k as nat, k as nat);
    }
    let e = crate::poly::poly_eval(crate::poly::evens(s), fmul(x, x));
    let o = crate::poly::poly_eval(crate::poly::odds(s), fmul(x, x));
    // poly(s, xh) == e - x * o
    assert(fmul(xh, o) == fneg(fmul(x, o))) by {
        crate::field::lemma_fneg_mul(x, o);
    }
    crate::field::lemma_fadd_fneg(e, fmul(x, o));
    if k == 0 {
        assert(combine(fe, fo, 1, twn)[half] == fsub(fe[0], fo[0]));
        assert(fpow(w, 0nat) == 1) by {
            vstd::arithmetic::power::lemma_pow0(w);
            lemma_small_mod(1nat, P as nat);
        }
        assert(fmul(1, o) == o % p) by {
            assert(1 * o == o);
        }
        crate::poly::lemma_poly_eval_bound(crate::poly::odds(s), fmul(x, x));
        if crate::poly::odds(s).len() > 0 {
            lemma_small_mod(o as nat, P as nat);
        } else {
            lemma_small_mod(0nat, P as nat);
        }
        assert(fsub(e, fmul(1, o)) == fsub(e, o)) by {
            vstd::arithmetic::div_mod::lemma_sub_mod_noop_right(e, o, p);
            vstd::arithmetic::div_mod::lemma_mod_twice(e - o, p);
        }
    } else {
        assert(combine(fe, fo, 1, twn)[half + k] == fsub(fe[k], fmul(fo[k], twn[k * 1])));
        assert(twn[k] == x);
        crate::field::lemma_fmul_comm(o, x);
    }
}

/// The evaluations of the polynomial `s` at the first `n` powers of
/// `w`.
pub open spec fn eval_vec(s: Seq<int>, w: int, n: nat) -> Seq<int> {
    Seq::new(n, |j: int| crate::poly::poly_eval(s, fpow(w, j as nat)))
}

/// The transform keeps the length of its input.
pub proof fn lemma_fft_of_len(s: Seq<int>, l: nat, w: int)
    ensures
        fft_of(s, l, w).len() == s.len(),
{
    lemma_butterfly_len(bitrev_perm(s, l), 1, pows_seq(w, (s.len() / 2) as nat));
}

/// Distinct exponents below the order give distinct powers of a
/// primitive root.
proof fn lemma_fpow_injective(w: int, winv: int, n: nat, a: nat, b: nat)
    requires
        fmul(w, winv) == 1,
        forall|d: nat| 1 <= d < n ==> #[trigger] fpow(w, d) != 1,
        a < b < n,
    ensures
        fpow(w, a) != fpow(w, b),
{
    let p = P as int;
    if fpow(w, a) != fpow(w, b) {
        return ;
    }
    crate::field::lemma_fpow_add(w, (b - a) as nat, a);
    crate::field::lemma_fpow_cancel(w, winv, a);
    let x = fpow(w, (b - a) as nat);
    let pa = fpow(w, a);
    let qa = fpow(winv, a);
    crate::field::lemma_fmul_assoc(x, pa, qa);
    assert(fmul(x, 1) == x % p) by {
        assert(x * 1 == x);
    }
    crate::field::lemma_fpow_range(w, (b - a) as nat);
    lemma_small_mod(x as nat, P as nat);
    assert(fmul(pa, qa) == 1);
    assert(fmul(fmul(x, pa), qa) == x);
    assert(x == fpow(w, (b - a) as nat) && 1 <= b - a < n);
}

/// Evaluating the evaluation vector back at a power of the inverse
/// root singles out one coefficient: every other basis power sums to
/// a vanishing geometric series over the full period.
proof fn lemma_eval_vec_orthogonal(s: Seq<int>, w: int, winv: int, n: nat, i: int)
    requires
        s.len() <= n,
        0 <= i < n,
        0 <= w < P,
        0 <= winv < P,
        fmul(w, winv) == 1,
        fpow(w, n) == 1,
        forall|d: nat| 1 <= d < n ==> #[trigger] fpow(w, d) != 1,
    ensures
        crate::poly::poly_eval(eval_vec(s, w, n), fpow(winv, i as nat)) == (if i < s.len() {
            fmul(s[i], (n as int) % (P as int))
        } else {
            0
        }),
    decreases s.len(),
{
    let p = P as int;
    let y = fpow(winv, i as nat);
    if s.len() == 0 {
        assert(eval_vec(s, w, n) =~= Seq::new(n, |j: int| fmul(0, fpow(w, j as nat)))) by {
            assert forall|j: int| 0 <= j < n implies crate::poly::poly_eval(
                s,
                #[trigger] fpow(w, j as nat),
            ) == fmul(0, fpow(w, j as nat)) by {
                assert(0 * fpow(w, j as nat) == 0);
                lemma_small_mod(0nat, P as nat);
            }
        }
        crate::poly::lemma_eval_scaled_powers(0, w, y, n);
        assert(fmul(0, crate::poly::geo_sum(fmul(w, y), n)) == 0) by {
            assert(0 * crate::poly::geo_sum(fmul(w, y), n) == 0);
            lemma_small_mod(0nat, P as nat);
        }
    } else {
        let m = s.len() - 1;
        let s2 = s.drop_last();
        lemma_eval_vec_orthogonal(s2, w, winv, n, i);
        let zm = fpow(w, m as nat);
        crate::field::lemma_fpow_range(w, m as nat);
        let mono = Seq::new(n, |j: int| fmul(s.last(), fpow(zm, j as nat)));
        assert forall|j: int| 0 <= j < n implies eval_vec(s, w, n)[j] == fadd(
            eval_vec(s2, w, n)[j],
            mono[j],
        ) by {
            let xj = fpow(w, j as nat);
            assert(s2 + seq![s.last()] =~= s);
            crate::poly::lemma_poly_eval_append(s2, seq![s.last()], xj);
            assert(seq![s.last()].len() == 1);
            assert(seq![s.last()].drop_first().len() == 0);
            assert(crate::poly::poly_eval(seq![s.last()].drop_first(), xj) == 0);
            assert(crate::poly::poly_eval(seq![s.last()], xj) == fadd(
                s.last(),
                fmul(xj, 0),
            ));
            assert(fmul(xj, 0) == 0) by {
                assert(xj * 0 == 0);
                lemma_small_mod(0nat, P as nat);
            }
            assert(fmul(fpow(xj, m as nat), fadd(s.last(), 0)) == fmul(
                fpow(xj, m as nat),
                s.last(),
            )) by {
                crate::field::lemma_fmul_noop(fpow(xj, m as nat), s.last());
            }
            assert(fpow(xj, m as nat) == fpow(zm, j as nat)) by {
                crate::field::lemma_fpow_pow(w, j as nat, m as nat);
                crate::field::lemma_fpow_pow(w, m as nat, j as nat);
                assert((j as nat) * (m as nat) == (m as nat) * (j as nat)) by (nonlinear_arith);
            }
            crate::field::lemma_fmul_comm(fpow(zm, j as nat), s.last());
        }
        assert(eval_vec(s, w, n) =~= crate::poly::padd(eval_vec(s2, w, n), mono));
        crate::poly::lemma_poly_eval_linear(eval_vec(s2, w, n), mono, y);
        crate::poly::lemma_eval_scaled_powers(s.last(), zm, y, n);
        let u = fmul(zm, y);
        vstd::arithmetic::div_mod::lemma_mod_bound(zm * y, p);
        let prior = crate::poly::poly_eval(eval_vec(s2, w, n), y);
        if m == i {
            crate::field::lemma_fpow_cancel(w, winv, m as nat);
            crate::poly::lemma_geo_sum_ones(n);
            let t = fmul(s.last(), (n as int) % p);
            vstd::arithmetic::div_mod::lemma_mod_bound(s.last() * ((n as int) % p), p);
            assert(fadd(0, t) == t) by {
                lemma_small_mod(t as nat, P as nat);
            }
            assert(s[i] == s.last());
        } else {
            // the period of u divides n and u is not one
            assert(fpow(u, n) == 1) by {
                crate::field::lemma_fpow_of_product(zm, y, n);
                assert(fpow(zm, n) == 1) by {
                    crate::field::lemma_fpow_pow(w, m as nat, n);
                    crate::field::lemma_fpow_pow(w, n, m as nat);
                    assert((m as nat) * n == n * (m as nat)) by (nonlinear_arith);
                    assert(fpow(fpow(w, n), m as nat) == 1) by {
                        assert(vstd::arithmetic::power::pow(1, m as nat) == 1) by {
                            vstd::arithmetic::power::lemma1_pow(m as nat);
                        }
                        lemma_small_mod(1nat, P as nat);
                    }
                }
                assert(fpow(y, n) == 1) by {
                    crate::field::lemma_fpow_pow(winv, i as nat, n);
                    crate::field::lemma_fpow_pow(winv, n, i as nat);
                    assert((i as nat) * n == n * (i as nat)) by (nonlinear_arith);
                    assert(fpow(winv, n) == 1) by {
                        crate::field::lemma_fpow_cancel(w, winv, n);
                        let xw = fpow(winv, n);
                        assert(fmul(1, xw) == xw % p) by {
                            assert(1 * xw == xw);
                        }
                        crate::field::lemma_fpow_range(winv, n);
                        lemma_small_mod(xw as nat, P as nat);
                        crate::field::lemma_fmul_comm(fpow(w, n), xw);
                    }
                    assert(fpow(fpow(winv, n), i as nat) == 1) by {
                        assert(vstd::arithmetic::power::pow(1, i as nat) == 1) by {
                            vstd::arithmetic::power::lemma1_pow(i as nat);
                        }
                        lemma_small_mod(1nat, P as nat);
                    }
                }
                lemma_small_mod(1nat, P as nat);
            }
            assert(u != 1) by {
                if u == 1 {
                    assert(fmul(u, fpow(w, i as nat)) == fpow(w, m as nat)) by {
                        crate::field::lemma_fmul_assoc(zm, y, fpow(w, i as nat));
                        crate::field::lemma_fmul_comm(y, fpow(w, i as nat));
                        crate::field::lemma_fpow_cancel(w, winv, i as nat);
                        crate::field::lemma_fmul_comm(fpow(w, i as nat), fpow(winv, i as nat));
                        assert(fmul(zm, fmul(y, fpow(w, i as nat))) == fmul(zm, 1));
                        assert(fmul(zm, 1) == zm % p) by {
                            assert(zm * 1 == zm);
                        }
                        lemma_small_mod(zm as nat, P as nat);
                    }
                    assert(fmul(1, fpow(w, i as nat)) == fpow(w, i as nat) % p) by {
                        assert(1 * fpow(w, i as nat) == fpow(w, i as nat));
                    }
                    crate::field::lemma_fpow_range(w, i as nat);
                    lemma_small_mod(fpow(w, i as nat) as nat, P as nat);
                    assert(fpow(w, i as nat) == fpow(w, m as nat));
                    if i < m {
                        lemma_fpow_injective(w, winv, n, i as nat, m as nat);
                    } else {
                        lemma_fpow_injective(w, winv, n, m as nat, i as nat);
                    }
                }
            }
            crate::poly::lemma_geo_sum_vanishes(u, n);
            assert(fmul(s.last(), 0) == 0) by {
                assert(s.last() * 0 == 0);
                lemma_small_mod(0nat, P as nat);
            }
            assert(fadd(prior, 0) == prior) by {
                if i < s2.len() {
                    vstd::arithmetic::div_mod::lemma_mod_bound(s2[i] * ((n as int) % p), p);
                    lemma_small_mod(prior as nat, P as nat);
                } else {
                    lemma_small_mod(0nat, P as nat);
                }
            }
            if i < s.len() {
                assert(s2[i] == s[i]);
            }
        }
    }
}

/// Round trip: for a sequence of reduced residues of power-of-two
/// length and a root of unity of exactly that order, transforming at
/// the root, transforming again at its inverse and scaling every
/// entry by the inverse of the length restores the input.
pub proof fn lemma_fft_round_trip(s: Seq<int>, l: nat, w: int, winv: int, ninv: int)
    requires
        s.len() == pow2(l),
        forall|i: int| 0 <= i < s.len() ==> 0 <= #[trigger] s[i] < P,
        0 <= w < P,
        0 <= winv < P,
        fmul(w, winv) == 1,
        fpow(w, pow2(l)) == 1,
        forall|d: nat| 1 <= d < pow2(l) ==> #[trigger] fpow(w, d) != 1,
        fmul((pow2(l) as int) % (P as int), ninv) == 1,
    ensures
        forall|i: int|
            0 <= i < s.len() ==> fmul(#[trigger] fft_of(fft_of(s, l, w), l, winv)[i], ninv)
                == s[i],
{
    let p = P as int;
    let n = pow2(l);
    lemma_pow2_pos(l);
    // the root negates itself at half the length
    if l >= 1 {
        lemma_root_negates_at_half(w, winv, l);
    }
    lemma_fft_evaluates(s, l, w);
    let f1 = fft_of(s, l, w);
    lemma_fft_of_len(s, l, w);
    assert(f1 =~= eval_vec(s, w, n)) by {
        assert forall|j: int| 0 <= j < n implies f1[j] == eval_vec(s, w, n)[j] by {}
    }
    // the inverse root inherits the hypotheses of the forward root
    assert(fmul(winv, w) == 1) by {
        crate::field::lemma_fmul_comm(w, winv);
    }
    assert(fpow(winv, n) == 1) by {
        crate::field::lemma_fpow_cancel(w, winv, n);
        let xw = fpow(winv, n);
        assert(fmul(1, xw) == xw % p) by {
            assert(1 * xw == xw);
        }
        crate::field::lemma_fpow_range(winv, n);
        lemma_small_mod(xw as nat, P as nat);
        crate::field::lemma_fmul_comm(fpow(w, n), xw);
    }
    assert forall|d: nat| 1 <= d < n implies #[trigger] fpow(winv, d) != 1 by {
        if fpow(winv, d) == 1 {
            // then w^d == w^d * winv^d == 1
            crate::field::lemma_fpow_cancel(w, winv, d);
            let xd = fpow(w, d);
            assert(fmul(xd, 1) == xd % p) by {
                assert(xd * 1 == xd);
            }
            crate::field::lemma_fpow_range(w, d);
            lemma_small_mod(xd as nat, P as nat);
        }
    }
    if l >= 1 {
        lemma_root_negates_at_half_inv(w, winv, l);
    }
    assert forall|i: int| 0 <= i < f1.len() implies 0 <= #[trigger] f1[i] < P by {
        crate::poly::lemma_poly_eval_bound(s, fpow(w, i as nat));
    }
    lemma_fft_evaluates(f1, l, winv);
    lemma_fft_of_len(f1, l, winv);
    assert forall|i: int| 0 <= i < n implies fmul(
        #[trigger] fft_of(f1, l, winv)[i],
        ninv,
    ) == s[i] by {
        assert(fft_of(f1, l, winv)[i] == crate::poly::poly_eval(f1, fpow(winv, i as nat)));
        lemma_eval_vec_orthogonal(s, w, winv, n, i);
        assert(fft_of(f1, l, winv)[i] == fmul(s[i], (n as int) % p));
        // (s_i * (n % p)) * ninv == s_i * ((n % p) * ninv) == s_i
        crate::field::lemma_fmul_assoc(s[i], (n as int) % p, ninv);
        assert(fmul(s[i], 1) == s[i] % p) by {
            assert(s[i] * 1 == s[i]);
        }
        lemma_small_mod(s[i] as nat, P as nat);
        crate::field::lemma_fmul_noop(s[i], (n as int) % p * ninv);
        assert(fmul(s[i], fmul((n as int) % p, ninv)) == fmul(s[i], 1));
    }
}

/// A primitive root of two-power order negates itself at half the
/// order: its square at half the order is one, it is not one there,
/// and the only residues squaring to one are one and minus one.
proof fn lemma_root_negates_at_half(w: int, winv: int, l: nat)
    requires
        l >= 1,
        0 <= w < P,
        0 <= winv < P,
        fmul(w, winv) == 1,
        fpow(w, pow2(l)) == 1,
        forall|d: nat| 1 <= d < pow2(l) ==> #[trigger] fpow(w, d) != 1,
    ensures
        fpow(w, pow2((l - 1) as nat)) == P - 1,
{
    let p = P as int;
    let h = pow2((l - 1) as nat);
    lemma_pow2_pos((l - 1) as nat);
    lemma_pow2_unfold(l);
    let x = fpow(w, h);
    crate::field::lemma_fpow_range(w, h);
    assert(fmul(x, x) == 1) by {
        crate::field::lemma_fpow_add(w, h, h);
    }
    assert(x != 1) by {
        assert(1 <= h < pow2(l));
    }
    lemma_square_one_is_pm_one(x);
}

/// The inverse root inherits the negation at half the order.
proof fn lemma_root_negates_at_half_inv(w: int, winv: int, l: nat)
    requires
        l >= 1,
        0 <= w < P,
        0 <= winv < P,
        fmul(w, winv) == 1,
        fpow(w, pow2(l)) == 1,
        forall|d: nat| 1 <= d < pow2(l) ==> #[trigger] fpow(w, d) != 1,
    ensures
        fpow(winv, pow2((l - 1) as nat)) == P - 1,
{
    let p = P as int;
    let h = pow2((l - 1) as nat);
    lemma_root_negates_at_half(w, winv, l);
    let xv = fpow(winv, h);
    crate::field::lemma_fpow_cancel(w, winv, h);
    // (p - 1) * xv == 1 and (p - 1) * (p - 1) == 1, so xv == p - 1
    crate::field::lemma_fpow_range(winv, h);
    assert(fmul((P - 1) as int, (P - 1) as int) == 1) by {
        crate::field::lemma_fmul_neg_one((P - 1) as int);
        assert(fneg((P - 1) as int) == 1) by {
            lemma_small_mod(1nat, P as nat);
        }
    }
    assert(crate::field::is_inv_of((P - 1) as int, xv));
    assert(crate::field::is_inv_of((P - 1) as int, (P - 1) as int));
    crate::field::lemma_inv_unique((P - 1) as int, xv, (P - 1) as int);
}

/// A residue squaring to one is one or minus one: the field has no
/// zero divisors.
proof fn lemma_square_one_is_pm_one(x: int)
    requires
        0 <= x < P,
        fmul(x, x) == 1,
    ensures
        x == 1 || x == P - 1,
{
    let p = P as int;
    // (x - 1) * (x + 1) == x^2 - 1 == 0 as residues
    let a = fsub(x, 1);
    let b = fadd(x, 1);
    vstd::arithmetic::div_mod::lemma_mod_bound(x - 1, p);
    vstd::arithmetic::div_mod::lemma_mod_bound(x + 1, p);
    assert(fmul(a, b) == 0) by {
        crate::field::lemma_fmul_noop(x - 1, x + 1);
        crate::field::lemma_fmul_noop((x - 1) % p, x + 1);
        assert((x - 1) * (x + 1) == x * x - 1) by (nonlinear_arith);
        vstd::arithmetic::div_mod::lemma_sub_mod_noop(x * x, 1, p);
        lemma_small_mod(1nat, P as nat);
        vstd::arithmetic::div_mod::lemma_mod_twice(x * x, p);
        assert((x * x - 1) % p == (1int - 1) % p) by {
            vstd::arithmetic::div_mod::lemma_sub_mod_noop((x * x) % p, 1, p);
        }
        lemma_small_mod(0nat, P as nat);
    }
    crate::field::lemma_no_zero_divisors(a, b);
    if a == 0 {
        crate::field::lemma_fsub_zero(x, 1);
    } else {
        assert(b == 0);
        assert((x + 1) % p == 0);
        if x < P - 1 {
            lemma_small_mod((x + 1) as nat, P as nat);
        }
    }
}

/// Converts a coefficient-basis sequence of group elements into the
/// Lagrange (evaluation) basis: the inverse transform at the inverse
/// root of order `2^k`, a scaling of every element by the inverse of
/// the length, and a batch normalization to affine form, the latter
/// two fanned out over the work distributor.
#[verifier::rlimit(100)]
pub fn g_to_lagrange(g_projective: Vec<crate::group::Pt>, k: u32, threads: usize) -> (r: Vec<
    crate::group::PtAffine,
>)
    requires
        g_projective@.len() == pow2(k as nat),
        k <= crate::field::S,
        threads >= 1,
    ensures
        r@.len() == pow2(k as nat),
        forall|i: int|
            0 <= i < r@.len() ==> (#[trigger] r@[i])@ == fmul(
                fft_of(
                    gviews(g_projective@),
                    k as nat,
                    fpow(
                        crate::field::ROOT_OF_UNITY_INV as int,
                        pow2((crate::field::S - k) as nat),
                    ),
                )[i],
                fpow(crate::field::TWO_INV as int, k as nat),
            ),
{
    let n_inv = Fp::new(crate::field::TWO_INV).pow(k as u64);
    proof {
        lemma_small_mod(crate::field::TWO_INV as nat, P as nat);
        vstd::arithmetic::power::lemma_pow_mod_noop(
            crate::field::TWO_INV as int,
            k as nat,
            P as int,
        );
    }
    let mut omega_inv = Fp::new(crate::field::ROOT_OF_UNITY_INV);
    proof {
        lemma_small_mod(crate::field::ROOT_OF_UNITY_INV as nat, P as nat);
        assert(pow2(0) == 1) by {
            vstd::arithmetic::power2::lemma2_to64();
        }
        assert(fpow(crate::field::ROOT_OF_UNITY_INV as int, 1nat) == omega_inv@) by {
            vstd::arithmetic::power::lemma_pow1(crate::field::ROOT_OF_UNITY_INV as int);
        }
    }
    let mut j: u32 = k;
    while j < crate::field::S
        invariant
            k <= j <= crate::field::S,
            omega_inv@ == fpow(crate::field::ROOT_OF_UNITY_INV as int, pow2((j - k) as nat)),
            0 <= omega_inv@ < P,
        decreases crate::field::S - j,
    {
        proof {
            crate::field::lemma_fpow_square(
                crate::field::ROOT_OF_UNITY_INV as int,
                pow2((j - k) as nat),
            );
            lemma_pow2_unfold((j + 1 - k) as nat);
        }
        omega_inv = omega_inv.square();
        j = j + 1;
    }
    let ghost wk = fpow(crate::field::ROOT_OF_UNITY_INV as int, pow2((crate::field::S - k) as nat));
    let ghost orig = g_projective@;
    let mut g = g_projective;
    best_fft(&mut g, omega_inv, k, threads);
    let ghost transformed = gviews(g@);
    proof {
        assert(transformed == fft_of(gviews(orig), k as nat, wk));
    }
    let n = g.len();
    let ninv_local = n_inv;
    let scale_fn = |chunk: Vec<crate::group::Pt>, off: usize| -> (out: Vec<crate::group::Pt>)
        ensures
            out@.len() == chunk@.len(),
            forall|m: int|
                0 <= m < chunk@.len() ==> (#[trigger] out@[m])@ == fmul(chunk@[m]@, ninv_local@),
        {
            let mut out: Vec<crate::group::Pt> = Vec::new();
            let mut m: usize = 0;
            while m < chunk.len()
                invariant
                    m <= chunk@.len(),
                    out@.len() == m,
                    forall|mm: int|
                        0 <= mm < m ==> (#[trigger] out@[mm])@ == fmul(chunk@[mm]@, ninv_local@),
                decreases chunk@.len() - m,
            {
                out.push(chunk[m].mul_scalar(ninv_local));
                m = m + 1;
            }
            out
        };
    let ghost pre_scale = g@;
    crate::distributor::parallelize(&mut g, threads, scale_fn);
    proof {
        let ni = pre_scale.len() as int;
        let ti = threads as int;
        assert forall|i: int| 0 <= i < ni implies (#[trigger] g@[i])@ == fmul(
            transformed[i],
            ninv_local@,
        ) by {
            crate::distributor::lemma_partition_exact_cover(ni, ti, i);
            let j = choose|j: int|
                0 <= j < crate::distributor::chunk_count(ni, ti) && (
                #[trigger] crate::distributor::chunk_start(ni, ti, j)) <= i
                    < crate::distributor::chunk_start(ni, ti, j) + crate::distributor::chunk_len(
                    ni,
                    ti,
                    j,
                );
            crate::distributor::lemma_chunks_cover(ni, ti);
            crate::distributor::lemma_chunks_monotone(ni, ti, 0, j);
            crate::distributor::lemma_chunks_monotone(ni, ti, j, j + 1);
            crate::distributor::lemma_chunks_monotone(
                ni,
                ti,
                j + 1,
                crate::distributor::chunk_count(ni, ti),
            );
            let s = crate::distributor::chunk_start(ni, ti, j);
            let l = crate::distributor::chunk_len(ni, ti, j);
            let (cv, ov) = choose|cv: Vec<crate::group::Pt>, ov: Vec<crate::group::Pt>|
                #![trigger cv@, ov@]
                {
                    let s2 = crate::distributor::chunk_start(ni, ti, j);
                    let l2 = crate::distributor::chunk_len(ni, ti, j);
                    cv@ == pre_scale.subrange(s2, s2 + l2) && ov@ == g@.subrange(s2, s2 + l2)
                        && call_ensures(scale_fn, (cv, s2 as usize), ov)
                };
            assert(ov@[i - s]@ == fmul(cv@[i - s]@, ninv_local@));
            assert(cv@[i - s] == pre_scale[i]);
            assert(ov@[i - s] == g@[i]);
        }
    }
    let mut g_lagrange: Vec<crate::group::PtAffine> = Vec::new();
    let mut f: usize = 0;
    while f < n
        invariant
            f <= n,
            g_lagrange@.len() == f,
        decreases n - f,
    {
        g_lagrange.push(crate::group::PtAffine::identity());
        f = f + 1;
    }
    let gref = &g;
    let ghost scaled = gviews(g@);
    let norm_fn = |chunk: Vec<crate::group::PtAffine>, off: usize| -> (out: Vec<
        crate::group::PtAffine,
    >)
        ensures
            out@.len() == chunk@.len(),
            forall|m: int|
                0 <= m < chunk@.len() ==> (#[trigger] out@[m])@ == (if off + m < gref@.len() {
                    gref@[off + m]@
                } else {
                    chunk@[m]@
                }),
        {
            let mut out: Vec<crate::group::PtAffine> = Vec::new();
            let mut m: usize = 0;
            while m < chunk.len()
                invariant
                    m <= chunk@.len(),
                    out@.len() == m,
                    forall|mm: int|
                        0 <= mm < m ==> (#[trigger] out@[mm])@ == (if off + mm < gref@.len() {
                            gref@[off + mm]@
                        } else {
                            chunk@[mm]@
                        }),
                decreases chunk@.len() - m,
            {
                if off < gref.len() && m < gref.len() - off {
                    out.push(gref[off + m].to_affine());
                } else {
                    out.push(chunk[m]);
                }
                m = m + 1;
            }
            out
        };
    let ghost pre_norm = g_lagrange@;
    crate::distributor::parallelize(&mut g_lagrange, threads, norm_fn);
    proof {
        let ni = pre_norm.len() as int;
        let ti = threads as int;
        assert forall|i: int| 0 <= i < ni implies (#[trigger] g_lagrange@[i])@ == gref@[i]@ by {
            crate::distributor::lemma_partition_exact_cover(ni, ti, i);
            let j = choose|j: int|
                0 <= j < crate::distributor::chunk_count(ni, ti) && (
                #[trigger] crate::distributor::chunk_start(ni, ti, j)) <= i
                    < crate::distributor::chunk_start(ni, ti, j) + crate::distributor::chunk_len(
                    ni,
                    ti,
                    j,
                );
            crate::distributor::lemma_chunks_cover(ni, ti);
            crate::distributor::lemma_chunks_monotone(ni, ti, 0, j);
            crate::distributor::lemma_chunks_monotone(ni, ti, j, j + 1);
            crate::distributor::lemma_chunks_monotone(
                ni,
                ti,
                j + 1,
                crate::distributor::chunk_count(ni, ti),
            );
            let s = crate::distributor::chunk_start(ni, ti, j);
            let l = crate::distributor::chunk_len(ni, ti, j);
            let (cv, ov) = choose|
                cv: Vec<crate::group::PtAffine>,
                ov: Vec<crate::group::PtAffine>,
            |
                #![trigger cv@, ov@]
                {
                    let s2 = crate::distributor::chunk_start(ni, ti, j);
                    let l2 = crate::distributor::chunk_len(ni, ti, j);
                    cv@ == pre_norm.subrange(s2, s2 + l2) && ov@ == g_lagrange@.subrange(
                        s2,
                        s2 + l2,
                    ) && call_ensures(norm_fn, (cv, s2 as usize), ov)
                };
            assert(ov@[i - s]@ == gref@[i]@);
            assert(ov@[i - s] == g_lagrange@[i]);
        }
    }
    g_lagrange
}

/// Performs the radix-2 transform of `a` in place: the selection
/// between the layer-parallel and the recursive strategy lives in
/// `cpu_fft`, which this entry point delegates to. At a primitive
/// root of order exactly the length, applying the transform, then
/// the transform at the inverse root, then the inverse of the length
/// restores the input (`lemma_fft_round_trip`).
pub fn best_fft<G: FftGroup>(a: &mut Vec<G>, omega: Fp, log_n: u32, threads: usize)
    requires
        old(a)@.len() == pow2(log_n as nat),
        threads >= 1,
    ensures
        final(a)@.len() == old(a)@.len(),
        gviews(final(a)@) == fft_of(gviews(old(a)@), log_n as nat, omega@),
{
    cpu_fft(a, omega, log_n, threads)
}

} // verus!
