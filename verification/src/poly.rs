//! Polynomial utilities: Horner evaluation (plain and chunked),
//! inner products, synthetic division by a linear factor, Lagrange
//! interpolation and vanishing-polynomial evaluation.

use vstd::prelude::*;
use vstd::calc;
use vstd::arithmetic::power::pow;
use vstd::arithmetic::power::lemma_pow_adds;
use vstd::arithmetic::div_mod::lemma_small_mod;
use vstd::arithmetic::div_mod::lemma_mod_add_multiples_vanish;
use vstd::arithmetic::div_mod::lemma_sub_mod_noop_right;
use vstd::arithmetic::div_mod::lemma_mod_twice;
use crate::field::Fp;
use crate::field::P;
use crate::field::fadd;
use crate::field::fsub;
use crate::field::fmul;
use crate::field::fneg;
use crate::field::fpow;
use crate::field::finv;
use crate::field::is_inv_of;
use crate::field::lemma_fmul_comm;
use crate::field::lemma_fmul_assoc;
use crate::field::lemma_fmul_noop;
use crate::field::lemma_fadd_noop;
use crate::field::lemma_fadd_assoc;
use crate::field::lemma_fmul_distributes;
use crate::field::lemma_fneg_mul;
use crate::field::lemma_fsub_fneg;
use crate::field::lemma_fadd_fsub_cancel;

verus! {

/// The residues held by a sequence of field elements.
pub open spec fn views(s: Seq<Fp>) -> Seq<int> {
    s.map_values(|x: Fp| x@)
}

/// The value of the polynomial with coefficients `c` (index `i` holds
/// the coefficient of `X^i`) at the point `x`, as Horner's rule nests
/// it: `c[0] + x * (c[1] + x * (...))`.
pub open spec fn poly_eval(c: Seq<int>, x: int) -> int
    decreases c.len(),
{
    if c.len() == 0 {
        0
    } else {
        fadd(c[0], fmul(x, poly_eval(c.drop_first(), x)))
    }
}

/// The inner product `sum a[i] * b[i]`.
pub open spec fn inner_prod(a: Seq<int>, b: Seq<int>) -> int
    decreases a.len(),
{
    if a.len() == 0 {
        0
    } else {
        fadd(inner_prod(a.drop_last(), b.drop_last()), fmul(a.last(), b.last()))
    }
}

/// The vanishing polynomial of the given roots evaluated at `z`:
/// `prod (z - root)`, one for the empty set.
pub open spec fn vanishing_eval(roots: Seq<int>, z: int) -> int
    decreases roots.len(),
{
    if roots.len() == 0 {
        1 as int
    } else {
        fmul(fsub(z, roots.last()), vanishing_eval(roots.drop_last(), z))
    }
}

/// Splitting a coefficient sequence splits its value: the tail block
/// counts shifted by `x` to the power of the split position.
pub proof fn lemma_poly_eval_append(a: Seq<int>, b: Seq<int>, x: int)
    ensures
        poly_eval(a + b, x) == fadd(poly_eval(a, x), fmul(fpow(x, a.len()), poly_eval(b, x))),
    decreases a.len(),
{
    let p = P as int;
    if a.len() == 0 {
        assert(a + b =~= b);
        assert(fpow(x, 0nat) == 1int % p) by {
            vstd::arithmetic::power::lemma_pow0(x);
        }
        lemma_small_mod(1nat, P as nat);
        assert(fmul(1, poly_eval(b, x)) == poly_eval(b, x) % p) by {
            assert(1 * poly_eval(b, x) == poly_eval(b, x));
        }
        lemma_poly_eval_bound(b, x);
        if b.len() > 0 {
            lemma_small_mod(poly_eval(b, x) as nat, P as nat);
        }
        assert(fadd(0, poly_eval(b, x)) == poly_eval(b, x) % p);
        if b.len() == 0 {
            lemma_small_mod(0nat, P as nat);
        } else {
            lemma_small_mod(poly_eval(b, x) as nat, P as nat);
        }
    } else {
        lemma_poly_eval_append(a.drop_first(), b, x);
        assert((a + b).drop_first() =~= a.drop_first() + b);
        assert((a + b)[0] == a[0]);
        // poly_eval(a + b) == fadd(a[0], fmul(x, fadd(ta, fmul(fpow(x, n-1), tb))))
        let ta = poly_eval(a.drop_first(), x);
        let tb = poly_eval(b, x);
        let n1 = (a.len() - 1) as nat;
        calc! {
            (==)
            fmul(x, fadd(ta, fmul(fpow(x, n1), tb))); {
                lemma_fmul_distributes(x, ta, fmul(fpow(x, n1), tb));
            }
            fadd(fmul(x, ta), fmul(x, fmul(fpow(x, n1), tb))); {
                lemma_fmul_assoc(x, fpow(x, n1), tb);
                assert(fmul(x, fpow(x, n1)) == fpow(x, n1 + 1)) by {
                    lemma_fmul_noop(x, pow(x, n1));
                    assert(x * pow(x, n1) == pow(x, n1 + 1)) by {
                        vstd::arithmetic::power::lemma_pow1(x);
                        lemma_pow_adds(x, 1nat, n1);
                    }
                }
                assert(fmul(fpow(x, n1 + 1), tb) == fmul(fmul(x, fpow(x, n1)), tb));
            }
            fadd(fmul(x, ta), fmul(fpow(x, n1 + 1), tb));
        }
        // now fold a[0] in on the left
        lemma_fadd_assoc_mixed(a[0], fmul(x, ta), fmul(fpow(x, n1 + 1), tb));
    }
}

/// `fadd(fadd(a, b), c) == fadd(a, fadd(b, c))`, restated with the
/// first summand outside: `fadd(a, fadd(b, c)) == fadd(fadd(a, b), c)`.
proof fn lemma_fadd_assoc_mixed(a: int, b: int, c: int)
    ensures
        fadd(a, fadd(b, c)) == fadd(fadd(a, b), c),
{
    lemma_fadd_assoc(a, b, c);
}

/// A polynomial value is a reduced residue as soon as the polynomial
/// is nonempty.
pub proof fn lemma_poly_eval_bound(c: Seq<int>, x: int)
    ensures
        c.len() > 0 ==> 0 <= poly_eval(c, x) < P,
        c.len() == 0 ==> poly_eval(c, x) == 0,
{
    if c.len() > 0 {
        vstd::arithmetic::div_mod::lemma_mod_bound(
            c[0] + fmul(x, poly_eval(c.drop_first(), x)),
            P as int,
        );
    }
}

/// The even-indexed coefficients.
pub open spec fn evens(s: Seq<int>) -> Seq<int> {
    Seq::new(((s.len() + 1) / 2) as nat, |i: int| s[2 * i])
}

/// The odd-indexed coefficients.
pub open spec fn odds(s: Seq<int>) -> Seq<int> {
    Seq::new((s.len() / 2) as nat, |i: int| s[2 * i + 1])
}

/// The even-odd split of Horner evaluation: a polynomial at `x` is
/// its even part at `x^2` plus `x` times its odd part at `x^2`.
pub proof fn lemma_poly_eval_split(s: Seq<int>, x: int)
    ensures
        poly_eval(s, x) == fadd(
            poly_eval(evens(s), fmul(x, x)),
            fmul(x, poly_eval(odds(s), fmul(x, x))),
        ),
    decreases s.len(),
{
    let y = fmul(x, x);
    if s.len() == 0 {
        assert(evens(s).len() == 0 && odds(s).len() == 0);
        assert(fmul(x, 0) == 0) by {
            assert(x * 0 == 0);
            lemma_small_mod(0nat, P as nat);
        }
        assert(fadd(0, 0) == 0) by {
            lemma_small_mod(0nat, P as nat);
        }
    } else {
        let t = s.drop_first();
        lemma_poly_eval_split(t, x);
        assert(evens(s).drop_first() =~= odds(t));
        assert(odds(s) =~= evens(t));
        assert(evens(s)[0] == s[0]);
        let et = poly_eval(evens(t), y);
        let ot = poly_eval(odds(t), y);
        lemma_fmul_distributes(x, et, fmul(x, ot));
        lemma_fmul_assoc(x, x, ot);
        lemma_fadd_assoc(s[0], fmul(x, et), fmul(y, ot));
        lemma_fadd_assoc(s[0], fmul(y, ot), fmul(x, et));
        assert(fadd(fmul(x, et), fmul(y, ot)) == fadd(fmul(y, ot), fmul(x, et)));
        assert(poly_eval(evens(s), y) == fadd(s[0], fmul(y, ot)));
    }
}

/// The pointwise residue sum of two coefficient sequences.
pub open spec fn padd(a: Seq<int>, b: Seq<int>) -> Seq<int> {
    Seq::new(a.len(), |i: int| fadd(a[i], b[i]))
}

/// Evaluation is additive in the coefficients.
pub proof fn lemma_poly_eval_linear(a: Seq<int>, b: Seq<int>, x: int)
    requires
        a.len() == b.len(),
    ensures
        poly_eval(padd(a, b), x) == fadd(poly_eval(a, x), poly_eval(b, x)),
    decreases a.len(),
{
    if a.len() == 0 {
        lemma_small_mod(0nat, P as nat);
    } else {
        lemma_poly_eval_linear(a.drop_first(), b.drop_first(), x);
        assert(padd(a, b).drop_first() =~= padd(a.drop_first(), b.drop_first()));
        let pa = poly_eval(a.drop_first(), x);
        let pb = poly_eval(b.drop_first(), x);
        lemma_fmul_distributes(x, pa, pb);
        crate::field::lemma_fadd_rearrange(a[0], fmul(x, pa), b[0], fmul(x, pb));
        assert(fadd(fadd(a[0], b[0]), fadd(fmul(x, pa), fmul(x, pb))) == fadd(
            fadd(a[0], fmul(x, pa)),
            fadd(b[0], fmul(x, pb)),
        ));
    }
}

/// The geometric sum `1 + u + ... + u^(n-1)`, reduced.
pub open spec fn geo_sum(u: int, n: nat) -> int
    decreases n,
{
    if n == 0 {
        0
    } else {
        fadd(1, fmul(u, geo_sum(u, (n - 1) as nat)))
    }
}

/// A geometric sum is a reduced residue.
pub proof fn lemma_geo_sum_bound(u: int, n: nat)
    ensures
        0 <= geo_sum(u, n) < P,
{
    if n == 0 {
    } else {
        vstd::arithmetic::div_mod::lemma_mod_bound(
            1 + fmul(u, geo_sum(u, (n - 1) as nat)),
            P as int,
        );
    }
}

/// The geometric sum at one is the length.
pub proof fn lemma_geo_sum_ones(n: nat)
    ensures
        geo_sum(1, n) == n as int % (P as int),
    decreases n,
{
    let p = P as int;
    if n == 0 {
        lemma_small_mod(0nat, P as nat);
    } else {
        lemma_geo_sum_ones((n - 1) as nat);
        assert(fmul(1, geo_sum(1, (n - 1) as nat)) == geo_sum(1, (n - 1) as nat)) by {
            assert(1 * geo_sum(1, (n - 1) as nat) == geo_sum(1, (n - 1) as nat));
            lemma_geo_sum_bound(1, (n - 1) as nat);
            lemma_small_mod(geo_sum(1, (n - 1) as nat) as nat, P as nat);
        }
        // 1 + ((n - 1) % p) and (1 + (n - 1)) % p agree after reduction
        vstd::arithmetic::div_mod::lemma_add_mod_noop_right(1, n as int - 1, p);
        lemma_mod_twice(n as int, p);
    }
}

/// Telescoping: `(u - 1) * geo_sum(u, n) == u^n - 1`.
pub proof fn lemma_geo_sum_telescopes(u: int, n: nat)
    ensures
        fmul(fsub(u, 1), geo_sum(u, n)) == fsub(fpow(u, n), 1),
    decreases n,
{
    let p = P as int;
    let d = fsub(u, 1);
    if n == 0 {
        assert(fmul(d, 0) == 0) by {
            assert(d * 0 == 0);
            lemma_small_mod(0nat, P as nat);
        }
        assert(fpow(u, 0nat) == 1int % p) by {
            vstd::arithmetic::power::lemma_pow0(u);
        }
        lemma_small_mod(1nat, P as nat);
        assert(fsub(1, 1) == 0) by {
            lemma_small_mod(0nat, P as nat);
        }
    } else {
        let g = geo_sum(u, (n - 1) as nat);
        lemma_geo_sum_telescopes(u, (n - 1) as nat);
        // d * (1 + u g) == d + u * (d g) == d + u * (u^(n-1) - 1)
        lemma_fmul_distributes(d, 1, fmul(u, g));
        assert(fmul(d, 1) == d) by {
            assert(d * 1 == d);
            vstd::arithmetic::div_mod::lemma_mod_bound(u - 1, p);
            lemma_small_mod(d as nat, P as nat);
        }
        assert(fmul(d, fmul(u, g)) == fmul(u, fmul(d, g))) by {
            lemma_fmul_assoc(d, u, g);
            lemma_fmul_comm(d, u);
            lemma_fmul_assoc(u, d, g);
        }
        // u * (u^(n-1) - 1) == u^n - u
        crate::field::lemma_fmul_distributes_sub(u, fpow(u, (n - 1) as nat), 1);
        assert(fmul(u, fpow(u, (n - 1) as nat)) == fpow(u, n)) by {
            lemma_fmul_comm(u, fpow(u, (n - 1) as nat));
            crate::field::lemma_pow_unfold_top(u, (n - 1) as nat);
        }
        assert(fmul(u, 1) == u % p) by {
            assert(u * 1 == u);
        }
        // d + (u^n - u) == u^n - 1, all modulo p
        assert(fadd(d, fsub(fpow(u, n), u % p)) == fsub(fpow(u, n), 1)) by {
            vstd::arithmetic::div_mod::lemma_sub_mod_noop_right(fpow(u, n), u, p);
            vstd::arithmetic::div_mod::lemma_add_mod_noop_right(u - 1, fpow(u, n) - u, p);
            vstd::arithmetic::div_mod::lemma_add_mod_noop(u - 1, fpow(u, n) - u, p);
            lemma_mod_twice(fpow(u, n) - 1, p);
        }
    }
}

/// A geometric sum over a full period of a nontrivial root vanishes.
pub proof fn lemma_geo_sum_vanishes(u: int, n: nat)
    requires
        0 <= u < P,
        u != 1,
        fpow(u, n) == 1,
    ensures
        geo_sum(u, n) == 0,
{
    let p = P as int;
    lemma_geo_sum_telescopes(u, n);
    assert(fsub(1, 1) == 0) by {
        lemma_small_mod(0nat, P as nat);
    }
    let d = fsub(u, 1);
    crate::field::lemma_fsub_zero(u, 1);
    lemma_geo_sum_bound(u, n);
    vstd::arithmetic::div_mod::lemma_mod_bound(u - 1, p);
    if geo_sum(u, n) != 0 {
        crate::field::lemma_no_zero_divisors(d, geo_sum(u, n));
    }
}

/// A sequence of scaled powers `c * z^j` evaluates to `c` times the
/// geometric sum of `z * y`.
pub proof fn lemma_eval_scaled_powers(c: int, z: int, y: int, n: nat)
    ensures
        poly_eval(Seq::new(n, |j: int| fmul(c, fpow(z, j as nat))), y) == fmul(
            c,
            geo_sum(fmul(z, y), n),
        ),
    decreases n,
{
    let p = P as int;
    let v = Seq::new(n, |j: int| fmul(c, fpow(z, j as nat)));
    if n == 0 {
        assert(fmul(c, 0) == 0) by {
            assert(c * 0 == 0);
            lemma_small_mod(0nat, P as nat);
        }
    } else {
        let c2 = fmul(c, z);
        lemma_eval_scaled_powers(c2, z, y, (n - 1) as nat);
        let v2 = Seq::new((n - 1) as nat, |j: int| fmul(c2, fpow(z, j as nat)));
        assert forall|j: int| 0 <= j < n - 1 implies v.drop_first()[j] == v2[j] by {
            assert(v.drop_first()[j] == fmul(c, fpow(z, (j + 1) as nat)));
            assert(fmul(c, fpow(z, (j + 1) as nat)) == fmul(fmul(c, z), fpow(z, j as nat))) by {
                assert(fmul(fpow(z, j as nat), z) == fpow(z, (j + 1) as nat)) by {
                    crate::field::lemma_pow_unfold_top(z, j as nat);
                }
                lemma_fmul_assoc(c, z, fpow(z, j as nat));
                lemma_fmul_comm(z, fpow(z, j as nat));
                lemma_fmul_assoc(c, fpow(z, j as nat), z);
                crate::field::lemma_fmul_noop(c, z * fpow(z, j as nat));
                assert(fmul(c, fmul(z, fpow(z, j as nat))) == fmul(c, fmul(fpow(z, j as nat), z)));
            }
        }
        assert(v.drop_first() =~= v2);
        // v[0] == c % p
        assert(v[0] == fmul(c, fpow(z, 0nat)));
        assert(fpow(z, 0nat) == 1int % p) by {
            vstd::arithmetic::power::lemma_pow0(z);
        }
        lemma_small_mod(1nat, P as nat);
        assert(fmul(c, 1) == c % p) by {
            assert(c * 1 == c);
        }
        let g = geo_sum(fmul(z, y), (n - 1) as nat);
        // y * (c z * g) == c * (z y * g)
        assert(fmul(y, fmul(c2, g)) == fmul(c, fmul(fmul(z, y), g))) by {
            lemma_fmul_assoc(y, c2, g);
            lemma_fmul_comm(y, c2);
            lemma_fmul_assoc(c2, y, g);
            lemma_fmul_assoc(c, z, fmul(y, g));
            lemma_fmul_assoc(z, y, g);
            lemma_fmul_assoc(c, fmul(z, y), g);
            crate::field::lemma_fmul_noop(c, z * fmul(y, g));
            crate::field::lemma_fmul_noop(c, fmul(z, y) * g);
        }
        // c % p + c * (zy g) == c * (1 + zy g)
        lemma_fmul_distributes(c, 1, fmul(fmul(z, y), g));
        assert(fadd(c % p, fmul(c, fmul(fmul(z, y), g))) == fadd(
            fmul(c, 1),
            fmul(c, fmul(fmul(z, y), g)),
        )) by {
            crate::field::lemma_fadd_noop(c, fmul(c, fmul(fmul(z, y), g)));
        }
    }
}

/// An inner product is a reduced residue as soon as the vectors are
/// nonempty.
pub proof fn lemma_inner_prod_bound(a: Seq<int>, b: Seq<int>)
    ensures
        a.len() > 0 ==> 0 <= inner_prod(a, b) < P,
        a.len() == 0 ==> inner_prod(a, b) == 0,
{
    if a.len() > 0 {
        vstd::arithmetic::div_mod::lemma_mod_bound(
            inner_prod(a.drop_last(), b.drop_last()) + fmul(a.last(), b.last()),
            P as int,
        );
    }
}

/// Horner evaluation of a full coefficient vector.
fn eval_serial(poly: &Vec<Fp>, point: Fp) -> (r: Fp)
    ensures
        r@ == poly_eval(views(poly@), point@) % (P as int),
        0 <= r@ < P,
{
    let n = poly.len();
    let mut acc = Fp::zero();
    let mut i: usize = n;
    proof {
        assert(views(poly@).subrange(n as int, n as int) =~= Seq::<int>::empty());
        lemma_small_mod(0nat, P as nat);
    }
    while i > 0
        invariant
            n == poly@.len(),
            i <= n,
            0 <= acc@ < P,
            acc@ == poly_eval(views(poly@).subrange(i as int, n as int), point@) % (P as int),
        decreases i,
    {
        i = i - 1;
        let c = poly[i];
        let next = acc.mul(point).add(c);
        proof {
            let s = views(poly@).subrange(i as int, n as int);
            let stail = views(poly@).subrange(i as int + 1, n as int);
            assert(s.drop_first() =~= stail);
            assert(s[0] == views(poly@)[i as int]);
            // next@ == fadd(fmul(acc, x), c) while the spec nests
            // fadd(c, fmul(x, tail)); commute both operations
            lemma_fmul_comm(acc@, point@);
            lemma_fmul_noop(point@, poly_eval(stail, point@));
            crate::field::lemma_fadd_comm(fmul(point@, poly_eval(stail, point@)), views(poly@)[i as int]);
            lemma_fadd_noop(views(poly@)[i as int], poly_eval(stail, point@) % (P as int));
            lemma_mod_twice(poly_eval(s, point@), P as int);
        }
        acc = next;
    }
    proof {
        assert(views(poly@).subrange(0, n as int) =~= views(poly@));
    }
    acc
}

/// Evaluates the polynomial `poly` (coefficient form) at `point`.
///
/// Long polynomials are split into `threads` contiguous coefficient
/// blocks; each block's own Horner value is rescaled by `point` to the
/// power of the block's start and the parts are summed, which gives
/// the same value as one serial Horner pass.
pub fn eval_polynomial(poly: &Vec<Fp>, point: Fp, threads: usize) -> (r: Fp)
    requires
        threads >= 1,
    ensures
        r@ == poly_eval(views(poly@), point@) % (P as int),
        0 <= r@ < P,
{
    let n = poly.len();
    if (n as u128) * 2 < threads as u128 {
        eval_serial(poly, point)
    } else {
        let q = n / threads;
        let chunk_size = if n % threads != 0 {
            proof {
                if threads == 1 {
                    vstd::arithmetic::div_mod::lemma_mod_bound(n as int, 1);
                }
                vstd::arithmetic::div_mod::lemma_div_is_strictly_smaller(n as int, threads as int);
            }
            q + 1
        } else {
            q
        };
        proof {
            lemma_small_mod(0nat, P as nat);
            assert(views(poly@).subrange(0, 0) =~= Seq::<int>::empty());
            if n >= 1 {
                if n >= threads {
                    vstd::arithmetic::div_mod::lemma_div_non_zero(n as int, threads as int);
                } else {
                    lemma_small_mod(n as nat, threads as nat);
                }
            }
        }
        let mut acc = Fp::zero();
        let mut start: usize = 0;
        while start < n
            invariant
                n == poly@.len(),
                threads >= 1,
                n >= 1 ==> chunk_size >= 1,
                start <= n,
                start < n ==> chunk_size >= 1,
                0 <= acc@ < P,
                acc@ == poly_eval(views(poly@).subrange(0, start as int), point@) % (P as int),
            decreases n - start,
        {
            let len = if n - start < chunk_size {
                n - start
            } else {
                chunk_size
            };
            let mut chunk: Vec<Fp> = Vec::new();
            let mut i: usize = 0;
            while i < len
                invariant
                    n == poly@.len(),
                    start + len <= n,
                    i <= len,
                    chunk@.len() == i,
                    forall|ii: int| 0 <= ii < i ==> chunk@[ii] == poly@[start + ii],
                decreases len - i,
            {
                chunk.push(poly[start + i]);
                i = i + 1;
            }
            let part = eval_serial(&chunk, point);
            let scale = point.pow(start as u64);
            let next = acc.add(part.mul(scale));
            proof {
                let whole = views(poly@);
                let pre = whole.subrange(0, start as int);
                let mid = whole.subrange(start as int, start as int + len as int);
                assert(views(chunk@) =~= mid);
                assert(pre + mid =~= whole.subrange(0, start as int + len as int));
                lemma_poly_eval_append(pre, mid, point@);
                // next@ == fadd(acc, fmul(part, scale));
                // the lemma speaks of fadd(eval(pre), fmul(pow, eval(mid)))
                lemma_fmul_comm(poly_eval(mid, point@) % (P as int), fpow(point@, start as nat));
                lemma_fmul_noop(poly_eval(mid, point@), fpow(point@, start as nat));
                lemma_fmul_comm(poly_eval(mid, point@), fpow(point@, start as nat));
                lemma_fadd_noop(poly_eval(pre, point@), fmul(fpow(point@, start as nat), poly_eval(mid, point@)));
                lemma_mod_twice(poly_eval(pre + mid, point@), P as int);
            }
            acc = next;
            start = start + len;
        }
        proof {
            assert(views(poly@).subrange(0, n as int) =~= views(poly@));
        }
        acc
    }
}

/// Computes the inner product of the two coefficient vectors.
///
/// The two vectors must have the same length, as the dimensions of an
/// inner product require.
pub fn compute_inner_product(a: &Vec<Fp>, b: &Vec<Fp>) -> (r: Fp)
    requires
        a@.len() == b@.len(),
    ensures
        r@ == inner_prod(views(a@), views(b@)),
        0 <= r@ < P,
{
    let mut acc = Fp::zero();
    let mut i: usize = 0;
    proof {
        assert(views(a@).subrange(0, 0) =~= Seq::<int>::empty());
        lemma_small_mod(0nat, P as nat);
        if a@.len() == 0 {
            assert(views(a@).subrange(0, 0) =~= views(a@));
            assert(views(b@).subrange(0, 0) =~= views(b@));
        }
    }
    while i < a.len()
        invariant
            a@.len() == b@.len(),
            i <= a@.len(),
            0 <= acc@ < P,
            i == 0 ==> acc@ == 0,
            i > 0 ==> acc@ == inner_prod(
                views(a@).subrange(0, i as int),
                views(b@).subrange(0, i as int),
            ),
        decreases a@.len() - i,
    {
        let term = a[i].mul(b[i]);
        let next = acc.add(term);
        proof {
            let sa = views(a@).subrange(0, i as int + 1);
            let sb = views(b@).subrange(0, i as int + 1);
            assert(sa.drop_last() =~= views(a@).subrange(0, i as int));
            assert(sb.drop_last() =~= views(b@).subrange(0, i as int));
            assert(sa.last() == views(a@)[i as int]);
            assert(sb.last() == views(b@)[i as int]);
            if i == 0 {
                assert(inner_prod(sa.drop_last(), sb.drop_last()) == 0);
            }
        }
        acc = next;
        i = i + 1;
    }
    proof {
        if a@.len() > 0 {
            assert(views(a@).subrange(0, a@.len() as int) =~= views(a@));
            assert(views(b@).subrange(0, b@.len() as int) =~= views(b@));
        }
    }
    acc
}

/// Coefficient `i` of the quotient of `a` by `X - b`, as the reverse
/// synthetic-division sweep defines it: the top coefficient of the
/// quotient is the top coefficient of `a`, and each lower one is
/// `a[i + 1] + b * q[i + 1]`.
pub open spec fn kate_coeff(a: Seq<int>, b: int, i: int) -> int
    decreases a.len() - i,
{
    if i < 0 || i + 2 > a.len() {
        0
    } else if i + 2 == a.len() {
        a[i + 1] % (P as int)
    } else {
        fadd(a[i + 1], fmul(b, kate_coeff(a, b, i + 1)))
    }
}

/// Divides the polynomial `a` by `X - b`, assuming the remainder is
/// zero. The quotient is one coefficient shorter; whether `a` really
/// vanishes at `b` is the caller's obligation and is not checked.
pub fn kate_division(a: &Vec<Fp>, b: Fp) -> (q: Vec<Fp>)
    requires
        a@.len() >= 1,
    ensures
        q@.len() == a@.len() - 1,
        forall|i: int| 0 <= i < q@.len() ==> (#[trigger] q@[i])@ == kate_coeff(views(a@), b@, i),
{
    let n = a.len();
    let bneg = b.neg();
    let mut q: Vec<Fp> = Vec::new();
    let mut fill: usize = 0;
    while fill < n - 1
        invariant
            n >= 1,
            fill <= n - 1,
            q@.len() == fill,
        decreases n - 1 - fill,
    {
        q.push(Fp::zero());
        fill = fill + 1;
    }
    let mut tmp = Fp::zero();
    let mut i: usize = n - 1;
    while i > 0
        invariant
            n == a@.len(),
            n >= 1,
            i <= n - 1,
            q@.len() == n - 1,
            bneg@ == fneg(b@),
            0 <= tmp@ < P,
            forall|j: int| i <= j < n - 1 ==> (#[trigger] q@[j])@ == kate_coeff(views(a@), b@, j),
            tmp@ == if i == n - 1 {
                0
            } else {
                fmul(kate_coeff(views(a@), b@, i as int), fneg(b@))
            },
        decreases i,
    {
        i = i - 1;
        let ai = a[i + 1];
        let lead = ai.sub(tmp);
        proof {
            let av = views(a@);
            if i + 1 == n - 1 {
            } else {
                let kc = kate_coeff(av, b@, i as int + 1);
                assert(tmp@ == fmul(kc, fneg(b@)));
                lemma_fmul_comm(kc, fneg(b@));
                lemma_fneg_mul(b@, kc);
                assert(fmul(b@, kc) == fmul(b@, kc) % (P as int)) by {
                    lemma_mod_twice(b@ * kc, P as int);
                }
                vstd::arithmetic::div_mod::lemma_mod_bound(b@ * kc, P as int);
                lemma_fsub_fneg(av[i as int + 1], fmul(b@, kc));
            }
        }
        q.set(i, lead);
        tmp = lead.mul(bneg);
    }
    q
}

/// Synthetic division is exact: dividing the product `(X - b) * q`
/// by `X - b` returns precisely `q`, coefficient for coefficient.
///
/// The product polynomial is given through its coefficients:
/// `p[i] == q[i - 1] - b * q[i]`, reading a coefficient outside `q`
/// as zero.
pub proof fn lemma_kate_division_exact(prod: Seq<int>, q: Seq<int>, b: int, i: int)
    requires
        prod.len() == q.len() + 1,
        q.len() >= 1,
        forall|k: int| 0 <= k < q.len() ==> 0 <= #[trigger] q[k] < P,
        forall|k: int|
            0 <= k < prod.len() ==> #[trigger] prod[k] == fsub(
                if 1 <= k <= q.len() {
                    q[k - 1]
                } else {
                    0
                },
                if 0 <= k < q.len() {
                    fmul(b, q[k])
                } else {
                    0
                },
            ),
        0 <= i < q.len(),
    ensures
        kate_coeff(prod, b, i) == q[i],
    decreases q.len() - i,
{
    let p = P as int;
    if i + 2 == prod.len() {
        assert(prod[i + 1] == fsub(q[i], 0));
        lemma_small_mod(q[i] as nat, P as nat);
        lemma_mod_twice(q[i], p);
    } else {
        lemma_kate_division_exact(prod, q, b, i + 1);
        assert(prod[i + 1] == fsub(q[i], fmul(b, q[i + 1])));
        lemma_fadd_fsub_cancel(q[i], fmul(b, q[i + 1]));
        lemma_small_mod(q[i] as nat, P as nat);
    }
}

/// The vanishing value is always a reduced residue.
pub proof fn lemma_vanishing_bound(roots: Seq<int>, z: int)
    ensures
        0 <= vanishing_eval(roots, z) < P,
{
    if roots.len() == 0 {
    } else {
        vstd::arithmetic::div_mod::lemma_mod_bound(
            fsub(z, roots.last()) * vanishing_eval(roots.drop_last(), z),
            P as int,
        );
    }
}

/// Splitting the root set splits the vanishing value into a product.
pub proof fn lemma_vanishing_append(a: Seq<int>, b: Seq<int>, z: int)
    ensures
        vanishing_eval(a + b, z) == fmul(vanishing_eval(a, z), vanishing_eval(b, z)),
    decreases b.len(),
{
    let p = P as int;
    let va = vanishing_eval(a, z);
    lemma_vanishing_bound(a, z);
    if b.len() == 0 {
        assert(a + b =~= a);
        lemma_small_mod(va as nat, P as nat);
        assert(va * 1 == va);
    } else {
        lemma_vanishing_append(a, b.drop_last(), z);
        assert((a + b).drop_last() =~= a + b.drop_last());
        assert((a + b).last() == b.last());
        let s = fsub(z, b.last());
        let w = vanishing_eval(b.drop_last(), z);
        // fmul(s, fmul(va, w)) == fmul(va, fmul(s, w))
        lemma_fmul_assoc(s, va, w);
        lemma_fmul_comm(s, va);
        lemma_fmul_assoc(va, s, w);
    }
}

/// Product of `z - root` over a full root vector.
fn vanishing_serial(roots: &Vec<Fp>, z: Fp) -> (r: Fp)
    ensures
        r@ == vanishing_eval(views(roots@), z@),
        0 <= r@ < P,
{
    let n = roots.len();
    let mut acc = Fp::one();
    let mut i: usize = 0;
    proof {
        assert(views(roots@).subrange(0, 0) =~= Seq::<int>::empty());
    }
    while i < n
        invariant
            n == roots@.len(),
            i <= n,
            0 <= acc@ < P,
            acc@ == vanishing_eval(views(roots@).subrange(0, i as int), z@),
        decreases n - i,
    {
        let term = z.sub(roots[i]);
        let next = term.mul(acc);
        proof {
            let s = views(roots@).subrange(0, i as int + 1);
            assert(s.drop_last() =~= views(roots@).subrange(0, i as int));
            assert(s.last() == views(roots@)[i as int]);
        }
        acc = next;
        i = i + 1;
    }
    proof {
        assert(views(roots@).subrange(0, n as int) =~= views(roots@));
    }
    acc
}

/// Evaluates the vanishing polynomial of `roots` at `z`: the product
/// of `z - root` over all roots, one for an empty root set.
///
/// Long root vectors are split into `threads` contiguous blocks whose
/// partial products are multiplied together, the same chunk-and-fold
/// shape as `eval_polynomial`.
pub fn evaluate_vanishing_polynomial(roots: &Vec<Fp>, z: Fp, threads: usize) -> (r: Fp)
    requires
        threads >= 1,
    ensures
        r@ == vanishing_eval(views(roots@), z@),
        0 <= r@ < P,
{
    let n = roots.len();
    if (n as u128) * 2 < threads as u128 {
        vanishing_serial(roots, z)
    } else {
        let q = n / threads;
        let chunk_size = if n % threads != 0 {
            proof {
                if threads == 1 {
                    vstd::arithmetic::div_mod::lemma_mod_bound(n as int, 1);
                }
                vstd::arithmetic::div_mod::lemma_div_is_strictly_smaller(n as int, threads as int);
            }
            q + 1
        } else {
            q
        };
        proof {
            assert(views(roots@).subrange(0, 0) =~= Seq::<int>::empty());
            if n >= 1 {
                if n >= threads {
                    vstd::arithmetic::div_mod::lemma_div_non_zero(n as int, threads as int);
                } else {
                    lemma_small_mod(n as nat, threads as nat);
                }
            }
        }
        let mut acc = Fp::one();
        let mut start: usize = 0;
        while start < n
            invariant
                n == roots@.len(),
                threads >= 1,
                start <= n,
                start < n ==> chunk_size >= 1,
                0 <= acc@ < P,
                acc@ == vanishing_eval(views(roots@).subrange(0, start as int), z@),
            decreases n - start,
        {
            let len = if n - start < chunk_size {
                n - start
            } else {
                chunk_size
            };
            let mut chunk: Vec<Fp> = Vec::new();
            let mut i: usize = 0;
            while i < len
                invariant
                    n == roots@.len(),
                    start + len <= n,
                    i <= len,
                    chunk@.len() == i,
                    forall|ii: int| 0 <= ii < i ==> chunk@[ii] == roots@[start + ii],
                decreases len - i,
            {
                chunk.push(roots[start + i]);
                i = i + 1;
            }
            let part = vanishing_serial(&chunk, z);
            let next = acc.mul(part);
            proof {
                let whole = views(roots@);
                let pre = whole.subrange(0, start as int);
                let mid = whole.subrange(start as int, start as int + len as int);
                assert(views(chunk@) =~= mid);
                assert(pre + mid =~= whole.subrange(0, start as int + len as int));
                lemma_vanishing_append(pre, mid, z@);
            }
            acc = next;
            start = start + len;
        }
        proof {
            assert(views(roots@).subrange(0, n as int) =~= views(roots@));
        }
        acc
    }
}

/// The failure of Lagrange interpolation: two coincident evaluation
/// points make a denominator zero.
#[derive(Clone, Copy, PartialEq, Eq, Structural, Debug)]
pub enum InterpolationError {
    DegenerateInput,
}

/// A coefficient, reading an index outside the sequence as zero.
pub open spec fn seq_get(c: Seq<int>, i: int) -> int {
    if 0 <= i < c.len() {
        c[i]
    } else {
        0
    }
}

/// Multiplication of a polynomial by the scaled linear factor
/// `d * (X - xk)`: coefficient `i` of the product is
/// `c[i] * (-d * xk) + c[i - 1] * d`.
pub open spec fn lin_step(c: Seq<int>, d: int, xk: int) -> Seq<int> {
    Seq::new(
        (c.len() + 1) as nat,
        |i: int| fadd(fmul(seq_get(c, i), fneg(fmul(d, xk))), fmul(seq_get(c, i - 1), d)),
    )
}

/// The index of the `m`-th point when point `j` is skipped.
pub open spec fn skip_idx(j: int, m: int) -> int {
    if m < j {
        m
    } else {
        m + 1
    }
}

/// The partial Lagrange basis polynomial for index `j`: the product of
/// `(X - x_k) / (x_j - x_k)` over `k < upto`, `k != j`, built by
/// repeated multiplication with a scaled linear factor.
pub open spec fn basis_upto(points: Seq<int>, j: int, upto: int) -> Seq<int>
    decreases upto,
{
    if upto <= 0 {
        seq![1int]
    } else if upto - 1 == j {
        basis_upto(points, j, upto - 1)
    } else {
        lin_step(
            basis_upto(points, j, upto - 1),
            finv(fsub(points[j], points[upto - 1])),
            points[upto - 1],
        )
    }
}

/// The full Lagrange basis polynomial for index `j`.
pub open spec fn lagrange_basis(points: Seq<int>, j: int) -> Seq<int> {
    basis_upto(points, j, points.len() as int)
}

/// Coefficient `i` of the interpolation sum over the first `jmax`
/// basis polynomials, each scaled by its evaluation.
pub open spec fn lagrange_partial(points: Seq<int>, evals: Seq<int>, i: int, jmax: int) -> int
    decreases jmax,
{
    if jmax <= 0 {
        0
    } else {
        fadd(
            lagrange_partial(points, evals, i, jmax - 1),
            fmul(seq_get(lagrange_basis(points, jmax - 1), i), evals[jmax - 1]),
        )
    }
}

/// The basis polynomial over `n` points has exactly `n` coefficients.
proof fn lemma_basis_upto_len(points: Seq<int>, j: int, upto: int)
    requires
        0 <= j,
    ensures
        basis_upto(points, j, upto).len() == 1 + (if upto <= 0 {
            0
        } else if j < upto {
            upto - 1
        } else {
            upto
        }),
    decreases upto,
{
    if upto > 0 {
        lemma_basis_upto_len(points, j, upto - 1);
    }
}

/// Returns the coefficients of the polynomial of degree below `n`
/// through the `n` given points with the given evaluations: for each
/// index, the product of `(X - x_k) * (x_j - x_k)^(-1)` over the other
/// points, scaled by the evaluation there, summed up. The denominators
/// are inverted together in one batch inversion. Two coincident points
/// are reported as `DegenerateInput`, and interpolation succeeds
/// exactly when all points are pairwise distinct.
pub fn lagrange_interpolate(points: &Vec<Fp>, evals: &Vec<Fp>) -> (r: Result<
    Vec<Fp>,
    InterpolationError,
>)
    requires
        points@.len() == evals@.len(),
    ensures
        r is Ok <==> (forall|j: int, k: int|
            0 <= j < k < points@.len() ==> (#[trigger] points@[j])@ != (#[trigger] points@[k])@),
        r is Ok ==> r.unwrap()@.len() == points@.len(),
        r is Ok && points@.len() == 1 ==> r.unwrap()@[0]@ == evals@[0]@,
        r is Ok && points@.len() != 1 ==> (forall|i: int|
            0 <= i < points@.len() ==> (#[trigger] r.unwrap()@[i])@ == lagrange_partial(
                views(points@),
                views(evals@),
                i,
                points@.len() as int,
            )),
{
    let n = points.len();
    let _rp = crate::field::all_reduced(points);
    let _re = crate::field::all_reduced(evals);
    let ghost pv = views(points@);
    let ghost ev = views(evals@);
    if n == 0 {
        let r: Vec<Fp> = Vec::new();
        return Ok(r);
    }
    if n == 1 {
        let r = vec![evals[0]];
        return Ok(r);
    }
    let mut denoms: Vec<Fp> = Vec::new();
    let mut j: usize = 0;
    while j < n
        invariant
            n == points@.len(),
            points@.len() == evals@.len(),
            pv == views(points@),
            n != 1,
            forall|t: int| 0 <= t < n ==> 0 <= (#[trigger] pv[t]) < P,
            j <= n,
            denoms@.len() == j * (n - 1),
            forall|jj: int, mm: int|
                #![trigger denoms@[jj * (n - 1) + mm]]
                0 <= jj < j && 0 <= mm < n - 1 ==> denoms@[jj * (n - 1) + mm]@ == fsub(
                    pv[jj],
                    pv[skip_idx(jj, mm)],
                ),
        decreases n - j,
    {
        let mut m: usize = 0;
        proof {
            assert(j * (n - 1) + (n - 1) == (j + 1) * (n - 1)) by (nonlinear_arith);
            assert(j * (n - 1) >= 0) by (nonlinear_arith)
                requires
                    j >= 0,
                    n >= 1,
            ;
        }
        while m < n - 1
            invariant
                n == points@.len(),
                points@.len() == evals@.len(),
                pv == views(points@),
                n != 1,
                forall|t: int| 0 <= t < n ==> 0 <= (#[trigger] pv[t]) < P,
                j < n,
                m <= n - 1,
                denoms@.len() == j * (n - 1) + m,
                forall|jj: int, mm: int|
                    #![trigger denoms@[jj * (n - 1) + mm]]
                    0 <= jj < j && 0 <= mm < n - 1 ==> denoms@[jj * (n - 1) + mm]@ == fsub(
                        pv[jj],
                        pv[skip_idx(jj, mm)],
                    ),
                forall|mm: int|
                    #![trigger denoms@[j * (n - 1) + mm]]
                    0 <= mm < m ==> denoms@[j * (n - 1) + mm]@ == fsub(
                        pv[j as int],
                        pv[skip_idx(j as int, mm)],
                    ),
        decreases n - 1 - m,
    {
            let k = if m < j {
                m
            } else {
                m + 1
            };
            let d = points[j].sub(points[k]);
            proof {
                assert(forall|jj: int, mm: int|
                    0 <= jj < j && 0 <= mm < n - 1 ==> 0 <= #[trigger] (jj * (n - 1) + mm) < j * (
                    n - 1)) by (nonlinear_arith)
                    requires
                        n >= 1,
                ;
            }
            denoms.push(d);
            m = m + 1;
        }
        proof {
            assert forall|jj: int, mm: int|
                #![trigger denoms@[jj * (n - 1) + mm]]
                0 <= jj < j + 1 && 0 <= mm < n - 1 implies denoms@[jj * (n - 1) + mm]@ == fsub(
                pv[jj],
                pv[skip_idx(jj, mm)],
            ) by {
                if jj == j as int {
                    assert(denoms@[j as int * (n - 1) + mm]@ == fsub(
                        pv[j as int],
                        pv[skip_idx(j as int, mm)],
                    ));
                }
            }
        }
        j = j + 1;
    }
    let ghost dpre = denoms@;
    let ghost denom_orig = views(denoms@);
    let dlen = denoms.len();
    proof {
        assert forall|jj: int, mm: int|
            0 <= jj < n && 0 <= mm < n - 1 implies #[trigger] denom_orig[jj * (n - 1) + mm]
            == fsub(pv[jj], pv[skip_idx(jj, mm)]) by {
            assert(denoms@[jj * (n - 1) + mm]@ == fsub(pv[jj], pv[skip_idx(jj, mm)]));
            assert(jj * (n - 1) + mm >= 0) by (nonlinear_arith)
                requires
                    jj >= 0,
                    mm >= 0,
                    n >= 2,
            ;
            assert(jj * (n - 1) + mm < n * (n - 1)) by (nonlinear_arith)
                requires
                    0 <= jj < n,
                    0 <= mm < n - 1,
                    n >= 2,
            ;
        }
    }
    let ok = crate::field::batch_invert(&mut denoms);
    if !ok {
        proof {
            assert(!(forall|i: int| 0 <= i < dpre.len() ==> (#[trigger] dpre[i])@ != 0));
            let i = choose|i: int| 0 <= i < dpre.len() && !((#[trigger] dpre[i])@ != 0);
            assert(dpre[i]@ == 0);
            assert(denom_orig[i] == 0);
            let jj = i / (n - 1);
            let mm = i % (n - 1);
            vstd::arithmetic::div_mod::lemma_fundamental_div_mod(i, n as int - 1);
            vstd::arithmetic::div_mod::lemma_mod_bound(i, n as int - 1);
            vstd::arithmetic::div_mod::lemma_div_pos_is_pos(i, n as int - 1);
            assert(jj < n) by (nonlinear_arith)
                requires
                    i == jj * (n - 1) + mm,
                    i < n * (n - 1),
                    0 <= mm < n - 1,
                    jj >= 0,
                    n >= 2,
            ;
            assert(denom_orig[jj * (n - 1) + mm] == 0);
            let kk = skip_idx(jj, mm);
            crate::field::lemma_fsub_zero(pv[jj], pv[kk]);
            if jj < kk {
                assert(points@[jj]@ == points@[kk]@);
            } else {
                assert(points@[kk]@ == points@[jj]@);
            }
        }
        return Err(InterpolationError::DegenerateInput);
    }
    proof {
        // success: every denominator was nonzero, so all points are distinct
        assert forall|j2: int, k2: int| 0 <= j2 < k2 < n implies (#[trigger] points@[j2])@ != (
        #[trigger] points@[k2])@ by {
            let mm = k2 - 1;
            assert(skip_idx(j2, mm) == k2);
            assert(j2 * (n - 1) + mm < n * (n - 1)) by (nonlinear_arith)
                requires
                    0 <= j2 < n,
                    0 <= mm < n - 1,
                    n >= 2,
            ;
            assert(j2 * (n - 1) + mm >= 0) by (nonlinear_arith)
                requires
                    0 <= j2,
                    0 <= mm,
                    n >= 2,
            ;
            assert(denom_orig[j2 * (n - 1) + mm] != 0);
            crate::field::lemma_fsub_zero(pv[j2], pv[k2]);
        }
    }
    let mut final_poly: Vec<Fp> = Vec::new();
    let mut f: usize = 0;
    while f < n
        invariant
            f <= n,
            final_poly@.len() == f,
            forall|i: int| 0 <= i < f ==> (#[trigger] final_poly@[i])@ == 0,
        decreases n - f,
    {
        final_poly.push(Fp::zero());
        f = f + 1;
    }
    let mut j: usize = 0;
    let mut flat: usize = 0;
    proof {
        assert forall|i: int| 0 <= i < n implies lagrange_partial(pv, ev, i, 0) == 0 by {}
    }
    while j < n
        invariant
            n == points@.len(),
            points@.len() == evals@.len(),
            pv == views(points@),
            ev == views(evals@),
            n >= 2,
            forall|t: int| 0 <= t < n ==> 0 <= (#[trigger] pv[t]) < P,
            denoms@.len() == n * (n - 1),
            denom_orig.len() == n * (n - 1),
            forall|jj: int, mm: int|
                #![trigger denom_orig[jj * (n - 1) + mm]]
                0 <= jj < n && 0 <= mm < n - 1 ==> denom_orig[jj * (n - 1) + mm] == fsub(
                    pv[jj],
                    pv[skip_idx(jj, mm)],
                ),
            forall|i: int|
                0 <= i < denom_orig.len() ==> crate::field::is_inv_of(
                    denom_orig[i],
                    (#[trigger] denoms@[i])@,
                ),
            j <= n,
            flat == j * (n - 1),
            dlen == denoms@.len(),
            final_poly@.len() == n,
            forall|i: int|
                0 <= i < n ==> (#[trigger] final_poly@[i])@ == lagrange_partial(
                    pv,
                    ev,
                    i,
                    j as int,
                ),
        decreases n - j,
    {
        let mut tmp: Vec<Fp> = Vec::new();
        tmp.push(Fp::one());
        proof {
            assert(views(tmp@) =~= basis_upto(pv, j as int, 0));
            assert(j * (n - 1) + (n - 1) == (j + 1) * (n - 1)) by (nonlinear_arith);
            assert((j + 1) * (n - 1) <= n * (n - 1)) by (nonlinear_arith)
                requires
                    j < n,
                    n >= 2,
            ;
            assert(j * (n - 1) >= 0) by (nonlinear_arith)
                requires
                    j >= 0,
                    n >= 2,
            ;
        }
        let mut k: usize = 0;
        let mut m: usize = 0;
        while k < n
            invariant
                n == points@.len(),
                points@.len() == evals@.len(),
                pv == views(points@),
                n >= 2,
                forall|t: int| 0 <= t < n ==> 0 <= (#[trigger] pv[t]) < P,
                denoms@.len() == n * (n - 1),
                denom_orig.len() == n * (n - 1),
                forall|jj: int, mm: int|
                    #![trigger denom_orig[jj * (n - 1) + mm]]
                    0 <= jj < n && 0 <= mm < n - 1 ==> denom_orig[jj * (n - 1) + mm] == fsub(
                        pv[jj],
                        pv[skip_idx(jj, mm)],
                    ),
                forall|i: int|
                    0 <= i < denom_orig.len() ==> crate::field::is_inv_of(
                        denom_orig[i],
                        (#[trigger] denoms@[i])@,
                    ),
                j < n,
                k <= n,
                m == k - (if (j as int) < k { 1int } else { 0int }),
                flat == j * (n - 1),
                flat + (n - 1) <= n * (n - 1),
                dlen == denoms@.len(),
                denoms@.len() == n * (n - 1),
                n * (n - 1) <= usize::MAX,
                views(tmp@) == basis_upto(pv, j as int, k as int),
            decreases n - k,
        {
            if k != j {
                proof {
                    assert(m < n - 1);
                    assert(flat + m < n * (n - 1));
                    assert(skip_idx(j as int, m as int) == k);
                    assert(denom_orig[j as int * (n - 1) + m] == fsub(pv[j as int], pv[k as int]));
                }
                let d = denoms[flat + m];
                proof {
                    crate::field::lemma_finv_agrees(fsub(pv[j as int], pv[k as int]), d@);
                }
                let neg_dxk = d.mul(points[k]).neg();
                let mut product: Vec<Fp> = Vec::new();
                let tlen = tmp.len();
                proof {
                    lemma_basis_upto_len(pv, j as int, k as int);
                    assert(n < usize::MAX) by (nonlinear_arith)
                        requires
                            n >= 2,
                            n * (n - 1) <= usize::MAX,
                    ;
                }
                let mut i: usize = 0;
                while i < tlen + 1
                    invariant
                        tlen == tmp@.len(),
                        tlen < usize::MAX,
                        i <= tlen + 1,
                        product@.len() == i,
                        neg_dxk@ == fneg(fmul(d@, pv[k as int])),
                        d@ == finv(fsub(pv[j as int], pv[k as int])),
                        pv == views(points@),
                        k < points@.len(),
                        forall|ii: int|
                            0 <= ii < i ==> (#[trigger] product@[ii])@ == fadd(
                                fmul(seq_get(views(tmp@), ii), fneg(fmul(d@, pv[k as int]))),
                                fmul(seq_get(views(tmp@), ii - 1), d@),
                            ),
                    decreases tlen + 1 - i,
                {
                    let a = if i < tlen {
                        tmp[i]
                    } else {
                        Fp::zero()
                    };
                    let b = if i >= 1 {
                        tmp[i - 1]
                    } else {
                        Fp::zero()
                    };
                    let coeff = a.mul(neg_dxk).add(b.mul(d));
                    proof {
                        if i < tlen {
                            assert(seq_get(views(tmp@), i as int) == tmp@[i as int]@);
                        }
                        if i >= 1 {
                            assert(seq_get(views(tmp@), i as int - 1) == tmp@[i as int - 1]@);
                        }
                    }
                    product.push(coeff);
                    i = i + 1;
                }
                proof {
                    assert(views(product@) =~= lin_step(views(tmp@), d@, pv[k as int]));
                }
                tmp = product;
                m = m + 1;
            }
            k = k + 1;
        }
        proof {
            lemma_basis_upto_len(pv, j as int, n as int);
            assert(views(tmp@).len() == n);
            assert(tmp@.len() == n);
        }
        let ej = evals[j];
        let mut i: usize = 0;
        while i < n
            invariant
                n == points@.len(),
                points@.len() == evals@.len(),
                pv == views(points@),
                ev == views(evals@),
                j < n,
                i <= n,
                ej == evals@[j as int],
                final_poly@.len() == n,
                tmp@.len() == n,
                views(tmp@) == lagrange_basis(pv, j as int),
                forall|ii: int|
                    0 <= ii < i ==> (#[trigger] final_poly@[ii])@ == lagrange_partial(
                        pv,
                        ev,
                        ii,
                        j as int + 1,
                    ),
                forall|ii: int|
                    i <= ii < n ==> (#[trigger] final_poly@[ii])@ == lagrange_partial(
                        pv,
                        ev,
                        ii,
                        j as int,
                    ),
            decreases n - i,
        {
            let updated = final_poly[i].add(tmp[i].mul(ej));
            proof {
                assert(seq_get(lagrange_basis(pv, j as int), i as int) == tmp@[i as int]@);
            }
            final_poly.set(i, updated);
            i = i + 1;
        }
        flat = flat + (n - 1);
        j = j + 1;
    }
    Ok(final_poly)
}

} // verus!
