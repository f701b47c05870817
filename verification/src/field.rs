//! The scalar field: integers modulo the prime `P = 257 = 2^8 + 1`.
//!
//! The modulus is NTT-friendly: its multiplicative group is cyclic of
//! order `2^8`, so roots of unity of order `2^k` exist for every
//! `k <= 8`, which is what the radix-2 transform in `fft` needs.

use vstd::prelude::*;
use vstd::arithmetic::div_mod::*;
use vstd::arithmetic::power::pow;
use vstd::arithmetic::power::lemma_pow_multiplies;
use vstd::arithmetic::power::lemma_pow_mod_noop;
use vstd::arithmetic::power::lemma_pow_adds;
use vstd::arithmetic::mul::lemma_mul_is_associative;
use vstd::arithmetic::mul::lemma_mul_is_commutative;
use vstd::arithmetic::mul::lemma_mul_is_distributive_add;
use vstd::arithmetic::mul::lemma_mul_is_distributive_sub;
use vstd::arithmetic::mul::lemma_mul_is_distributive_sub_other_way;

verus! {

/// The field modulus.
pub const P: u64 = 257;

/// How many bits the canonical encoding of an element can carry.
pub const NUM_BITS: u32 = 9;

/// The two-adicity of the multiplicative group: `P - 1 == 2^S`.
pub const S: u32 = 8;

/// A generator of the multiplicative group, of order `2^S`.
pub const ROOT_OF_UNITY: u64 = 3;

/// The inverse of `ROOT_OF_UNITY`: `3 * 86 == 258 == P + 1`.
pub const ROOT_OF_UNITY_INV: u64 = 86;

/// The inverse of two: `2 * 129 == 258 == P + 1`.
pub const TWO_INV: u64 = 129;

/// Residue addition modulo `P`.
pub open spec fn fadd(a: int, b: int) -> int {
    (a + b) % (P as int)
}

/// Residue subtraction modulo `P`.
pub open spec fn fsub(a: int, b: int) -> int {
    (a - b) % (P as int)
}

/// Residue multiplication modulo `P`.
pub open spec fn fmul(a: int, b: int) -> int {
    (a * b) % (P as int)
}

/// Residue negation modulo `P`.
pub open spec fn fneg(a: int) -> int {
    (P as int - a) % (P as int)
}

/// Residue exponentiation: `b^e` reduced modulo `P`.
pub open spec fn fpow(b: int, e: nat) -> int {
    pow(b, e) % (P as int)
}

/// `r` is the multiplicative inverse of `a` modulo `P`.
pub open spec fn is_inv_of(a: int, r: int) -> bool {
    0 <= r < P && fmul(a, r) == 1
}

/// The multiplicative inverse of `a` modulo `P`, where one exists.
pub open spec fn finv(a: int) -> int {
    choose|r: int| is_inv_of(a, r)
}

/// Reducing either factor modulo `P` does not change a residue product.
pub proof fn lemma_fmul_noop(a: int, b: int)
    ensures
        fmul(a % (P as int), b) == fmul(a, b),
        fmul(a, b % (P as int)) == fmul(a, b),
{
    lemma_mul_mod_noop_general(a, b, P as int);
}

/// Residue addition is commutative.
pub proof fn lemma_fadd_comm(a: int, b: int)
    ensures
        fadd(a, b) == fadd(b, a),
{
}

/// Residue multiplication is commutative.
pub proof fn lemma_fmul_comm(a: int, b: int)
    ensures
        fmul(a, b) == fmul(b, a),
{
    lemma_mul_is_commutative(a, b);
}

/// Residue multiplication is associative.
pub proof fn lemma_fmul_assoc(a: int, b: int, c: int)
    ensures
        fmul(fmul(a, b), c) == fmul(a, fmul(b, c)),
{
    let p = P as int;
    lemma_mul_mod_noop_general(a * b, c, p);
    lemma_mul_is_associative(a, b, c);
    lemma_mul_mod_noop_general(a, b * c, p);
}

/// Reducing either summand modulo `P` does not change a residue sum.
pub proof fn lemma_fadd_noop(a: int, b: int)
    ensures
        fadd(a % (P as int), b) == fadd(a, b),
        fadd(a, b % (P as int)) == fadd(a, b),
{
    lemma_add_mod_noop(a % (P as int), b, P as int);
    lemma_add_mod_noop(a, b, P as int);
    lemma_add_mod_noop(a, b % (P as int), P as int);
    lemma_mod_twice(a, P as int);
    lemma_mod_twice(b, P as int);
}

/// Residue addition is associative.
pub proof fn lemma_fadd_assoc(a: int, b: int, c: int)
    ensures
        fadd(fadd(a, b), c) == fadd(a, fadd(b, c)),
{
    lemma_fadd_noop(a + b, c);
    lemma_fadd_noop(a, b + c);
}

/// Residue multiplication distributes over residue addition.
pub proof fn lemma_fmul_distributes(a: int, b: int, c: int)
    ensures
        fmul(a, fadd(b, c)) == fadd(fmul(a, b), fmul(a, c)),
{
    let p = P as int;
    lemma_mul_mod_noop_general(a, b + c, p);
    lemma_mul_is_distributive_add(a, b, c);
    lemma_add_mod_noop(a * b, a * c, p);
}

/// Residue multiplication distributes over residue subtraction.
pub proof fn lemma_fmul_distributes_sub(a: int, b: int, c: int)
    ensures
        fmul(a, fsub(b, c)) == fsub(fmul(a, b), fmul(a, c)),
{
    let p = P as int;
    lemma_mul_mod_noop_general(a, b - c, p);
    lemma_mul_is_distributive_sub(a, b, c);
    lemma_sub_mod_noop(a * b, a * c, p);
}

/// Negating a factor negates a residue product.
pub proof fn lemma_fneg_mul(b: int, y: int)
    ensures
        fmul(fneg(b), y) == fneg(fmul(b, y)),
{
    let p = P as int;
    assert(fmul(fneg(b), y) == ((p - b) * y) % p) by {
        lemma_mul_mod_noop_left(p - b, y, p);
    }
    assert((p - b) * y == p * y - b * y) by {
        lemma_mul_is_distributive_sub_other_way(y, p, b);
    }
    assert((p * y + (0 - b * y)) % p == (0 - b * y) % p) by {
        lemma_mod_multiples_vanish(y, 0 - b * y, p);
    }
    assert(fneg(fmul(b, y)) == (0 - ((b * y) % p)) % p) by {
        lemma_mod_add_multiples_vanish(0 - ((b * y) % p), p);
    }
    assert((0 - ((b * y) % p)) % p == (0 - b * y) % p) by {
        lemma_sub_mod_noop_right(0, b * y, p);
    }
}

/// Subtracting a negated residue is adding the residue.
pub proof fn lemma_fsub_fneg(x: int, w: int)
    requires
        0 <= w < P,
    ensures
        fsub(x, fneg(w)) == fadd(x, w),
{
    let p = P as int;
    if w == 0 {
        lemma_mod_self_0(p);
    } else {
        lemma_small_mod((p - w) as nat, P as nat);
        lemma_mod_add_multiples_vanish(x + w - p, p);
    }
}

/// Negation is an involution up to reduction.
pub proof fn lemma_fneg_involution(a: int)
    ensures
        fneg(fneg(a)) == a % (P as int),
{
    let p = P as int;
    lemma_sub_mod_noop_right(p, p - a, p);
    lemma_mod_add_multiples_vanish(a - p, p);
}

/// Multiplying by `P - 1` negates a residue.
pub proof fn lemma_fmul_neg_one(a: int)
    ensures
        fmul(a, (P - 1) as int) == fneg(a),
{
    let p = P as int;
    lemma_mul_is_distributive_sub(a, p, 1);
    lemma_mod_multiples_vanish(a, 0 - a, p);
    lemma_mul_is_commutative(a, p);
    assert(a * (p - 1) == p * a + (0 - a));
    lemma_mod_add_multiples_vanish(0 - a, p);
}

/// Adding a negated residue is subtracting the residue.
pub proof fn lemma_fadd_fneg(a: int, b: int)
    ensures
        fadd(a, fneg(b)) == fsub(a, b),
{
    let p = P as int;
    lemma_add_mod_noop_right(a, p - b, p);
    lemma_mod_add_multiples_vanish(a - b, p);
    lemma_mod_twice(a - b, p);
}

/// A reduced power of a squared base is the power at twice the
/// exponent.
pub proof fn lemma_fpow_of_square(w: int, e: nat)
    ensures
        fpow(fmul(w, w), e) == fpow(w, 2 * e),
{
    let p = P as int;
    lemma_pow_mod_noop(w * w, e, p);
    assert(pow(w, 2nat) == w * w) by {
        vstd::arithmetic::power::lemma_pow1(w);
        lemma_pow_adds(w, 1nat, 1nat);
    }
    lemma_pow_multiplies(w, 2nat, e);
}

/// Reduced powers multiply by adding exponents.
pub proof fn lemma_fpow_add(w: int, a: nat, b: nat)
    ensures
        fmul(fpow(w, a), fpow(w, b)) == fpow(w, a + b),
{
    let p = P as int;
    lemma_mul_mod_noop_general(pow(w, a), pow(w, b), p);
    lemma_pow_adds(w, a, b);
}

/// A reduced power of a reduced power multiplies the exponents.
pub proof fn lemma_fpow_pow(w: int, a: nat, b: nat)
    ensures
        fpow(fpow(w, a), b) == fpow(w, a * b),
{
    let p = P as int;
    lemma_pow_mod_noop(pow(w, a), b, p);
    lemma_pow_multiplies(w, a, b);
}

/// Powers of a product are products of powers, reduced.
pub proof fn lemma_fpow_of_product(a: int, b: int, e: nat)
    ensures
        fpow(fmul(a, b), e) == fmul(fpow(a, e), fpow(b, e)),
{
    let p = P as int;
    lemma_pow_mod_noop(a * b, e, p);
    vstd::arithmetic::power::lemma_pow_distributes(a, b, e);
    lemma_mul_mod_noop_general(pow(a, e), pow(b, e), p);
}

/// Powers of mutually inverse elements cancel, exponent by exponent.
pub proof fn lemma_fpow_cancel(w: int, winv: int, e: nat)
    requires
        fmul(w, winv) == 1,
    ensures
        fmul(fpow(w, e), fpow(winv, e)) == 1,
{
    let p = P as int;
    lemma_fpow_of_product(w, winv, e);
    assert(fpow(fmul(w, winv), e) == 1) by {
        assert(pow(1, e) == 1) by {
            vstd::arithmetic::power::lemma1_pow(e);
        }
        lemma_pow_mod_noop(1, e, p);
        lemma_small_mod(1nat, P as nat);
    }
}

/// Rearranging a double residue sum: `(a + b) + (c + d) == (a + c) + (b + d)`.
pub proof fn lemma_fadd_rearrange(a: int, b: int, c: int, d: int)
    ensures
        fadd(fadd(a, b), fadd(c, d)) == fadd(fadd(a, c), fadd(b, d)),
{
    lemma_fadd_noop(a + b, c + d);
    lemma_fadd_noop((a + b) % (P as int), c + d);
    lemma_fadd_noop(a + c, b + d);
    lemma_fadd_noop((a + c) % (P as int), b + d);
}

/// A reduced power is a reduced residue.
pub proof fn lemma_fpow_range(w: int, e: nat)
    ensures
        0 <= fpow(w, e) < P,
{
    lemma_mod_bound(pow(w, e), P as int);
}

/// Two reduced residues subtract to zero exactly when they are equal.
pub proof fn lemma_fsub_zero(a: int, b: int)
    requires
        0 <= a < P,
        0 <= b < P,
    ensures
        fsub(a, b) == 0 <==> a == b,
{
    if a >= b {
        lemma_small_mod((a - b) as nat, P as nat);
    } else {
        lemma_fundamental_div_mod_converse_mod(a - b, P as int, -1, a - b + P);
    }
}

/// Adding back what was subtracted restores the residue.
pub proof fn lemma_fadd_fsub_cancel(x: int, w: int)
    ensures
        fadd(fsub(x, w), w) == x % (P as int),
{
    let p = P as int;
    lemma_add_mod_noop_right((x - w) % p, w, p);
    lemma_add_mod_noop(x - w, w, p);
    lemma_mod_twice(x - w, p);
}

/// `d` divides `n` exactly.
pub open spec fn divides(d: int, n: int) -> bool
    recommends
        d != 0,
{
    n % d == 0
}

/// No `d` with `lo <= d < hi` divides `n`.
spec fn no_factor_in(n: int, lo: int, hi: int) -> bool
    decreases hi - lo,
{
    if lo >= hi {
        true
    } else {
        n % lo != 0 && no_factor_in(n, lo + 1, hi)
    }
}

/// Extracts a single non-divisibility fact from `no_factor_in`.
proof fn lemma_no_factor_in(n: int, lo: int, hi: int, k: int)
    requires
        no_factor_in(n, lo, hi),
        lo <= k < hi,
    ensures
        n % k != 0,
    decreases k - lo,
{
    if k > lo {
        lemma_no_factor_in(n, lo + 1, hi, k);
    }
}

/// The modulus has no proper divisor: trial division up to its square
/// root, and the cofactor of any larger divisor falls below the root.
pub proof fn lemma_p_prime(d: int)
    requires
        2 <= d < P,
    ensures
        !divides(d, P as int),
{
    let p = P as int;
    assert(no_factor_in(p, 17, 17));
    assert(no_factor_in(p, 16, 17));
    assert(no_factor_in(p, 15, 17));
    assert(no_factor_in(p, 14, 17));
    assert(no_factor_in(p, 13, 17));
    assert(no_factor_in(p, 12, 17));
    assert(no_factor_in(p, 11, 17));
    assert(no_factor_in(p, 10, 17));
    assert(no_factor_in(p, 9, 17));
    assert(no_factor_in(p, 8, 17));
    assert(no_factor_in(p, 7, 17));
    assert(no_factor_in(p, 6, 17));
    assert(no_factor_in(p, 5, 17));
    assert(no_factor_in(p, 4, 17));
    assert(no_factor_in(p, 3, 17));
    assert(no_factor_in(p, 2, 17));
    if p % d == 0 {
        lemma_fundamental_div_mod(p, d);
        let q = p / d;
        if d <= 16 {
            lemma_no_factor_in(p, 2, 17, d);
        } else {
            assert(p == d * q);
            assert(2 <= q <= 16) by (nonlinear_arith)
                requires
                    p == d * q,
                    17 <= d < p,
                    p == 257,
            ;
            assert(p % q == 0) by {
                lemma_mod_multiples_basic(d, q);
            }
            lemma_no_factor_in(p, 2, 17, q);
        }
    }
}

/// A positive divisor is no larger than a positive dividend.
proof fn lemma_divisor_le(d: int, n: int)
    requires
        1 <= d,
        1 <= n,
        divides(d, n),
    ensures
        d <= n,
{
    if d > n {
        lemma_small_mod(n as nat, d as nat);
    }
}

/// One Euclidean step keeps the set of common divisors.
proof fn lemma_divides_step(d: int, big: int, small: int)
    requires
        1 <= d,
        1 <= small,
    ensures
        (divides(d, big) && divides(d, small)) <==> (divides(d, small) && divides(
            d,
            big % small,
        )),
{
    let q = big / small;
    lemma_fundamental_div_mod(big, small);
    if divides(d, small) {
        assert((small * q) % d == 0) by {
            lemma_mul_mod_noop_left(small, q, d);
            lemma_small_mod(0nat, d as nat);
        }
        assert((big - small * q) % d == ((big % d) - ((small * q) % d)) % d) by {
            lemma_sub_mod_noop(big, small * q, d);
        }
        assert((big % small) % d == ((big % d) - ((small * q) % d)) % d);
        if divides(d, big) {
            lemma_small_mod(0nat, d as nat);
        }
        if divides(d, big % small) {
            assert(big % d == ((small * q) % d + (big % small) % d) % d) by {
                lemma_add_mod_noop(small * q, big % small, d);
            }
            lemma_small_mod(0nat, d as nat);
        }
    }
}

/// One Euclidean step keeps the Bezout relation, with the coefficient
/// tracked modulo `P`.
proof fn lemma_bezout_step(a: int, x1: int, x2: int, r1: int, r2: int, q: int, xn: int)
    requires
        0 <= x1 < P,
        0 <= x2 < P,
        r1 % (P as int) == (a * x1) % (P as int),
        r2 % (P as int) == (a * x2) % (P as int),
        xn == (x1 + P - ((q % (P as int)) * x2) % (P as int)) % (P as int),
    ensures
        (r1 - q * r2) % (P as int) == (a * xn) % (P as int),
{
    let p = P as int;
    assert(((q % p) * x2) % p == (q * x2) % p) by {
        lemma_mul_mod_noop_left(q, x2, p);
    }
    assert(xn == (x1 + p - (q * x2) % p) % p);
    assert(xn == (x1 - (q * x2) % p) % p) by {
        lemma_mod_add_multiples_vanish(x1 - (q * x2) % p, p);
    }
    assert(xn == (x1 - q * x2) % p) by {
        lemma_sub_mod_noop_right(x1, q * x2, p);
    }
    assert((a * xn) % p == (a * (x1 - q * x2)) % p) by {
        lemma_mul_mod_noop_right(a, x1 - q * x2, p);
        lemma_mod_twice(a * (x1 - q * x2), p);
    }
    assert(a * (x1 - q * x2) == a * x1 - a * (q * x2)) by {
        lemma_mul_is_distributive_sub(a, x1, q * x2);
    }
    assert(a * (q * x2) == q * (a * x2)) by {
        lemma_mul_is_associative(a, q, x2);
        lemma_mul_is_commutative(a, q);
        lemma_mul_is_associative(q, a, x2);
    }
    assert((q * (a * x2)) % p == (q * r2) % p) by {
        lemma_mul_mod_noop_right(q, a * x2, p);
        lemma_mul_mod_noop_right(q, r2, p);
    }
    assert((a * x1 - q * (a * x2)) % p == (r1 - q * r2) % p) by {
        lemma_sub_mod_noop(a * x1, q * (a * x2), p);
        lemma_sub_mod_noop(r1, q * r2, p);
        lemma_mod_twice(r1, p);
    }
}

/// Any residue satisfying `is_inv_of` is what `finv` denotes.
pub proof fn lemma_finv_agrees(a: int, r: int)
    requires
        is_inv_of(a, r),
    ensures
        finv(a) == r,
        is_inv_of(a, finv(a)),
{
    assert(is_inv_of(a, choose|x: int| is_inv_of(a, x)));
    lemma_inv_unique(a, finv(a), r);
}

/// At most one residue is the inverse of `a`.
pub proof fn lemma_inv_unique(a: int, r1: int, r2: int)
    requires
        is_inv_of(a, r1),
        is_inv_of(a, r2),
    ensures
        r1 == r2,
{
    let p = P as int;
    assert(fmul(r1, fmul(a, r2)) == fmul(fmul(r1, a), r2)) by {
        lemma_fmul_assoc(r1, a, r2);
    }
    assert(fmul(r1, 1) == r1) by {
        lemma_small_mod(r1 as nat, P as nat);
    }
    assert(fmul(fmul(a, r1), r2) == fmul(fmul(r1, a), r2)) by {
        lemma_fmul_comm(a, r1);
    }
    assert(fmul(1, r2) == r2) by {
        assert(1 * r2 == r2);
        lemma_small_mod(r2 as nat, P as nat);
    }
}

/// An element of the field, kept in canonical reduced form.
#[derive(Clone, Copy, PartialEq, Eq, Structural, Debug)]
pub struct Fp {
    v: u64,
}

impl View for Fp {
    type V = int;

    closed spec fn view(&self) -> int {
        self.v as int
    }
}

impl Fp {
    #[verifier::type_invariant]
    spec fn inv(self) -> bool {
        0 <= self.v < P
    }

    /// The additive identity.
    pub fn zero() -> (r: Self)
        ensures
            r@ == 0,
    {
        Fp { v: 0 }
    }

    /// The multiplicative identity.
    pub fn one() -> (r: Self)
        ensures
            r@ == 1,
    {
        Fp { v: 1 }
    }

    /// Builds the element represented by `x`, reducing it modulo `P`.
    pub fn new(x: u64) -> (r: Self)
        ensures
            r@ == x as int % P as int,
            0 <= r@ < P,
    {
        Fp { v: x % P }
    }

    /// The canonical representative, in `0 .. P`.
    pub fn as_u64(self) -> (r: u64)
        ensures
            r == self@,
            r < P,
    {
        proof {
            use_type_invariant(self);
        }
        self.v
    }

    /// Field addition.
    pub fn add(self, o: Self) -> (r: Self)
        ensures
            r@ == fadd(self@, o@),
            0 <= r@ < P,
    {
        proof {
            use_type_invariant(self);
            use_type_invariant(o);
        }
        Fp { v: (self.v + o.v) % P }
    }

    /// Field subtraction.
    pub fn sub(self, o: Self) -> (r: Self)
        ensures
            r@ == fsub(self@, o@),
            0 <= r@ < P,
    {
        proof {
            use_type_invariant(self);
            use_type_invariant(o);
            lemma_mod_add_multiples_vanish(self.v as int - o.v as int, P as int);
        }
        Fp { v: (self.v + P - o.v) % P }
    }

    /// Field multiplication.
    pub fn mul(self, o: Self) -> (r: Self)
        ensures
            r@ == fmul(self@, o@),
            0 <= r@ < P,
    {
        proof {
            use_type_invariant(self);
            use_type_invariant(o);
            assert(self.v * o.v < P * P) by (nonlinear_arith)
                requires
                    self.v < P,
                    o.v < P,
            ;
        }
        Fp { v: (self.v * o.v) % P }
    }

    /// Field negation.
    pub fn neg(self) -> (r: Self)
        ensures
            r@ == fneg(self@),
            0 <= r@ < P,
    {
        proof {
            use_type_invariant(self);
        }
        Fp { v: (P - self.v) % P }
    }

    /// Squaring.
    pub fn square(self) -> (r: Self)
        ensures
            r@ == fmul(self@, self@),
            0 <= r@ < P,
    {
        self.mul(self)
    }

    /// The canonical fixed-width little-endian byte encoding, used for
    /// windowed digit extraction in the multi-scalar multiplication.
    pub fn to_repr(self) -> (r: Vec<u8>)
        ensures
            r@.len() == 2,
            r@[0] as int == self@ % 256,
            r@[1] as int == self@ / 256,
    {
        proof {
            use_type_invariant(self);
        }
        let mut r: Vec<u8> = Vec::new();
        r.push((self.v % 256) as u8);
        r.push((self.v / 256) as u8);
        r
    }

    /// Multiplicative inverse, by the extended Euclidean algorithm with
    /// the Bezout coefficient tracked modulo `P`. Returns `None` exactly
    /// on the zero element.
    pub fn invert(self) -> (r: Option<Fp>)
        ensures
            r is None <==> self@ == 0,
            r is Some ==> is_inv_of(self@, r.unwrap()@) && r.unwrap()@ == finv(self@),
    {
        proof {
            use_type_invariant(self);
        }
        let a = self.v;
        let ghost ai = a as int;
        let mut r1: u64 = P;
        let mut x1: u64 = 0;
        let mut r2: u64 = a;
        let mut x2: u64 = 1;
        proof {
            lemma_mod_self_0(P as int);
            lemma_small_mod(a as nat, P as nat);
            lemma_small_mod(0nat, P as int as nat);
        }
        while r2 != 0
            invariant
                1 <= r1 <= P,
                r2 < r1,
                x1 < P,
                x2 < P,
                ai == self@,
                0 <= ai < P,
                r1 as int % (P as int) == (ai * x1) % (P as int),
                r2 as int % (P as int) == (ai * x2) % (P as int),
                forall|d: int|
                    1 <= d ==> ((divides(d, r1 as int) && divides(d, r2 as int)) <==> (divides(
                        d,
                        ai,
                    ) && divides(d, P as int))),
            decreases r2,
        {
            let q = r1 / r2;
            let rem = r1 % r2;
            let qm = q % P;
            proof {
                assert(qm * x2 < P * P) by (nonlinear_arith)
                    requires
                        qm < P,
                        x2 < P,
                ;
            }
            let t = (qm * x2) % P;
            let xn = (x1 + P - t) % P;
            proof {
                lemma_bezout_step(ai, x1 as int, x2 as int, r1 as int, r2 as int, q as int,
                    xn as int);
                lemma_fundamental_div_mod(r1 as int, r2 as int);
                assert(rem as int == r1 - q * r2);
                assert forall|d: int| 1 <= d implies ((divides(d, r2 as int) && divides(
                    d,
                    rem as int,
                )) <==> (divides(d, ai) && divides(d, P as int))) by {
                    lemma_divides_step(d, r1 as int, r2 as int);
                }
            }
            r1 = r2;
            x1 = x2;
            r2 = rem;
            x2 = xn;
        }
        if r1 == 1 {
            proof {
                lemma_small_mod(1nat, P as nat);
                assert(fmul(ai, x1 as int) == 1);
                lemma_finv_agrees(ai, x1 as int);
                if ai == 0 {
                    assert(0 * x1 == 0);
                    lemma_small_mod(0nat, P as nat);
                    assert(false);
                }
            }
            Some(Fp { v: x1 })
        } else {
            proof {
                let g = r1 as int;
                assert(divides(g, g)) by {
                    lemma_mod_self_0(g);
                }
                assert(divides(g, 0int)) by {
                    lemma_small_mod(0nat, g as nat);
                }
                assert(divides(g, ai) && divides(g, P as int));
                if ai != 0 {
                    lemma_divisor_le(g, ai);
                    assert(2 <= g < P);
                    lemma_p_prime(g);
                    assert(!divides(g, P as int));
                    assert(false);
                }
                assert(ai == 0);
            }
            None
        }
    }

    /// Exponentiation by a public exponent, by square and multiply.
    pub fn pow(self, e: u64) -> (r: Self)
        ensures
            r@ == fpow(self@, e as nat),
            0 <= r@ < P,
    {
        let ghost p = P as int;
        let mut result = Fp::one();
        let mut base = self;
        let mut exp: u64 = e;
        proof {
            use_type_invariant(self);
            lemma_mod_twice(pow(self@, e as nat), p);
        }
        while exp > 0
            invariant
                0 <= result@ < P,
                0 <= base@ < P,
                fmul(result@, fpow(base@, exp as nat)) == fpow(self@, e as nat),
            decreases exp,
        {
            proof {
                lemma_step_square_and_multiply(result@, base@, exp as nat);
            }
            if exp % 2 == 1 {
                result = result.mul(base);
            }
            base = base.square();
            exp = exp / 2;
        }
        proof {
            assert(pow(base@, 0nat) == 1) by {
                vstd::arithmetic::power::lemma_pow0(base@);
            }
            lemma_small_mod(1nat, P as nat);
            lemma_small_mod(result@ as nat, P as nat);
        }
        result
    }
}

/// Every nonzero residue has an inverse: by strong induction, the
/// remainder `P % a` is nonzero (the modulus is prime), smaller than
/// `a`, and congruent to `-(P / a) * a`, so its inverse yields one
/// for `a`.
pub proof fn lemma_inv_exists(a: int)
    requires
        1 <= a < P,
    ensures
        is_inv_of(a, finv(a)),
    decreases a,
{
    let p = P as int;
    if a == 1 {
        assert(is_inv_of(1int, 1int)) by {
            lemma_small_mod(1nat, P as nat);
        }
        lemma_finv_agrees(1int, 1int);
    } else {
        let q = p / a;
        let r = p % a;
        lemma_fundamental_div_mod(p, a);
        if r == 0 {
            lemma_p_prime(a);
        }
        assert(1 <= r < a);
        lemma_inv_exists(r);
        let y = finv(r);
        let x = (p - (q * y) % p) % p;
        assert(x == (0 - q * y) % p) by {
            lemma_mod_add_multiples_vanish(0 - (q * y) % p, p);
            lemma_sub_mod_noop_right(0, q * y, p);
        }
        assert((a * x) % p == (a * (0 - q * y)) % p) by {
            lemma_mul_mod_noop_right(a, 0 - q * y, p);
            lemma_mod_twice(a * (0 - q * y), p);
        }
        assert(a * (0 - q * y) == (0 - q * a) * y) by {
            lemma_mul_is_associative(a, q, y);
            lemma_mul_is_commutative(a, q);
            lemma_mul_is_associative(q, a, y);
            lemma_mul_unary_negation_pair(a, q, y);
        }
        assert(((0 - q * a) * y) % p == (r * y) % p) by {
            lemma_mul_mod_noop_left(0 - q * a, y, p);
            lemma_mul_mod_noop_left(r, y, p);
            assert((0 - q * a) % p == r % p) by {
                assert(r == (0 - q * a) + p * 1 + (p - p));
                assert(0 - q * a == r - p);
                lemma_mod_sub_multiples_vanish(r, p);
            }
        }
        assert((r * y) % p == 1);
        assert(0 <= x < p) by {
            lemma_mod_bound(p - (q * y) % p, p);
        }
        assert(is_inv_of(a, x));
        lemma_finv_agrees(a, x);
    }
}

/// Auxiliary: `a * (0 - b * c) == (0 - b * a) * c`.
proof fn lemma_mul_unary_negation_pair(a: int, b: int, c: int)
    ensures
        a * (0 - b * c) == (0 - b * a) * c,
{
    assert(a * (0 - b * c) == (0 - b * a) * c) by (nonlinear_arith);
}

/// The field has no zero divisors.
pub proof fn lemma_no_zero_divisors(a: int, b: int)
    requires
        0 <= a < P,
        0 <= b < P,
        fmul(a, b) == 0,
    ensures
        a == 0 || b == 0,
{
    if a != 0 {
        lemma_inv_exists(a);
        let ia = finv(a);
        assert(fmul(ia, fmul(a, b)) == fmul(fmul(ia, a), b)) by {
            lemma_fmul_assoc(ia, a, b);
        }
        assert(fmul(ia, 0) == 0) by {
            lemma_small_mod(0nat, P as nat);
        }
        assert(fmul(a, ia) == fmul(ia, a)) by {
            lemma_fmul_comm(a, ia);
        }
        assert(fmul(1, b) == b) by {
            lemma_small_mod(b as nat, P as nat);
        }
    }
}

/// Confirms that every element of a vector is a reduced residue,
/// which contracts over element views rely on.
pub fn all_reduced(v: &Vec<Fp>) -> (u: bool)
    ensures
        u,
        forall|i: int| 0 <= i < v@.len() ==> 0 <= (#[trigger] v@[i])@ < P,
{
    let mut i: usize = 0;
    while i < v.len()
        invariant
            i <= v@.len(),
            forall|j: int| 0 <= j < i ==> 0 <= (#[trigger] v@[j])@ < P,
        decreases v@.len() - i,
    {
        let x = v[i].as_u64();
        i = i + 1;
    }
    true
}

/// Squaring a reduced power doubles the exponent.
pub proof fn lemma_fpow_square(b: int, e: nat)
    ensures
        fmul(fpow(b, e), fpow(b, e)) == fpow(b, (2 * e) as nat),
{
    let p = P as int;
    lemma_mul_mod_noop_general(pow(b, e), pow(b, e), p);
    lemma_pow_adds(b, e, e);
}

/// An unbounded lazy sequence `1, base, base^2, ...`; each call of
/// `powers` yields an independent fresh sequence over the same base.
pub struct Powers {
    base: Fp,
    cur: Fp,
    idx: Ghost<nat>,
}

impl Powers {
    /// The base whose powers are being enumerated.
    pub closed spec fn base_view(self) -> int {
        self.base@
    }

    /// How many powers have been handed out so far.
    pub closed spec fn count(self) -> nat {
        self.idx@
    }

    #[verifier::type_invariant]
    spec fn inv(self) -> bool {
        self.cur@ == fpow(self.base@, self.idx@)
    }

    /// The next power in the sequence.
    pub fn next(&mut self) -> (r: Fp)
        ensures
            r@ == fpow(old(self).base_view(), old(self).count()),
            final(self).base_view() == old(self).base_view(),
            final(self).count() == old(self).count() + 1,
    {
        proof {
            use_type_invariant(&*self);
        }
        let r = self.cur;
        let next = self.cur.mul(self.base);
        proof {
            lemma_pow_unfold_top(self.base@, self.idx@);
        }
        *self = Powers { base: self.base, cur: next, idx: Ghost((self.idx@ + 1) as nat) };
        r
    }
}

/// Multiplying the reduced power `b^e % P` by `b` gives `b^(e+1) % P`.
pub proof fn lemma_pow_unfold_top(b: int, e: nat)
    ensures
        fmul(fpow(b, e), b) == fpow(b, (e + 1) as nat),
{
    let p = P as int;
    lemma_mul_mod_noop_general(pow(b, e), b, p);
    assert(pow(b, e) * b == pow(b, e + 1)) by {
        lemma_pow_adds(b, e, 1nat);
        vstd::arithmetic::power::lemma_pow1(b);
    }
}

/// Starts the lazy sequence of powers of `base`.
pub fn powers(base: Fp) -> (r: Powers)
    ensures
        r.base_view() == base@,
        r.count() == 0,
{
    proof {
        vstd::arithmetic::power::lemma_pow0(base@);
        lemma_small_mod(1nat, P as nat);
    }
    Powers { base, cur: Fp::one(), idx: Ghost(0nat) }
}

/// Regrouping for the batch-inversion sweep: if `t` inverts the running
/// product `pc == pp * vi`, then `t * pp` inverts `vi` and `t * vi`
/// inverts `pp`.
proof fn lemma_batch_shuffle(pp: int, vi: int, pc: int, t: int)
    requires
        pc == fmul(pp, vi),
        fmul(pc, t) == 1,
    ensures
        fmul(vi, fmul(t, pp)) == 1,
        fmul(pp, fmul(t, vi)) == 1,
{
    lemma_fmul_comm(vi, fmul(t, pp));
    lemma_fmul_assoc(t, pp, vi);
    lemma_fmul_comm(t, pc);
    lemma_fmul_comm(pp, fmul(t, vi));
    lemma_fmul_assoc(t, vi, pp);
    lemma_fmul_comm(vi, pp);
}

/// Inverts every element of `v` in place using a single field inversion
/// and two multiplication sweeps (Montgomery's trick). Fails, leaving
/// `v` unchanged, exactly when some element is zero.
pub fn batch_invert(v: &mut Vec<Fp>) -> (ok: bool)
    ensures
        ok <==> (forall|i: int| 0 <= i < old(v)@.len() ==> old(v)@[i]@ != 0),
        ok ==> final(v)@.len() == old(v)@.len() && (forall|i: int|
            0 <= i < old(v)@.len() ==> is_inv_of(old(v)@[i]@, #[trigger] final(v)@[i]@)),
        !ok ==> final(v)@ == old(v)@,
{
    let ghost orig = v@;
    let n = v.len();
    if n == 0 {
        return true;
    }
    let mut prefix: Vec<Fp> = Vec::new();
    let mut i: usize = 0;
    while i < n
        invariant
            v@ == orig,
            n == orig.len(),
            i <= n,
            prefix@.len() == i,
            forall|j: int| 0 <= j < i ==> orig[j]@ != 0,
            forall|j: int| 0 <= j < i ==> 0 <= #[trigger] prefix@[j]@ < P && prefix@[j]@ != 0,
            forall|j: int|
                0 < j < i ==> #[trigger] prefix@[j]@ == fmul(prefix@[j - 1]@, orig[j]@),
            i > 0 ==> prefix@[0]@ == orig[0]@,
        decreases n - i,
    {
        let vi = v[i];
        if vi.as_u64() == 0 {
            return false;
        }
        proof {
            use_type_invariant(vi);
        }
        if i == 0 {
            prefix.push(vi);
        } else {
            let pi = prefix[i - 1].mul(vi);
            proof {
                if pi@ == 0 {
                    lemma_no_zero_divisors(prefix@[i - 1]@, orig[i as int]@);
                }
            }
            prefix.push(pi);
        }
        i = i + 1;
    }
    let total_inv = prefix[n - 1].invert().unwrap();
    let mut t = total_inv;
    let mut k: usize = n;
    while k > 1
        invariant
            1 <= k <= n,
            n == orig.len(),
            v@.len() == n,
            prefix@.len() == n,
            forall|j: int| 0 <= j < n ==> orig[j]@ != 0,
            forall|j: int| 0 <= j < n ==> 0 <= #[trigger] prefix@[j]@ < P && prefix@[j]@ != 0,
            forall|j: int|
                0 < j < n ==> #[trigger] prefix@[j]@ == fmul(prefix@[j - 1]@, orig[j]@),
            prefix@[0]@ == orig[0]@,
            forall|j: int| 0 <= j < k ==> v@[j] == orig[j],
            forall|j: int| k <= j < n ==> is_inv_of(orig[j]@, #[trigger] v@[j]@),
            0 <= t@ < P,
            fmul(prefix@[k - 1]@, t@) == 1,
        decreases k,
    {
        let idx = k - 1;
        let inv_here = t.mul(prefix[idx - 1]);
        let tn = t.mul(v[idx]);
        proof {
            lemma_batch_shuffle(prefix@[idx - 1]@, orig[idx as int]@, prefix@[idx as int]@, t@);
        }
        v.set(idx, inv_here);
        t = tn;
        k = idx;
    }
    proof {
        lemma_fmul_comm(orig[0]@, t@);
    }
    v.set(0, t);
    true
}

/// One step of square-and-multiply: splitting the lowest bit off the
/// exponent preserves the partial product.
proof fn lemma_step_square_and_multiply(r: int, b: int, e: nat)
    requires
        e > 0,
        0 <= r < P,
        0 <= b < P,
    ensures
        e % 2 == 1 ==> fmul(fmul(r, b), fpow(fmul(b, b), (e / 2) as nat)) == fmul(r, fpow(b, e)),
        e % 2 == 0 ==> fmul(r, fpow(fmul(b, b), (e / 2) as nat)) == fmul(r, fpow(b, e)),
{
    let p = P as int;
    let h = (e / 2) as nat;
    assert(pow(fmul(b, b), h) % p == pow(b * b, h) % p) by {
        lemma_pow_mod_noop(b * b, h, p);
    }
    assert(pow(b * b, h) == pow(b, 2 * h)) by {
        assert(pow(b, 2nat) == b * b) by {
            vstd::arithmetic::power::lemma_pow1(b);
            lemma_pow_adds(b, 1nat, 1nat);
        }
        lemma_pow_multiplies(b, 2nat, h);
    }
    if e % 2 == 1 {
        assert(pow(b, e) == b * pow(b, 2 * h)) by {
            assert(e == 2 * h + 1);
            vstd::arithmetic::power::lemma_pow1(b);
            lemma_pow_adds(b, 1nat, 2 * h);
        }
        // fmul(fmul(r, b), fpow(bb, h)) == ((r*b)%p * (pow(b,2h)%p)) % p
        //   == (r * (b * pow(b, 2h))) % p == fmul(r, fpow(b, e))
        lemma_mul_mod_noop_general(r * b, pow(b, 2 * h), p);
        lemma_mul_is_associative(r, b, pow(b, 2 * h));
        lemma_mul_mod_noop_general(r, b * pow(b, 2 * h), p);
    } else {
        assert(e == 2 * h);
        lemma_mul_mod_noop_general(r, pow(b, 2 * h), p);
    }
}

} // verus!
