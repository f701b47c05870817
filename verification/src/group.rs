//! The group the transforms and the multi-scalar multiplication act
//! on, with the two representations the engine distinguishes: a
//! canonical affine form, cheap to compare, and a projective form,
//! cheap to accumulate into. The group is modelled concretely as the
//! additive group of residues modulo `P`, which carries the scalar
//! action of the field by multiplication; every contract is stated
//! over that model.

use vstd::prelude::*;
use crate::field::Fp;
use crate::field::P;
use crate::field::fadd;
use crate::field::fsub;
use crate::field::fmul;

verus! {

/// A group element in projective form: the accumulating
/// representation.
#[derive(Clone, Copy, PartialEq, Eq, Structural, Debug)]
pub struct Pt {
    v: u64,
}

/// A group element in affine form: the canonical representation.
#[derive(Clone, Copy, PartialEq, Eq, Structural, Debug)]
pub struct PtAffine {
    v: u64,
}

impl View for Pt {
    type V = int;

    closed spec fn view(&self) -> int {
        self.v as int
    }
}

impl View for PtAffine {
    type V = int;

    closed spec fn view(&self) -> int {
        self.v as int
    }
}

impl Pt {
    #[verifier::type_invariant]
    spec fn inv(self) -> bool {
        0 <= self.v < P
    }

    /// The group identity.
    pub fn identity() -> (r: Self)
        ensures
            r@ == 0,
    {
        Pt { v: 0 }
    }

    /// Builds the projective element standing for the residue `x`.
    pub fn new(x: u64) -> (r: Self)
        ensures
            r@ == x as int % P as int,
            0 <= r@ < P,
    {
        Pt { v: x % P }
    }

    /// The canonical representative of the element.
    pub fn as_u64(self) -> (r: u64)
        ensures
            r == self@,
            r < P,
    {
        proof {
            use_type_invariant(self);
        }
        self.v
    }

    /// Point doubling.
    pub fn double(self) -> (r: Self)
        ensures
            r@ == fadd(self@, self@),
            0 <= r@ < P,
    {
        proof {
            use_type_invariant(self);
        }
        Pt { v: (self.v + self.v) % P }
    }

    /// Projective + projective addition.
    pub fn add(self, o: Self) -> (r: Self)
        ensures
            r@ == fadd(self@, o@),
            0 <= r@ < P,
    {
        proof {
            use_type_invariant(self);
            use_type_invariant(o);
        }
        Pt { v: (self.v + o.v) % P }
    }

    /// Mixed projective + affine addition.
    pub fn add_affine(self, o: PtAffine) -> (r: Self)
        ensures
            r@ == fadd(self@, o@),
            0 <= r@ < P,
    {
        proof {
            use_type_invariant(self);
            use_type_invariant(o);
        }
        Pt { v: (self.v + o.v) % P }
    }

    /// Projective - projective subtraction.
    pub fn sub(self, o: Self) -> (r: Self)
        ensures
            r@ == fsub(self@, o@),
            0 <= r@ < P,
    {
        proof {
            use_type_invariant(self);
            use_type_invariant(o);
            vstd::arithmetic::div_mod::lemma_mod_add_multiples_vanish(
                self.v as int - o.v as int,
                P as int,
            );
        }
        Pt { v: (self.v + P - o.v) % P }
    }

    /// The scalar action of the field on the group.
    pub fn mul_scalar(self, s: Fp) -> (r: Self)
        ensures
            r@ == fmul(self@, s@),
            0 <= r@ < P,
    {
        proof {
            use_type_invariant(self);
        }
        let sv = s.as_u64();
        proof {
            assert(self.v * sv < P * P) by (nonlinear_arith)
                requires
                    self.v < P,
                    sv < P,
            ;
        }
        Pt { v: (self.v * sv) % P }
    }

    /// Normalization to the canonical affine form.
    pub fn to_affine(self) -> (r: PtAffine)
        ensures
            r@ == self@,
    {
        proof {
            use_type_invariant(self);
        }
        PtAffine { v: self.v }
    }
}

impl PtAffine {
    #[verifier::type_invariant]
    spec fn inv(self) -> bool {
        0 <= self.v < P
    }

    /// The group identity in affine form.
    pub fn identity() -> (r: Self)
        ensures
            r@ == 0,
    {
        PtAffine { v: 0 }
    }

    /// Builds the affine element standing for the residue `x`.
    pub fn new(x: u64) -> (r: Self)
        ensures
            r@ == x as int % P as int,
            0 <= r@ < P,
    {
        PtAffine { v: x % P }
    }

    /// The canonical representative of the element.
    pub fn as_u64(self) -> (r: u64)
        ensures
            r == self@,
            r < P,
    {
        proof {
            use_type_invariant(self);
        }
        self.v
    }

    /// The projective form of the element.
    pub fn to_curve(self) -> (r: Pt)
        ensures
            r@ == self@,
    {
        proof {
            use_type_invariant(self);
        }
        Pt { v: self.v }
    }

    /// Affine + affine addition, producing a projective sum.
    pub fn add(self, o: PtAffine) -> (r: Pt)
        ensures
            r@ == fadd(self@, o@),
            0 <= r@ < P,
    {
        proof {
            use_type_invariant(self);
            use_type_invariant(o);
        }
        Pt { v: (self.v + o.v) % P }
    }
}

/// Confirms that every element of a vector is a reduced residue,
/// which contracts over element views rely on.
pub fn all_reduced_affine(v: &Vec<PtAffine>) -> (u: bool)
    ensures
        u,
        forall|i: int| 0 <= i < v@.len() ==> 0 <= (#[trigger] v@[i])@ < P,
{
    let mut i: usize = 0;
    while i < v.len()
        invariant
            i <= v@.len(),
            forall|j: int| 0 <= j < i ==> 0 <= (#[trigger] v@[j])@ < P,
        decreases v@.len() - i,
    {
        let x = v[i].as_u64();
        i = i + 1;
    }
    true
}

/// Batch projective-to-affine normalization of a whole vector.
pub fn batch_normalize(src: &Vec<Pt>) -> (r: Vec<PtAffine>)
    ensures
        r@.len() == src@.len(),
        forall|i: int| 0 <= i < src@.len() ==> (#[trigger] r@[i])@ == src@[i]@,
{
    let mut r: Vec<PtAffine> = Vec::new();
    let mut i: usize = 0;
    while i < src.len()
        invariant
            i <= src@.len(),
            r@.len() == i,
            forall|j: int| 0 <= j < i ==> (#[trigger] r@[j])@ == src@[j]@,
        decreases src@.len() - i,
    {
        r.push(src[i].to_affine());
        i = i + 1;
    }
    r
}

/// The additive-group-with-scalar-action capability the transform is
/// written against: the same butterfly code serves plain field-element
/// sequences and group-element sequences.
pub trait FftGroup: Sized + Copy {
    /// The residue modelling the element.
    spec fn gv(self) -> int;

    /// Group addition.
    fn gadd(self, o: Self) -> (r: Self)
        ensures
            r.gv() == fadd(self.gv(), o.gv()),
            0 <= r.gv() < P,
    ;

    /// Group subtraction.
    fn gsub(self, o: Self) -> (r: Self)
        ensures
            r.gv() == fsub(self.gv(), o.gv()),
            0 <= r.gv() < P,
    ;

    /// The scalar action.
    fn gscale(self, s: Fp) -> (r: Self)
        ensures
            r.gv() == fmul(self.gv(), s@),
            0 <= r.gv() < P,
    ;
}

impl FftGroup for Fp {
    open spec fn gv(self) -> int {
        self@
    }

    fn gadd(self, o: Self) -> (r: Self) {
        self.add(o)
    }

    fn gsub(self, o: Self) -> (r: Self) {
        self.sub(o)
    }

    fn gscale(self, s: Fp) -> (r: Self) {
        self.mul(s)
    }
}

impl FftGroup for Pt {
    open spec fn gv(self) -> int {
        self@
    }

    fn gadd(self, o: Self) -> (r: Self) {
        self.add(o)
    }

    fn gsub(self, o: Self) -> (r: Self) {
        self.sub(o)
    }

    fn gscale(self, s: Fp) -> (r: Self) {
        self.mul_scalar(s)
    }
}

} // verus!
