//! The nonlinear S-box applied inside each Poseidon round: a small fixed
//! power of the input, or its multiplicative inverse.
use crate::field::fe_inverse;
use crate::field::fe_mul;
use crate::field::fq;
use crate::field::inv_of;
use crate::field::lemma_inv_of_witness;
use crate::field::FieldElement;
use crate::poseidon::PoseidonError;
use vstd::prelude::*;

verus! {

/// The closed set of substitutions a Poseidon instance may be configured
/// with.
#[derive(Clone, Copy, Debug, PartialEq, Eq)]
pub enum PoseidonSbox {
    /// Raise the input to a small fixed power; only 3 and 5 are supported.
    Exponentiation(usize),
    /// Replace the input by its multiplicative inverse; undefined on zero.
    Inverse,
}

/// Whether a variant is one the permutation engine supports.
pub open spec fn sbox_supported(s: PoseidonSbox) -> bool {
    match s {
        PoseidonSbox::Exponentiation(n) => n == 3 || n == 5,
        PoseidonSbox::Inverse => true,
    }
}

/// Whether the S-box is defined on the value x.
pub open spec fn sbox_defined(s: PoseidonSbox, x: nat) -> bool {
    match s {
        PoseidonSbox::Exponentiation(_) => true,
        PoseidonSbox::Inverse => x != 0,
    }
}

/// The value a supported S-box maps x to, written as the same multiplication
/// chains the code performs.
pub open spec fn sbox_value(s: PoseidonSbox, x: nat) -> nat {
    match s {
        PoseidonSbox::Exponentiation(n) => if n == 3 {
            (((x * x) % fq()) * x) % fq()
        } else {
            ((x * (((x * x) % fq()) * ((x * x) % fq()) % fq())) % fq())
        },
        PoseidonSbox::Inverse => inv_of(x),
    }
}

/// The multiplication chains of the power S-boxes compute the plain powers,
/// reduced once.
pub proof fn lemma_sbox_power_values(x: nat)
    ensures
        sbox_value(PoseidonSbox::Exponentiation(3), x) == (x * x * x) % fq(),
        sbox_value(PoseidonSbox::Exponentiation(5), x) == (x * x * x * x * x) % fq(),
{
    let q = fq() as int;
    let xi = x as int;
    assert(q > 1);
    vstd::arithmetic::div_mod::lemma_mul_mod_noop_left(xi * xi, xi, q);
    vstd::arithmetic::div_mod::lemma_mul_mod_noop_general(xi * xi, xi * xi, q);
    vstd::arithmetic::div_mod::lemma_mul_mod_noop_right(xi, (xi * xi) * (xi * xi), q);
    assert((xi * xi) * (xi * xi) == xi * xi * xi * xi) by (nonlinear_arith);
    assert(xi * (xi * xi * xi * xi) == xi * xi * xi * xi * xi) by (nonlinear_arith);
}

impl PoseidonSbox {
    /// Apply the substitution to one element. Fails on an unsupported
    /// exponent, and on the additive identity for the inverse variant.
    pub fn apply_sbox(&self, elem: &FieldElement) -> (r: Result<FieldElement, PoseidonError>)
        requires
            elem.wf(),
        ensures
            sbox_supported(*self) && sbox_defined(*self, elem.val()) ==> (r matches Ok(f) && f.wf()
                && f.val() == sbox_value(*self, elem.val())),
            !sbox_supported(*self) ==> (r matches Err(e) && *self matches
                PoseidonSbox::Exponentiation(n) && e == PoseidonError::InvalidSboxSize(n)),
            sbox_supported(*self) && !sbox_defined(*self, elem.val()) ==> r == Err::<
                FieldElement,
                PoseidonError,
            >(PoseidonError::ApplySboxFailed),
            *self is Inverse ==> (r matches Ok(f) ==> (elem.val() * f.val()) % fq() == 1),
    {
        match self {
            PoseidonSbox::Exponentiation(n) => {
                if *n == 3 {
                    let sq = fe_mul(elem, elem);
                    Ok(fe_mul(&sq, elem))
                } else if *n == 5 {
                    let sq = fe_mul(elem, elem);
                    let qu = fe_mul(&sq, &sq);
                    Ok(fe_mul(elem, &qu))
                } else {
                    Err(PoseidonError::InvalidSboxSize(*n))
                }
            },
            PoseidonSbox::Inverse => match fe_inverse(elem) {
                Some(inv) => {
                    proof {
                        lemma_inv_of_witness(elem.val(), inv.val());
                    }
                    Ok(inv)
                },
                None => Err(PoseidonError::ApplySboxFailed),
            },
        }
    }
}

} // verus!
