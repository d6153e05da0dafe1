//! The identity hash: the trivial baseline construction that decodes exactly
//! one field element's worth of bytes and returns that element unchanged.
use crate::field::elem_of;
use crate::field::fq;
use crate::field::le_val;
use crate::field::lemma_elem_of;
use crate::field::FieldElement;
use crate::CryptoError;
use vstd::prelude::*;

verus! {

/// The identity construction: its output is the single element its input
/// encodes.
pub struct CRH;

impl CRH {
    /// The identity hash needs no parameters.
    pub fn setup() -> (r: Result<(), CryptoError>)
        ensures
            r == Ok::<(), CryptoError>(()),
    {
        Ok(())
    }

    /// Decode the input as exactly one field element and return it. Any
    /// other input length is rejected, carrying the number of whole
    /// elements the input holds; a full chunk at or above the modulus is
    /// rejected as no element of the prime-order field.
    pub fn evaluate(_parameters: &(), input: &[u8]) -> (r: Result<FieldElement, CryptoError>)
        ensures
            input@.len() != 32 ==> r == Err::<FieldElement, CryptoError>(
                CryptoError::IncorrectInputLength((input@.len() / 32) as usize),
            ),
            input@.len() == 32 && le_val(input@) >= fq() ==> r == Err::<FieldElement, CryptoError>(
                CryptoError::NotPrimeOrder,
            ),
            input@.len() == 32 && le_val(input@) < fq() ==> (r matches Ok(f) && f.wf() && f.val()
                == le_val(input@)),
    {
        if input.len() != 32 {
            return Err(CryptoError::IncorrectInputLength(input.len() / 32));
        }
        proof {
            assert(input@.subrange(0, 32) =~= input@);
        }
        match FieldElement::from_le_bytes_at(input, 0, 32) {
            Some(f) => Ok(f),
            None => Err(CryptoError::NotPrimeOrder),
        }
    }
}

impl crate::crh::FixedLengthCRH for CRH {
    type Output = FieldElement;

    type Parameters = ();

    /// One field element's worth of bytes.
    open spec fn spec_input_size_bits(_parameters: &()) -> nat {
        256
    }

    open spec fn params_ok(_parameters: &()) -> bool {
        true
    }

    /// The identity hash takes no setup: it is ready as it stands.
    open spec fn spec_setup() -> Result<(), CryptoError> {
        Ok(())
    }

    open spec fn spec_evaluate(_parameters: &(), input: Seq<u8>) -> Result<
        FieldElement,
        CryptoError,
    > {
        if input.len() != 32 {
            Err(CryptoError::IncorrectInputLength((input.len() / 32) as usize))
        } else if le_val(input) >= fq() {
            Err(CryptoError::NotPrimeOrder)
        } else {
            Ok(elem_of(le_val(input)))
        }
    }

    fn setup() -> (r: Result<(), CryptoError>) {
        CRH::setup()
    }

    fn evaluate(parameters: &(), input: &[u8]) -> (r: Result<FieldElement, CryptoError>) {
        let r = CRH::evaluate(parameters, input);
        proof {
            match r {
                Ok(f) => lemma_elem_of(f),
                Err(_) => {},
            }
        }
        r
    }
}

/// Law: hashing the canonical 32-byte encoding of an element returns
/// exactly that element.
pub proof fn lemma_identity_round_trip(v: FieldElement, bytes: Seq<u8>)
    requires
        v.wf(),
        bytes.len() == 32,
        le_val(bytes) == v.val(),
    ensures
        <CRH as crate::crh::FixedLengthCRH>::spec_evaluate(&(), bytes) == Ok::<
            FieldElement,
            CryptoError,
        >(v),
{
    lemma_elem_of(v);
}

} // verus!
