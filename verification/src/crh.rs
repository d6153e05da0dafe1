//! The hash capability abstraction: the one interface through which
//! higher-level constructions consume a fixed-length hash, whatever the
//! construction behind it.
use crate::CryptoError;
use vstd::prelude::*;

verus! {

/// What every fixed-length hash construction offers its consumers: an
/// output type, a parameters type, the input size it is sized for, and a
/// fallible evaluation over bytes whose result is a mathematical function
/// of the parameters and the input alone — evaluation is deterministic, and
/// each implementation pins the function.
pub trait FixedLengthCRH {
    /// The hash output.
    type Output;

    /// The configuration the construction evaluates under.
    type Parameters;

    /// The number of input bits one evaluation of this configuration is
    /// sized for.
    spec fn spec_input_size_bits(params: &Self::Parameters) -> nat;

    /// The parameter values evaluation accepts.
    spec fn params_ok(params: &Self::Parameters) -> bool;

    /// What setup returns: ready parameters where the construction needs
    /// none, and a refusal where a derivation procedure is not specified.
    spec fn spec_setup() -> Result<Self::Parameters, CryptoError>;

    /// The result of evaluation, as a function of parameters and input.
    spec fn spec_evaluate(params: &Self::Parameters, input: Seq<u8>) -> Result<
        Self::Output,
        CryptoError,
    >;

    /// Produce parameters, where the construction can.
    fn setup() -> (r: Result<Self::Parameters, CryptoError>)
        ensures
            r == Self::spec_setup(),
    ;

    /// Evaluate the hash on a byte string.
    fn evaluate(params: &Self::Parameters, input: &[u8]) -> (r: Result<Self::Output, CryptoError>)
        requires
            Self::params_ok(params),
        ensures
            r == Self::spec_evaluate(params, input@),
    ;
}

} // verus!
