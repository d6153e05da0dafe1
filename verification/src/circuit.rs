//! The circuit realization of the permutation core: the same round
//! schedule as the native engine, synthesized over `ark_r1cs_std` field
//! variables and verified against the same specification, so that the two
//! realizations agree value for value. Only the per-operation calls into
//! the constraint machinery are trusted; the schedule, the S-box chains,
//! the linear layer, the boundary check and the padding are verified here.
use crate::field::fq;
use crate::field::lemma_inv_of_witness;
use crate::field::FieldElement;
use crate::poseidon::padded_state;
use crate::poseidon::permute_ok;
use crate::poseidon::round_is_full;
use crate::poseidon::round_ok;
use crate::poseidon::spec_mix;
use crate::poseidon::spec_permute;
use crate::poseidon::spec_round;
use crate::poseidon::spec_rounds;
use crate::poseidon::add_keys;
use crate::poseidon::lemma_rounds_ok_at;
use crate::poseidon::mix_dot;
use crate::poseidon::sub_all;
use crate::poseidon::vals;
use crate::poseidon::PoseidonParameters;
use crate::poseidon::PoseidonSpec;
use crate::sbox::sbox_defined;
use crate::sbox::sbox_supported;
use crate::sbox::sbox_value;
use crate::sbox::PoseidonSbox;
use crate::CryptoError;
use ark_ed_on_bn254::Fq;
use ark_ff::BigInteger256;
use ark_ff::Field;
use ark_ff::PrimeField;
use ark_r1cs_std::fields::fp::FpVar;
use ark_r1cs_std::fields::FieldVar;
use vstd::prelude::*;

verus! {

/// One field-typed circuit variable, as the verified round logic sees it:
/// opaque to the verifier (`FpVar`'s declaration is beyond what it takes),
/// carrying a field value the specification names. The raw variable is
/// reachable for the unverified synthesis plumbing around the library.
#[verifier::external_body]
pub struct CircuitFp {
    /// The underlying `ark_r1cs_std` field variable.
    pub inner: FpVar<Fq>,
}

/// The field value a circuit variable carries: what `ark_r1cs_std`'s
/// `R1CSVar::value` reports for it once assigned.
pub uninterp spec fn circ_val(v: CircuitFp) -> nat;

/// The values of a circuit state, in order.
pub open spec fn circ_vals(s: Seq<CircuitFp>) -> Seq<nat> {
    s.map_values(|v: CircuitFp| circ_val(v))
}

/// Relies on `FpVar::Constant` (ark_r1cs_std): a constant variable carries
/// exactly the constant it was built from; the element converts through
/// `from_repr`, which accepts every value below the modulus.
#[verifier::external_body]
fn circ_const(f: &FieldElement) -> (r: CircuitFp)
    requires
        f.wf(),
    ensures
        circ_val(r) == f.val(),
{
    let x = Fq::from_repr(BigInteger256::new(f.raw_limbs())).unwrap();
    CircuitFp { inner: FpVar::Constant(x) }
}

/// Relies on `FpVar` addition (ark_r1cs_std): the sum variable carries the
/// field sum of the operands' values.
#[verifier::external_body]
fn circ_add(a: &CircuitFp, b: &CircuitFp) -> (r: CircuitFp)
    ensures
        circ_val(r) == (circ_val(*a) + circ_val(*b)) % fq(),
{
    CircuitFp { inner: &a.inner + &b.inner }
}

/// Relies on `FpVar` multiplication (ark_r1cs_std): the product variable
/// carries the field product of the operands' values.
#[verifier::external_body]
fn circ_mul(a: &CircuitFp, b: &CircuitFp) -> (r: CircuitFp)
    ensures
        circ_val(r) == (circ_val(*a) * circ_val(*b)) % fq(),
{
    CircuitFp { inner: &a.inner * &b.inner }
}

/// Relies on `FpVar::inverse` (ark_r1cs_std): on a variable carrying a
/// nonzero value it returns a variable carrying the multiplicative inverse
/// (enforcing the product constraint); it fails or panics only on zero,
/// which the precondition excludes.
#[verifier::external_body]
fn circ_inverse(a: &CircuitFp) -> (r: CircuitFp)
    requires
        circ_val(*a) != 0,
    ensures
        circ_val(r) < fq(),
        (circ_val(*a) * circ_val(r)) % fq() == 1,
{
    CircuitFp { inner: a.inner.inverse().unwrap() }
}

/// The S-box over a circuit variable, synthesized as the same
/// multiplication chain the native engine computes.
fn circ_sbox(sbox: PoseidonSbox, x: &CircuitFp) -> (r: CircuitFp)
    requires
        sbox_supported(sbox),
        sbox_defined(sbox, circ_val(*x)),
    ensures
        circ_val(r) == sbox_value(sbox, circ_val(*x)),
{
    match sbox {
        PoseidonSbox::Exponentiation(n) => {
            if n == 3 {
                let sq = circ_mul(x, x);
                circ_mul(&sq, x)
            } else {
                let sq = circ_mul(x, x);
                let qu = circ_mul(&sq, &sq);
                circ_mul(x, &qu)
            }
        },
        PoseidonSbox::Inverse => {
            let inv = circ_inverse(x);
            proof {
                lemma_inv_of_witness(circ_val(*x), circ_val(inv));
            }
            inv
        },
    }
}

/// The linear mixing layer over circuit variables, against the same
/// `spec_mix` the native layer is proved against; the matrix entries enter
/// as constants.
fn circ_apply_linear_layer(state: &Vec<CircuitFp>, mds: &Vec<Vec<FieldElement>>) -> (r: Vec<
    CircuitFp,
>)
    requires
        mds@.len() >= state@.len(),
        forall|i: int| 0 <= i < state@.len() ==> (#[trigger] mds@[i])@.len() >= state@.len(),
        forall|i: int, j: int|
            0 <= i < state@.len() && 0 <= j < state@.len() ==> (#[trigger] mds@[i]@[j]).wf(),
    ensures
        r@.len() == state@.len(),
        circ_vals(r@) == spec_mix(crate::poseidon::mds_vals(mds@), circ_vals(state@)),
{
    let w = state.len();
    let mut out: Vec<CircuitFp> = Vec::new();
    let mut i: usize = 0;
    while i < w
        invariant
            w == state@.len(),
            mds@.len() >= w,
            forall|k: int| 0 <= k < w ==> (#[trigger] mds@[k])@.len() >= w,
            forall|k: int, j: int| 0 <= k < w && 0 <= j < w ==> (#[trigger] mds@[k]@[j]).wf(),
            i <= w,
            out@.len() == i,
            forall|k: int|
                0 <= k < i ==> circ_val(#[trigger] out@[k]) == mix_dot(
                    crate::poseidon::mds_vals(mds@)[k],
                    circ_vals(state@),
                    w as int,
                ),
        decreases w - i,
    {
        let row = &mds[i];
        let zero = FieldElement::zero();
        let mut sc = circ_const(&zero);
        proof {
            assert(circ_val(sc) == 0);
        }
        let mut j: usize = 0;
        while j < w
            invariant
                w == state@.len(),
                i < w,
                mds@.len() >= w,
                row@ == mds@[i as int]@,
                row@.len() >= w,
                forall|k: int| 0 <= k < w ==> (#[trigger] row@[k]).wf(),
                j <= w,
                circ_val(sc) == mix_dot(
                    crate::poseidon::mds_vals(mds@)[i as int],
                    circ_vals(state@),
                    j as int,
                ),
            decreases w - j,
        {
            proof {
                assert(crate::poseidon::mds_vals(mds@)[i as int] == vals(mds@[i as int]@));
                assert(vals(row@)[j as int] == row@[j as int].val());
                assert(circ_vals(state@)[j as int] == circ_val(state@[j as int]));
            }
            let m = circ_const(&row[j]);
            let prod = circ_mul(&m, &state[j]);
            sc = circ_add(&sc, &prod);
            j = j + 1;
        }
        out.push(sc);
        i = i + 1;
    }
    proof {
        assert(circ_vals(out@) =~= spec_mix(
            crate::poseidon::mds_vals(mds@),
            circ_vals(state@),
        ));
    }
    out
}

/// The whole round schedule over circuit variables, pinned to the same
/// `spec_permute` as the native engine: the cross-realization equivalence
/// of the two is a theorem, not a test. The caller guarantees every S-box
/// input is defined, which holds of every state for the power S-boxes.
pub fn gadget_permute(params: &PoseidonParameters, state: Vec<CircuitFp>) -> (out: Vec<CircuitFp>)
    requires
        params.wf(),
        state@.len() == params@.width,
        permute_ok(params@, circ_vals(state@)),
    ensures
        out@.len() == params@.width,
        circ_vals(out@) == spec_permute(params@, circ_vals(state@)),
{
    let ghost p = params@;
    let ghost st0 = circ_vals(state@);
    let mut st = state;
    let w = params.rounds.width;
    let half_full = params.rounds.full_rounds / 2;
    let partial = params.rounds.partial_rounds;
    let klen = params.round_keys.len();
    proof {
        assert(p.full_rounds + p.partial_rounds <= p.width * (p.full_rounds + p.partial_rounds))
            by (nonlinear_arith)
            requires
                p.width >= 1,
        ;
    }
    let total = params.rounds.full_rounds + params.rounds.partial_rounds;
    let mut offset: usize = 0;
    let mut r_idx: usize = 0;
    while r_idx < total
        invariant
            params.wf(),
            p == params@,
            st0.len() == w,
            w == p.width,
            half_full == p.full_rounds / 2,
            partial == p.partial_rounds,
            total == p.full_rounds + p.partial_rounds,
            klen == p.round_keys.len(),
            permute_ok(p, st0),
            r_idx <= total,
            offset == (r_idx as int) * (w as int),
            st@.len() == w,
            circ_vals(st@) == spec_rounds(p, st0, r_idx as nat),
        decreases total - r_idx,
    {
        let ghost snap = st@;
        let ghost keyed = add_keys(circ_vals(snap), p.round_keys, (r_idx as int) * (w as int));
        proof {
            lemma_rounds_ok_at(p, st0, p.full_rounds + p.partial_rounds, r_idx as int);
            assert(round_ok(p, circ_vals(snap), r_idx as int));
        }
        let is_full = r_idx < half_full || r_idx >= half_full + partial;
        proof {
            assert(is_full == round_is_full(p, r_idx as int));
        }
        let mut i: usize = 0;
        while i < w
            invariant
                params.wf(),
                p == params@,
                w == p.width,
                klen == p.round_keys.len(),
                total == p.full_rounds + p.partial_rounds,
                r_idx < total,
                i <= w,
                offset == (r_idx as int) * (w as int) + i,
                st@.len() == w,
                snap.len() == w,
                keyed == add_keys(circ_vals(snap), p.round_keys, (r_idx as int) * (w as int)),
                forall|k: int| i <= k < w ==> st@[k] == snap[k],
                forall|k: int| 0 <= k < i ==> circ_val(#[trigger] st@[k]) == keyed[k],
            decreases w - i,
        {
            proof {
                assert((r_idx as int) * (w as int) + i < (total as int) * (w as int))
                    by (nonlinear_arith)
                    requires
                        r_idx < total,
                        i < w,
                ;
                assert((total as int) * (w as int) == (w as int) * (total as int))
                    by (nonlinear_arith);
                assert(offset < klen);
                assert(p.round_keys[offset as int] < fq());
                assert(params.round_keys@[offset as int].val() == p.round_keys[offset as int]);
                assert(st@[i as int] == snap[i as int]);
                assert(circ_vals(snap)[i as int] == circ_val(snap[i as int]));
                assert(keyed[i as int] == ((circ_vals(snap)[i as int] + p.round_keys[(
                r_idx as int) * (w as int) + i]) % fq()));
            }
            let key = circ_const(&params.round_keys[offset]);
            let t = circ_add(&st[i], &key);
            st.set(i, t);
            offset = offset + 1;
            i = i + 1;
        }
        proof {
            assert(circ_vals(st@) =~= keyed);
        }
        if is_full {
            let mut i: usize = 0;
            proof {
                assert(round_is_full(p, r_idx as int));
            }
            while i < w
                invariant
                    params.wf(),
                    p == params@,
                    w == p.width,
                    r_idx < total,
                    i <= w,
                    st@.len() == w,
                    snap.len() == w,
                    round_is_full(p, r_idx as int),
                    round_ok(p, circ_vals(snap), r_idx as int),
                    keyed == add_keys(circ_vals(snap), p.round_keys, (r_idx as int) * (w as int)),
                    forall|k: int| i <= k < w ==> circ_val(#[trigger] st@[k]) == keyed[k],
                    forall|k: int|
                        0 <= k < i ==> circ_val(#[trigger] st@[k]) == sbox_value(p.sbox, keyed[k]),
                decreases w - i,
            {
                proof {
                    assert(circ_val(st@[i as int]) == keyed[i as int]);
                    assert(sbox_defined(p.sbox, keyed[i as int]));
                }
                let s = circ_sbox(params.rounds.sbox, &st[i]);
                st.set(i, s);
                i = i + 1;
            }
            proof {
                assert(circ_vals(st@) =~= sub_all(p.sbox, keyed));
            }
        } else {
            proof {
                assert(circ_val(st@[0]) == keyed[0]);
                assert(sbox_defined(p.sbox, keyed[0]));
            }
            let s = circ_sbox(params.rounds.sbox, &st[0]);
            st.set(0, s);
            proof {
                assert(circ_vals(st@) =~= keyed.update(0, sbox_value(p.sbox, keyed[0])));
            }
        }
        proof {
            assert forall|k: int| 0 <= k < w implies (#[trigger] params.mds_matrix@[k])@.len()
                >= w by {
                assert(p.mds[k].len() == p.width);
                assert(p.mds[k] == vals(params.mds_matrix@[k]@));
            }
            assert forall|k: int, j: int|
                0 <= k < w && 0 <= j < w implies (#[trigger] params.mds_matrix@[k]@[j]).wf() by {
                assert(p.mds[k][j] < fq());
                assert(p.mds[k][j] == params.mds_matrix@[k]@[j].val());
            }
        }
        let ghost subbed = circ_vals(st@);
        st = circ_apply_linear_layer(&st, &params.mds_matrix);
        proof {
            assert(crate::poseidon::mds_vals(params.mds_matrix@) == p.mds);
            assert(circ_vals(st@) == spec_mix(p.mds, subbed));
            assert(circ_vals(st@) == spec_round(p, circ_vals(snap), r_idx as int));
            assert(spec_rounds(p, st0, (r_idx + 1) as nat) == spec_round(
                p,
                spec_rounds(p, st0, r_idx as nat),
                r_idx as int,
            ));
            assert((r_idx as int) * (w as int) + (w as int) == ((r_idx + 1) as int) * (w as int))
                by (nonlinear_arith);
        }
        r_idx = r_idx + 1;
    }
    st
}

/// The circuit facade after byte decoding: check the element count against
/// the width, zero-pad the state, permute, and take output slot 1 —
/// verified against the same specification as the native facade.
pub fn gadget_evaluate_elements(params: &PoseidonParameters, elements: Vec<CircuitFp>) -> (r:
    Result<CircuitFp, CryptoError>)
    requires
        params.wf(),
        params@.width >= 2,
        elements@.len() <= params@.width ==> permute_ok(
            params@,
            padded_state(circ_vals(elements@), params@.width),
        ),
    ensures
        elements@.len() > params@.width ==> r == Err::<CircuitFp, CryptoError>(
            CryptoError::IncorrectInputLength(elements@.len() as usize),
        ),
        elements@.len() <= params@.width ==> (r matches Ok(f) && circ_val(f) == spec_permute(
            params@,
            padded_state(circ_vals(elements@), params@.width),
        )[1]),
{
    if elements.len() > params.rounds.width {
        return Err(CryptoError::IncorrectInputLength(elements.len()));
    }
    let ghost dvals = circ_vals(elements@);
    let mut buffer = elements;
    proof {
        assert(circ_vals(buffer@) =~= dvals + Seq::new(0, |i: int| 0nat));
    }
    while buffer.len() < params.rounds.width
        invariant
            params.wf(),
            dvals.len() <= buffer@.len() <= params@.width,
            circ_vals(buffer@) == dvals + Seq::new(
                (buffer@.len() - dvals.len()) as nat,
                |i: int| 0nat,
            ),
        decreases params@.width - buffer@.len(),
    {
        let ghost before = buffer@;
        let zero = FieldElement::zero();
        let z = circ_const(&zero);
        buffer.push(z);
        proof {
            assert(circ_vals(buffer@) =~= circ_vals(before).push(0nat));
            assert(circ_vals(before).push(0nat) =~= dvals + Seq::new(
                (buffer@.len() - dvals.len()) as nat,
                |i: int| 0nat,
            ));
        }
    }
    proof {
        assert(circ_vals(buffer@) == padded_state(dvals, params@.width));
    }
    let out = gadget_permute(params, buffer);
    proof {
        assert(circ_vals(out@)[1] == circ_val(out@[1]));
    }
    let mut out = out;
    let f = out.remove(1);
    Ok(f)
}

/// Law: cross-realization equivalence. The native engine pins its output
/// values to `spec_permute` of its input values, and the circuit engine
/// pins the values its variables carry to the same function; so on inputs
/// with equal values the two realizations produce equal values, position
/// for position.
pub proof fn lemma_cross_realization_equivalence(
    p: PoseidonSpec,
    st: Seq<nat>,
    native: Seq<FieldElement>,
    circ: Seq<CircuitFp>,
)
    requires
        vals(native) == spec_permute(p, st),
        circ_vals(circ) == spec_permute(p, st),
    ensures
        vals(native) == circ_vals(circ),
{
}

} // verus!
