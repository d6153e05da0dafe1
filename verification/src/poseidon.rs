//! The Poseidon permutation engine and its byte-level hash facade: a
//! fixed-width, round-based nonlinear permutation over the prime field, run
//! from an immutable bundle of round keys and a square mixing matrix.
use crate::decode_ok;
use crate::decoded;
use crate::field::fe_add;
use crate::field::fe_mul;
use crate::field::fq;
use crate::field::FieldElement;
use crate::n_chunks;
use crate::sbox::sbox_defined;
use crate::sbox::sbox_supported;
use crate::sbox::sbox_value;
use crate::sbox::PoseidonSbox;
use crate::to_field_elements;
use crate::CryptoError;
use vstd::prelude::*;

verus! {

/// What can go wrong when configuring or running the permutation.
#[derive(Clone, Copy, Debug, PartialEq, Eq)]
pub enum PoseidonError {
    /// The configured S-box exponent is not one of the supported powers.
    InvalidSboxSize(usize),
    /// The S-box was applied to a value it is undefined on.
    ApplySboxFailed,
    /// The round keys or the matrix do not fit the configured schedule.
    InvalidInputs,
}

/// The round schedule of one Poseidon instance: the state width, the number
/// of full and partial rounds, and the S-box. Fixed per use case and never
/// changed after construction.
#[derive(Clone, Copy, Debug)]
pub struct Rounds {
    /// The size of the permutation state, in field elements.
    pub width: usize,
    /// Number of rounds whose S-box layer covers the whole state; split
    /// evenly around the partial rounds, so it must be even.
    pub full_rounds: usize,
    /// Number of rounds whose S-box layer touches only position 0.
    pub partial_rounds: usize,
    /// The substitution applied in the S-box layer.
    pub sbox: PoseidonSbox,
}

/// The values of a state, in order.
pub open spec fn vals(s: Seq<FieldElement>) -> Seq<nat> {
    s.map_values(|f: FieldElement| f.val())
}

/// Every element of a state is canonical.
pub open spec fn all_wf(s: Seq<FieldElement>) -> bool {
    forall|i: int| 0 <= i < s.len() ==> (#[trigger] s[i]).wf()
}

/// The mathematical content of a parameter bundle: the schedule and the
/// values of the round keys and the matrix entries.
pub ghost struct PoseidonSpec {
    /// State width.
    pub width: nat,
    /// Number of full rounds.
    pub full_rounds: nat,
    /// Number of partial rounds.
    pub partial_rounds: nat,
    /// The configured substitution.
    pub sbox: PoseidonSbox,
    /// Round key values, consumed in order.
    pub round_keys: Seq<nat>,
    /// Mixing matrix values, row-major.
    pub mds: Seq<Seq<nat>>,
}

/// The row values of a matrix of elements.
pub open spec fn mds_vals(m: Seq<Vec<FieldElement>>) -> Seq<Seq<nat>> {
    m.map_values(|row: Vec<FieldElement>| vals(row@))
}

/// A consistent parameter bundle: supported S-box, evenly split full rounds,
/// exactly width x (full + partial) round keys, a width x width matrix, and
/// every value canonical.
pub open spec fn spec_params_wf(p: PoseidonSpec) -> bool {
    &&& p.width >= 1
    &&& p.full_rounds % 2 == 0
    &&& sbox_supported(p.sbox)
    &&& p.round_keys.len() == p.width * (p.full_rounds + p.partial_rounds)
    &&& p.mds.len() == p.width
    &&& (forall|i: int| 0 <= i < p.width ==> (#[trigger] p.mds[i]).len() == p.width)
    &&& (forall|i: int| 0 <= i < p.round_keys.len() ==> #[trigger] p.round_keys[i] < fq())
    &&& (forall|i: int, j: int|
        0 <= i < p.width && 0 <= j < p.width ==> #[trigger] p.mds[i][j] < fq())
}

/// The schedule and values a parameter bundle would have if built from these
/// parts.
pub open spec fn params_model(
    rounds: Rounds,
    round_keys: Seq<FieldElement>,
    mds_matrix: Seq<Vec<FieldElement>>,
) -> PoseidonSpec {
    PoseidonSpec {
        width: rounds.width as nat,
        full_rounds: rounds.full_rounds as nat,
        partial_rounds: rounds.partial_rounds as nat,
        sbox: rounds.sbox,
        round_keys: vals(round_keys),
        mds: mds_vals(mds_matrix),
    }
}

/// An immutable Poseidon parameter bundle: the schedule, the flat ordered
/// round keys, and the square mixing matrix. Built once through `new`, which
/// rejects every inconsistent combination, then shared read-only.
#[derive(Clone, Debug)]
pub struct PoseidonParameters {
    /// The round schedule the keys and matrix were sized for.
    pub rounds: Rounds,
    /// The round key constants, consumed one full width per round.
    pub round_keys: Vec<FieldElement>,
    /// The mixing matrix applied after each S-box layer.
    pub mds_matrix: Vec<Vec<FieldElement>>,
}

impl View for PoseidonParameters {
    type V = PoseidonSpec;

    open spec fn view(&self) -> PoseidonSpec {
        params_model(self.rounds, self.round_keys@, self.mds_matrix@)
    }
}

impl PoseidonParameters {
    /// A consistent bundle, as `new` guarantees.
    pub open spec fn wf(&self) -> bool {
        spec_params_wf(self@)
    }

    /// Build a parameter bundle after checking every consistency rule:
    /// succeeds exactly on consistent inputs, reports an unsupported S-box
    /// exponent as such, and any other mismatch as invalid inputs.
    pub fn new(
        rounds: Rounds,
        round_keys: Vec<FieldElement>,
        mds_matrix: Vec<Vec<FieldElement>>,
    ) -> (r: Result<PoseidonParameters, PoseidonError>)
        ensures
            r is Ok <==> spec_params_wf(params_model(rounds, round_keys@, mds_matrix@)),
            r matches Ok(p) ==> p.rounds == rounds && p.round_keys@ == round_keys@
                && p.mds_matrix@ == mds_matrix@ && p.wf(),
            !sbox_supported(rounds.sbox) ==> (r matches Err(e) && rounds.sbox matches
                PoseidonSbox::Exponentiation(n) && e == PoseidonError::InvalidSboxSize(n)),
            sbox_supported(rounds.sbox) && !spec_params_wf(
                params_model(rounds, round_keys@, mds_matrix@),
            ) ==> r == Err::<PoseidonParameters, PoseidonError>(PoseidonError::InvalidInputs),
    {
        let ghost model = params_model(rounds, round_keys@, mds_matrix@);
        match rounds.sbox {
            PoseidonSbox::Exponentiation(n) => {
                if n != 3 && n != 5 {
                    return Err(PoseidonError::InvalidSboxSize(n));
                }
            },
            PoseidonSbox::Inverse => {},
        }
        proof {
            assert(sbox_supported(rounds.sbox));
        }
        if rounds.width == 0 {
            return Err(PoseidonError::InvalidInputs);
        }
        if rounds.full_rounds % 2 != 0 {
            return Err(PoseidonError::InvalidInputs);
        }
        let klen = round_keys.len();
        if rounds.full_rounds > usize::MAX - rounds.partial_rounds {
            proof {
                lemma_key_count_large(
                    rounds.width as nat,
                    rounds.full_rounds as nat,
                    rounds.partial_rounds as nat,
                    klen as nat,
                );
            }
            return Err(PoseidonError::InvalidInputs);
        }
        let total = rounds.full_rounds + rounds.partial_rounds;
        proof {
            lemma_key_count_check(
                klen as nat,
                rounds.width as nat,
                total as nat,
            );
        }
        if klen % rounds.width != 0 || klen / rounds.width != total {
            return Err(PoseidonError::InvalidInputs);
        }
        if mds_matrix.len() != rounds.width {
            return Err(PoseidonError::InvalidInputs);
        }
        let mut i: usize = 0;
        while i < round_keys.len()
            invariant
                sbox_supported(rounds.sbox),
                i <= round_keys@.len(),
                forall|k: int| 0 <= k < i ==> #[trigger] model.round_keys[k] < fq(),
                model == params_model(rounds, round_keys@, mds_matrix@),
            decreases round_keys@.len() - i,
        {
            if !round_keys[i].is_canonical() {
                proof {
                    assert(model.round_keys[i as int] == round_keys@[i as int].val());
                    assert(!spec_params_wf(model));
                }
                return Err(PoseidonError::InvalidInputs);
            }
            i = i + 1;
        }
        let mut i: usize = 0;
        while i < mds_matrix.len()
            invariant
                sbox_supported(rounds.sbox),
                i <= mds_matrix@.len(),
                mds_matrix@.len() == rounds.width,
                forall|k: int|
                    0 <= k < i ==> (#[trigger] model.mds[k]).len() == rounds.width,
                forall|k: int, j: int|
                    0 <= k < i && 0 <= j < rounds.width ==> #[trigger] model.mds[k][j] < fq(),
                model == params_model(rounds, round_keys@, mds_matrix@),
            decreases mds_matrix@.len() - i,
        {
            let row = &mds_matrix[i];
            if row.len() != rounds.width {
                proof {
                    assert(model.mds[i as int].len() == row@.len());
                    assert(!spec_params_wf(model));
                }
                return Err(PoseidonError::InvalidInputs);
            }
            let mut j: usize = 0;
            while j < row.len()
                invariant
                    sbox_supported(rounds.sbox),
                    j <= row@.len(),
                    row@ == mds_matrix@[i as int]@,
                    i < mds_matrix@.len(),
                    forall|k: int| 0 <= k < j ==> #[trigger] model.mds[i as int][k] < fq(),
                    model == params_model(rounds, round_keys@, mds_matrix@),
                decreases row@.len() - j,
            {
                if !row[j].is_canonical() {
                    proof {
                        assert(model.mds[i as int][j as int] == row@[j as int].val());
                        assert(!spec_params_wf(model));
                    }
                    return Err(PoseidonError::InvalidInputs);
                }
                j = j + 1;
            }
            i = i + 1;
        }
        Ok(PoseidonParameters { rounds, round_keys, mds_matrix })
    }
}

/// The first j terms of one row of the linear layer: a running sum, reduced
/// after every addition exactly as the code reduces.
pub open spec fn mix_dot(row: Seq<nat>, st: Seq<nat>, j: int) -> nat
    decreases j,
{
    if j <= 0 {
        0
    } else {
        (mix_dot(row, st, j - 1) + (row[j - 1] * st[j - 1]) % fq()) % fq()
    }
}

/// The linear mixing layer: position i of the new state is the dot product
/// of matrix row i with the old state, in the field.
pub open spec fn spec_mix(mds: Seq<Seq<nat>>, st: Seq<nat>) -> Seq<nat> {
    Seq::new(st.len(), |i: int| mix_dot(mds[i], st, st.len() as int))
}

/// The first j terms of one row's dot product, as a plain integer sum.
pub open spec fn dot_sum(row: Seq<nat>, st: Seq<nat>, j: int) -> int
    decreases j,
{
    if j <= 0 {
        0
    } else {
        dot_sum(row, st, j - 1) + row[j - 1] * st[j - 1]
    }
}

/// The running reduced sum the linear layer computes is the plain dot
/// product, reduced once.
pub proof fn lemma_mix_dot_is_dot_sum(row: Seq<nat>, st: Seq<nat>, j: int)
    ensures
        mix_dot(row, st, j) == dot_sum(row, st, j) % fq() as int,
    decreases j,
{
    let q = fq() as int;
    assert(q > 1);
    if j <= 0 {
        vstd::arithmetic::div_mod::lemma_small_mod(0, fq());
    } else {
        lemma_mix_dot_is_dot_sum(row, st, j - 1);
        let s = dot_sum(row, st, j - 1);
        let t = row[j - 1] as int * st[j - 1] as int;
        vstd::arithmetic::div_mod::lemma_add_mod_noop(s, t, q);
    }
}

/// The state after one round's keys are added: position i gets the key at
/// off + i.
pub open spec fn add_keys(st: Seq<nat>, keys: Seq<nat>, off: int) -> Seq<nat> {
    Seq::new(st.len(), |i: int| ((st[i] + keys[off + i]) % fq()) as nat)
}

/// Whether round r applies the S-box to every position (a full round) or
/// only to position 0 (a partial round); the partial rounds sit between the
/// two full halves.
pub open spec fn round_is_full(p: PoseidonSpec, r: int) -> bool {
    r < p.full_rounds / 2 || r >= p.full_rounds / 2 + p.partial_rounds
}

/// The substitution layer of a full round: the S-box at every position.
pub open spec fn sub_all(sb: PoseidonSbox, st: Seq<nat>) -> Seq<nat> {
    Seq::new(st.len(), |i: int| sbox_value(sb, st[i]))
}

/// One round of the permutation: add this round's keys, apply the S-box
/// layer, then the linear layer.
pub open spec fn spec_round(p: PoseidonSpec, st: Seq<nat>, r: int) -> Seq<nat> {
    let keyed = add_keys(st, p.round_keys, r * p.width);
    let subbed = if round_is_full(p, r) {
        sub_all(p.sbox, keyed)
    } else {
        keyed.update(0, sbox_value(p.sbox, keyed[0]))
    };
    spec_mix(p.mds, subbed)
}

/// The state after the first n rounds.
pub open spec fn spec_rounds(p: PoseidonSpec, st: Seq<nat>, n: nat) -> Seq<nat>
    decreases n,
{
    if n == 0 {
        st
    } else {
        spec_round(p, spec_rounds(p, st, (n - 1) as nat), n - 1)
    }
}

/// The whole permutation: every round of the schedule in order.
pub open spec fn spec_permute(p: PoseidonSpec, st: Seq<nat>) -> Seq<nat> {
    spec_rounds(p, st, p.full_rounds + p.partial_rounds)
}

/// Whether every S-box input of round r, entered on state st, is a value
/// the S-box is defined on.
pub open spec fn round_ok(p: PoseidonSpec, st: Seq<nat>, r: int) -> bool {
    let keyed = add_keys(st, p.round_keys, r * p.width);
    if round_is_full(p, r) {
        forall|i: int| 0 <= i < st.len() ==> sbox_defined(p.sbox, #[trigger] keyed[i])
    } else {
        sbox_defined(p.sbox, keyed[0])
    }
}

/// Whether the first n rounds all run on defined S-box inputs.
pub open spec fn rounds_ok(p: PoseidonSpec, st: Seq<nat>, n: nat) -> bool
    decreases n,
{
    n == 0 || (rounds_ok(p, st, (n - 1) as nat) && round_ok(
        p,
        spec_rounds(p, st, (n - 1) as nat),
        n - 1,
    ))
}

/// Whether the permutation runs to completion on this state.
pub open spec fn permute_ok(p: PoseidonSpec, st: Seq<nat>) -> bool {
    rounds_ok(p, st, p.full_rounds + p.partial_rounds)
}

/// Once some round's S-box input is undefined, every longer run is refused
/// too.
pub proof fn lemma_rounds_ok_prefix(p: PoseidonSpec, st: Seq<nat>, n: nat, m: nat)
    requires
        n <= m,
        !rounds_ok(p, st, n),
    ensures
        !rounds_ok(p, st, m),
    decreases m,
{
    if m > n {
        lemma_rounds_ok_prefix(p, st, n, (m - 1) as nat);
    }
}

/// When a whole run is accepted, so is each round in it, on the state that
/// reaches it.
pub proof fn lemma_rounds_ok_at(p: PoseidonSpec, st: Seq<nat>, n: nat, r: int)
    requires
        rounds_ok(p, st, n),
        0 <= r < n,
    ensures
        round_ok(p, spec_rounds(p, st, r as nat), r),
    decreases n,
{
    if r < n - 1 {
        lemma_rounds_ok_at(p, st, (n - 1) as nat, r);
    }
}

/// A power S-box is defined everywhere, so such a schedule always runs to
/// completion.
pub proof fn lemma_exponentiation_rounds_ok(p: PoseidonSpec, st: Seq<nat>, n: nat)
    requires
        p.sbox matches PoseidonSbox::Exponentiation(_),
    ensures
        rounds_ok(p, st, n),
    decreases n,
{
    if n > 0 {
        lemma_exponentiation_rounds_ok(p, st, (n - 1) as nat);
    }
}

/// A state widened to w slots: the given values, then the additive
/// identity in every remaining slot.
pub open spec fn padded_state(v: Seq<nat>, w: nat) -> Seq<nat>
    recommends
        v.len() <= w,
{
    v + Seq::new((w - v.len()) as nat, |i: int| 0nat)
}

/// The width-sized starting state for a byte input: the decoded elements,
/// then the additive identity in every remaining slot.
pub open spec fn padded(b: Seq<u8>, w: nat) -> Seq<nat>
    recommends
        n_chunks(b.len()) <= w,
{
    padded_state(decoded(b), w)
}

/// With a power S-box the permutation never fails: success is owed on every
/// state, so the facade returns a hash for every decodable in-width input.
pub proof fn lemma_exponentiation_permute_ok(p: PoseidonSpec, st: Seq<nat>)
    requires
        p.sbox matches PoseidonSbox::Exponentiation(_),
    ensures
        permute_ok(p, st),
{
    lemma_exponentiation_rounds_ok(p, st, p.full_rounds + p.partial_rounds);
}

/// The byte-level Poseidon hash: decodes bytes into a fixed-width state,
/// runs the permutation, and returns the designated output slot.
pub struct CRH;

impl CRH {
    /// Run the whole round schedule over a width-sized state: the first half
    /// of the full rounds, the partial rounds, then the second half. Fails
    /// exactly when some round feeds the S-box a value it is undefined on,
    /// which only the inverse S-box can.
    pub fn permute(params: &PoseidonParameters, state: Vec<FieldElement>) -> (r: Result<
        Vec<FieldElement>,
        PoseidonError,
    >)
        requires
            params.wf(),
            all_wf(state@),
            state@.len() == params@.width,
        ensures
            match r {
                Ok(out) => permute_ok(params@, vals(state@)) && out@.len() == params@.width
                    && all_wf(out@) && vals(out@) == spec_permute(params@, vals(state@)),
                Err(e) => !permute_ok(params@, vals(state@)) && e
                    == PoseidonError::ApplySboxFailed,
            },
    {
        let ghost p = params@;
        let ghost st0 = vals(state@);
        let mut st = state;
        let w = params.rounds.width;
        let half_full = params.rounds.full_rounds / 2;
        let partial = params.rounds.partial_rounds;
        let klen = params.round_keys.len();
        proof {
            assert(p.full_rounds + p.partial_rounds <= p.width * (p.full_rounds
                + p.partial_rounds)) by (nonlinear_arith)
                requires
                    p.width >= 1,
            ;
        }
        let total = params.rounds.full_rounds + params.rounds.partial_rounds;
        let mut offset: usize = 0;
        let mut r_idx: usize = 0;
        while r_idx < total
            invariant
                params.wf(),
                p == params@,
                st0.len() == w,
                w == p.width,
                half_full == p.full_rounds / 2,
                partial == p.partial_rounds,
                total == p.full_rounds + p.partial_rounds,
                klen == p.round_keys.len(),
                st0 == vals(state@),
                r_idx <= total,
                offset == (r_idx as int) * (w as int),
                st@.len() == w,
                all_wf(st@),
                vals(st@) == spec_rounds(p, st0, r_idx as nat),
                rounds_ok(p, st0, r_idx as nat),
            decreases total - r_idx,
        {
            let ghost snap = st@;
            let ghost keyed = add_keys(vals(snap), p.round_keys, (r_idx as int) * (w as int));
            let is_full = r_idx < half_full || r_idx >= half_full + partial;
            proof {
                assert(is_full == round_is_full(p, r_idx as int));
            }
            if is_full {
                let mut i: usize = 0;
                while i < w
                    invariant
                        params.wf(),
                        p == params@,
                        w == p.width,
                        klen == p.round_keys.len(),
                        total == p.full_rounds + p.partial_rounds,
                        r_idx < total,
                        i <= w,
                        offset == (r_idx as int) * (w as int) + i,
                        st@.len() == w,
                        snap.len() == w,
                        all_wf(snap),
                        st0 == vals(state@),
                        rounds_ok(p, st0, r_idx as nat),
                        vals(snap) == spec_rounds(p, st0, r_idx as nat),
                        round_is_full(p, r_idx as int),
                        keyed == add_keys(vals(snap), p.round_keys, (r_idx as int) * (w as int)),
                        forall|k: int| i <= k < w ==> st@[k] == snap[k],
                        forall|k: int|
                            0 <= k < i ==> (#[trigger] st@[k]).wf() && st@[k].val() == sbox_value(
                                p.sbox,
                                keyed[k],
                            ),
                        forall|k: int| 0 <= k < i ==> sbox_defined(p.sbox, #[trigger] keyed[k]),
                    decreases w - i,
                {
                    proof {
                        assert((r_idx as int) * (w as int) + i < (total as int) * (w as int))
                            by (nonlinear_arith)
                            requires
                                r_idx < total,
                                i < w,
                        ;
                        assert((total as int) * (w as int) == (w as int) * (total as int))
                            by (nonlinear_arith);
                        assert(offset < klen);
                        assert(p.round_keys[offset as int] < fq());
                        assert(params.round_keys@[offset as int].val()
                            == p.round_keys[offset as int]);
                        assert(st@[i as int] == snap[i as int]);
                        assert(vals(snap)[i as int] == snap[i as int].val());
                        assert(keyed[i as int] == ((vals(snap)[i as int]
                            + p.round_keys[(r_idx as int) * (w as int) + i]) % fq()));
                    }
                    let key = params.round_keys[offset];
                    let t = fe_add(&st[i], &key);
                    match params.rounds.sbox.apply_sbox(&t) {
                        Ok(f) => {
                            st.set(i, f);
                            offset = offset + 1;
                            i = i + 1;
                        },
                        Err(_) => {
                            proof {
                                assert(!sbox_defined(p.sbox, keyed[i as int]));
                                assert(!round_ok(p, vals(snap), r_idx as int));
                                assert(!rounds_ok(p, st0, (r_idx + 1) as nat));
                                lemma_rounds_ok_prefix(
                                    p,
                                    st0,
                                    (r_idx + 1) as nat,
                                    p.full_rounds + p.partial_rounds,
                                );
                            }
                            return Err(PoseidonError::ApplySboxFailed);
                        },
                    }
                }
                proof {
                    assert(vals(st@) =~= sub_all(p.sbox, keyed));
                    assert(round_ok(p, vals(snap), r_idx as int));
                }
            } else {
                let mut i: usize = 0;
                while i < w
                    invariant
                        params.wf(),
                        p == params@,
                        w == p.width,
                        klen == p.round_keys.len(),
                        total == p.full_rounds + p.partial_rounds,
                        r_idx < total,
                        i <= w,
                        offset == (r_idx as int) * (w as int) + i,
                        st@.len() == w,
                        snap.len() == w,
                        all_wf(snap),
                        st0 == vals(state@),
                        rounds_ok(p, st0, r_idx as nat),
                        vals(snap) == spec_rounds(p, st0, r_idx as nat),
                        !round_is_full(p, r_idx as int),
                        keyed == add_keys(vals(snap), p.round_keys, (r_idx as int) * (w as int)),
                        forall|k: int| i <= k < w ==> st@[k] == snap[k],
                        forall|k: int|
                            0 <= k < i ==> (#[trigger] st@[k]).wf() && st@[k].val() == keyed[k],
                    decreases w - i,
                {
                    proof {
                        assert((r_idx as int) * (w as int) + i < (total as int) * (w as int))
                            by (nonlinear_arith)
                            requires
                                r_idx < total,
                                i < w,
                        ;
                        assert((total as int) * (w as int) == (w as int) * (total as int))
                            by (nonlinear_arith);
                        assert(offset < klen);
                        assert(p.round_keys[offset as int] < fq());
                        assert(params.round_keys@[offset as int].val()
                            == p.round_keys[offset as int]);
                        assert(st@[i as int] == snap[i as int]);
                        assert(vals(snap)[i as int] == snap[i as int].val());
                        assert(keyed[i as int] == ((vals(snap)[i as int]
                            + p.round_keys[(r_idx as int) * (w as int) + i]) % fq()));
                    }
                    let key = params.round_keys[offset];
                    let t = fe_add(&st[i], &key);
                    st.set(i, t);
                    offset = offset + 1;
                    i = i + 1;
                }
                proof {
                    assert(vals(st@) =~= keyed);
                }
                let x0 = st[0];
                match params.rounds.sbox.apply_sbox(&x0) {
                    Ok(f) => {
                        st.set(0, f);
                        proof {
                            assert(vals(st@) =~= keyed.update(
                                0,
                                sbox_value(p.sbox, keyed[0]),
                            ));
                            assert(round_ok(p, vals(snap), r_idx as int));
                        }
                    },
                    Err(_) => {
                        proof {
                            assert(!sbox_defined(p.sbox, keyed[0]));
                            assert(!round_ok(p, vals(snap), r_idx as int));
                            assert(!rounds_ok(p, st0, (r_idx + 1) as nat));
                            lemma_rounds_ok_prefix(
                                p,
                                st0,
                                (r_idx + 1) as nat,
                                p.full_rounds + p.partial_rounds,
                            );
                        }
                        return Err(PoseidonError::ApplySboxFailed);
                    },
                }
            }
            proof {
                assert forall|k: int| 0 <= k < w implies (#[trigger] params.mds_matrix@[k])@.len()
                    >= w by {
                    assert(p.mds[k].len() == p.width);
                    assert(p.mds[k] == vals(params.mds_matrix@[k]@));
                }
                assert forall|k: int, j: int|
                    0 <= k < w && 0 <= j < w implies (#[trigger] params.mds_matrix@[k]@[j]).wf() by {
                    assert(p.mds[k][j] < fq());
                    assert(p.mds[k][j] == params.mds_matrix@[k]@[j].val());
                }
            }
            let ghost subbed = vals(st@);
            st = Self::apply_linear_layer(&st, &params.mds_matrix);
            proof {
                assert(mds_vals(params.mds_matrix@) == p.mds);
                assert(vals(st@) == spec_mix(p.mds, subbed));
                assert(vals(st@) == spec_round(p, vals(snap), r_idx as int));
                assert(spec_rounds(p, st0, (r_idx + 1) as nat) == spec_round(
                    p,
                    spec_rounds(p, st0, r_idx as nat),
                    r_idx as int,
                ));
                assert(rounds_ok(p, st0, (r_idx + 1) as nat));
                assert((r_idx as int) * (w as int) + (w as int) == ((r_idx + 1) as int) * (
                w as int)) by (nonlinear_arith);
            }
            r_idx = r_idx + 1;
        }
        Ok(st)
    }

    /// Hash a byte string: decode it into at most `width` field elements,
    /// zero-pad the state to the full width, permute, and return the element
    /// at output slot 1 (slot 0 is the reserved capacity element).
    pub fn evaluate(params: &PoseidonParameters, input: &[u8]) -> (r: Result<
        FieldElement,
        CryptoError,
    >)
        requires
            params.wf(),
            params@.width >= 2,
        ensures
            !decode_ok(input@) ==> r == Err::<FieldElement, CryptoError>(
                CryptoError::NotPrimeOrder,
            ),
            decode_ok(input@) && n_chunks(input@.len()) > params@.width ==> r == Err::<
                FieldElement,
                CryptoError,
            >(CryptoError::IncorrectInputLength(n_chunks(input@.len()) as usize)),
            decode_ok(input@) && n_chunks(input@.len()) <= params@.width && !permute_ok(
                params@,
                padded(input@, params@.width),
            ) ==> r == Err::<FieldElement, CryptoError>(
                CryptoError::Poseidon(PoseidonError::ApplySboxFailed),
            ),
            decode_ok(input@) && n_chunks(input@.len()) <= params@.width && permute_ok(
                params@,
                padded(input@, params@.width),
            ) ==> (r matches Ok(f) && f.wf() && f.val() == spec_permute(
                params@,
                padded(input@, params@.width),
            )[1]),
    {
        let f_inputs = match to_field_elements(input) {
            Ok(v) => v,
            Err(e) => {
                return Err(e);
            },
        };
        if f_inputs.len() > params.rounds.width {
            return Err(CryptoError::IncorrectInputLength(f_inputs.len()));
        }
        let ghost dlen = decoded(input@).len();
        let mut buffer = f_inputs;
        while buffer.len() < params.rounds.width
            invariant
                params.wf(),
                dlen == decoded(input@).len(),
                dlen <= buffer@.len() <= params@.width,
                all_wf(buffer@),
                vals(buffer@) == decoded(input@) + Seq::new(
                    (buffer@.len() - dlen) as nat,
                    |i: int| 0nat,
                ),
            decreases params@.width - buffer@.len(),
        {
            let ghost before = buffer@;
            buffer.push(FieldElement::zero());
            proof {
                assert(vals(buffer@) =~= vals(before).push(0nat));
                assert(vals(before).push(0nat) =~= decoded(input@) + Seq::new(
                    (buffer@.len() - dlen) as nat,
                    |i: int| 0nat,
                ));
            }
        }
        proof {
            assert(vals(buffer@) == padded(input@, params@.width));
        }
        match Self::permute(params, buffer) {
            Ok(res) => {
                proof {
                    assert(vals(res@)[1] == res@[1].val());
                }
                Ok(res[1])
            },
            Err(e) => Err(CryptoError::Poseidon(e)),
        }
    }

    /// Replace the state by the product of the mixing matrix with it.
    pub fn apply_linear_layer(state: &Vec<FieldElement>, mds: &Vec<Vec<FieldElement>>) -> (r: Vec<
        FieldElement,
    >)
        requires
            all_wf(state@),
            mds@.len() >= state@.len(),
            forall|i: int| 0 <= i < state@.len() ==> (#[trigger] mds@[i])@.len() >= state@.len(),
            forall|i: int, j: int|
                0 <= i < state@.len() && 0 <= j < state@.len() ==> (#[trigger] mds@[i]@[j]).wf(),
        ensures
            r@.len() == state@.len(),
            all_wf(r@),
            vals(r@) == spec_mix(mds_vals(mds@), vals(state@)),
    {
        let w = state.len();
        let mut out: Vec<FieldElement> = Vec::new();
        let mut i: usize = 0;
        while i < w
            invariant
                w == state@.len(),
                all_wf(state@),
                mds@.len() >= w,
                forall|k: int| 0 <= k < w ==> (#[trigger] mds@[k])@.len() >= w,
                forall|k: int, j: int|
                    0 <= k < w && 0 <= j < w ==> (#[trigger] mds@[k]@[j]).wf(),
                i <= w,
                out@.len() == i,
                forall|k: int|
                    0 <= k < i ==> (#[trigger] out@[k]).wf() && out@[k].val() == mix_dot(
                        mds_vals(mds@)[k],
                        vals(state@),
                        w as int,
                    ),
            decreases w - i,
        {
            let row = &mds[i];
            let mut sc = FieldElement::zero();
            let mut j: usize = 0;
            while j < w
                invariant
                    w == state@.len(),
                    all_wf(state@),
                    i < w,
                    mds@.len() >= w,
                    row@ == mds@[i as int]@,
                    row@.len() >= w,
                    forall|k: int| 0 <= k < w ==> (#[trigger] row@[k]).wf(),
                    j <= w,
                    sc.wf(),
                    sc.val() == mix_dot(mds_vals(mds@)[i as int], vals(state@), j as int),
                decreases w - j,
            {
                proof {
                    assert(mds_vals(mds@)[i as int] == vals(mds@[i as int]@));
                    assert(vals(row@)[j as int] == row@[j as int].val());
                    assert(vals(state@)[j as int] == state@[j as int].val());
                }
                let prod = fe_mul(&row[j], &state[j]);
                sc = fe_add(&sc, &prod);
                j = j + 1;
            }
            out.push(sc);
            i = i + 1;
        }
        proof {
            assert(vals(out@) =~= spec_mix(mds_vals(mds@), vals(state@)));
        }
        out
    }
}

impl crate::crh::FixedLengthCRH for CRH {
    type Output = FieldElement;

    type Parameters = PoseidonParameters;

    /// One field element's worth of bytes for each state slot.
    open spec fn spec_input_size_bits(params: &PoseidonParameters) -> nat {
        params@.width * 256
    }

    /// A validated bundle wide enough to have an output slot.
    open spec fn params_ok(params: &PoseidonParameters) -> bool {
        params.wf() && params@.width >= 2
    }

    /// Deriving round keys and a matrix from randomness is deliberately
    /// unspecified, so setup declines: callers supply externally validated
    /// parameters through `new`.
    open spec fn spec_setup() -> Result<PoseidonParameters, CryptoError> {
        Err(CryptoError::Poseidon(PoseidonError::InvalidInputs))
    }

    open spec fn spec_evaluate(params: &PoseidonParameters, input: Seq<u8>) -> Result<
        FieldElement,
        CryptoError,
    > {
        if !decode_ok(input) {
            Err(CryptoError::NotPrimeOrder)
        } else if n_chunks(input.len()) > params@.width {
            Err(CryptoError::IncorrectInputLength(n_chunks(input.len()) as usize))
        } else if !permute_ok(params@, padded(input, params@.width)) {
            Err(CryptoError::Poseidon(PoseidonError::ApplySboxFailed))
        } else {
            Ok(crate::field::elem_of(spec_permute(params@, padded(input, params@.width))[1]))
        }
    }

    fn setup() -> (r: Result<PoseidonParameters, CryptoError>) {
        Err(CryptoError::Poseidon(PoseidonError::InvalidInputs))
    }

    fn evaluate(params: &PoseidonParameters, input: &[u8]) -> (r: Result<
        FieldElement,
        CryptoError,
    >) {
        let r = CRH::evaluate(params, input);
        proof {
            match r {
                Ok(f) => crate::field::lemma_elem_of(f),
                Err(_) => {},
            }
        }
        r
    }
}

/// Elementwise field addition of two same-width states.
pub open spec fn state_add(a: Seq<nat>, b: Seq<nat>) -> Seq<nat>
    recommends
        a.len() == b.len(),
{
    Seq::new(a.len(), |i: int| ((a[i] + b[i]) % fq()) as nat)
}

/// One row of the linear layer distributes over state addition.
proof fn lemma_mix_dot_linear(row: Seq<nat>, a: Seq<nat>, b: Seq<nat>, j: int)
    requires
        a.len() == b.len(),
        0 <= j <= a.len(),
    ensures
        mix_dot(row, state_add(a, b), j) == (mix_dot(row, a, j) + mix_dot(row, b, j)) % fq(),
    decreases j,
{
    let q = fq() as int;
    assert(q > 1);
    if j <= 0 {
        assert((0nat + 0nat) % fq() == 0) by {
            vstd::arithmetic::div_mod::lemma_small_mod(0, fq());
        }
    } else {
        lemma_mix_dot_linear(row, a, b, j - 1);
        let ai = mix_dot(row, a, j - 1) as int;
        let bi = mix_dot(row, b, j - 1) as int;
        let rr = row[j - 1] as int;
        let xa = a[j - 1] as int;
        let xb = b[j - 1] as int;
        assert(state_add(a, b)[j - 1] == ((a[j - 1] + b[j - 1]) % fq()) as nat);
        vstd::arithmetic::div_mod::lemma_mul_mod_noop_right(rr, xa + xb, q);
        vstd::arithmetic::mul::lemma_mul_is_distributive_add(rr, xa, xb);
        vstd::arithmetic::div_mod::lemma_add_mod_noop(ai + bi, rr * xa + rr * xb, q);
        vstd::arithmetic::div_mod::lemma_add_mod_noop_right(ai, rr * xa, q);
        vstd::arithmetic::div_mod::lemma_add_mod_noop_right(bi, rr * xb, q);
        vstd::arithmetic::div_mod::lemma_add_mod_noop(ai + rr * xa, bi + rr * xb, q);
    }
}

/// Law: the linear mixing layer is linear. Mixing the elementwise sum of
/// two states gives the elementwise sum of mixing each state.
pub proof fn lemma_mix_linear(mds: Seq<Seq<nat>>, a: Seq<nat>, b: Seq<nat>)
    requires
        a.len() == b.len(),
    ensures
        spec_mix(mds, state_add(a, b)) == state_add(spec_mix(mds, a), spec_mix(mds, b)),
{
    assert forall|i: int| 0 <= i < a.len() implies spec_mix(mds, state_add(a, b))[i] == ((
    spec_mix(mds, a)[i] + spec_mix(mds, b)[i]) % fq()) as nat by {
        lemma_mix_dot_linear(mds[i], a, b, a.len() as int);
    }
    assert(spec_mix(mds, state_add(a, b)) =~= state_add(spec_mix(mds, a), spec_mix(mds, b)));
}

/// Law: the permutation is deterministic. Its contract pins the value of
/// every output position, so two runs on the same parameters and the same
/// state return identical states, element for element.
pub proof fn lemma_permute_deterministic(
    p: PoseidonSpec,
    st: Seq<nat>,
    r1: Seq<FieldElement>,
    r2: Seq<FieldElement>,
)
    requires
        r1.len() == r2.len(),
        vals(r1) == spec_permute(p, st),
        vals(r2) == spec_permute(p, st),
    ensures
        r1 =~= r2,
{
    assert forall|i: int| 0 <= i < r1.len() implies r1[i] == r2[i] by {
        assert(vals(r1)[i] == r1[i].val());
        assert(vals(r2)[i] == r2[i].val());
        crate::field::lemma_element_determined(r1[i], r2[i]);
    }
}

/// A vector holds one key per round and slot exactly when its length leaves
/// no remainder by the width and the quotient is the round count.
proof fn lemma_key_count_check(len: nat, w: nat, t: nat)
    requires
        w >= 1,
    ensures
        (len == w * t) <==> (len % w == 0 && len / w == t),
{
    if len == w * t {
        vstd::arithmetic::mul::lemma_mul_is_commutative(w as int, t as int);
        vstd::arithmetic::div_mod::lemma_fundamental_div_mod_converse(
            len as int,
            w as int,
            t as int,
            0,
        );
    }
    if len % w == 0 && len / w == t {
        vstd::arithmetic::div_mod::lemma_fundamental_div_mod(len as int, w as int);
    }
}

/// With at least one key slot per round, more rounds than any machine count
/// need more keys than any vector holds.
proof fn lemma_key_count_large(width: nat, full: nat, partial: nat, keys: nat)
    requires
        width >= 1,
        full + partial > usize::MAX,
        keys <= usize::MAX,
    ensures
        keys != width * (full + partial),
{
    vstd::arithmetic::mul::lemma_mul_ordering(1, (full + partial) as int);
    assert(width * (full + partial) >= 1 * (full + partial)) by (nonlinear_arith)
        requires
            width >= 1,
    ;
}

} // verus!
