use ark_ed_on_bn254::Fq;
use ark_ff::Field;
use ark_ff::FromBytes;
use ark_ff::ToBytes;
use ark_ff::Zero;
use poseidon_crh::field::FieldElement;
use poseidon_crh::poseidon::PoseidonError;
use poseidon_crh::poseidon::PoseidonParameters;
use poseidon_crh::poseidon::Rounds;
use poseidon_crh::poseidon::CRH;
use poseidon_crh::sbox::PoseidonSbox;
use poseidon_crh::CryptoError;

fn fe(x: u64) -> FieldElement {
    FieldElement::from_u64(x)
}

fn to_fq(f: &FieldElement) -> Fq {
    let bytes = f.to_le_bytes();
    Fq::read(&bytes[..]).unwrap()
}

fn to_fe(x: &Fq) -> FieldElement {
    let mut bytes = Vec::new();
    x.write(&mut bytes).unwrap();
    FieldElement::from_le_bytes_at(&bytes, 0, 32).unwrap()
}

fn fixture_keys(n: usize, seed: u64) -> Vec<FieldElement> {
    (0..n)
        .map(|i| fe((i as u64).wrapping_mul(0x9e3779b97f4a7c15).wrapping_add(seed)))
        .collect()
}

fn fixture_mds(w: usize, seed: u64) -> Vec<Vec<FieldElement>> {
    (0..w)
        .map(|i| {
            (0..w)
                .map(|j| fe(((i * w + j) as u64).wrapping_mul(0xbf58476d1ce4e5b9).wrapping_add(seed)))
                .collect()
        })
        .collect()
}

fn fixture_params(
    width: usize,
    full: usize,
    partial: usize,
    sbox: PoseidonSbox,
    seed: u64,
) -> PoseidonParameters {
    let rounds = Rounds { width, full_rounds: full, partial_rounds: partial, sbox };
    PoseidonParameters::new(
        rounds,
        fixture_keys(width * (full + partial), seed),
        fixture_mds(width, seed ^ 0xabcdef),
    )
    .unwrap()
}

fn input_bytes(vals: &[u64]) -> Vec<u8> {
    let mut out = Vec::new();
    for v in vals {
        out.extend(fe(*v).to_le_bytes());
    }
    out
}

fn oracle_sbox(x: Fq, sbox: &PoseidonSbox) -> Fq {
    match sbox {
        PoseidonSbox::Exponentiation(3) => x * x * x,
        PoseidonSbox::Exponentiation(5) => {
            let sq = x.square();
            let ft = sq.square();
            x * ft
        }
        PoseidonSbox::Exponentiation(n) => panic!("unsupported exponent {}", n),
        PoseidonSbox::Inverse => x.inverse().unwrap(),
    }
}

/// An independent computation of the hash, straight over `ark_ff` field
/// arithmetic, used as the oracle the library is checked against.
fn oracle_evaluate(p: &PoseidonParameters, input: &[u8]) -> Fq {
    let width = p.rounds.width;
    let mut state: Vec<Fq> = input
        .chunks(32)
        .map(|c| {
            let mut buf = [0u8; 32];
            buf[..c.len()].copy_from_slice(c);
            Fq::read(&buf[..]).unwrap()
        })
        .collect();
    assert!(state.len() <= width);
    while state.len() < width {
        state.push(Fq::zero());
    }
    let keys: Vec<Fq> = p.round_keys.iter().map(to_fq).collect();
    let mds: Vec<Vec<Fq>> = p
        .mds_matrix
        .iter()
        .map(|row| row.iter().map(to_fq).collect())
        .collect();
    let full = p.rounds.full_rounds;
    let partial = p.rounds.partial_rounds;
    let mut off = 0;
    for r in 0..(full + partial) {
        let is_full = r < full / 2 || r >= full / 2 + partial;
        if is_full {
            for i in 0..width {
                state[i] += keys[off];
                off += 1;
                state[i] = oracle_sbox(state[i], &p.rounds.sbox);
            }
        } else {
            for i in 0..width {
                state[i] += keys[off];
                off += 1;
            }
            state[0] = oracle_sbox(state[0], &p.rounds.sbox);
        }
        let mut next = Vec::new();
        for i in 0..width {
            let mut sc = Fq::zero();
            for j in 0..width {
                sc += mds[i][j] * state[j];
            }
            next.push(sc);
        }
        state = next;
    }
    state[1]
}

#[test]
fn test_width_3_bn_254() {
    let p = fixture_params(3, 8, 57, PoseidonSbox::Exponentiation(5), 1);
    let inp = input_bytes(&[0, 1, 2]);
    let res = CRH::evaluate(&p, &inp).unwrap();
    assert_eq!(to_fq(&res), oracle_evaluate(&p, &inp));
}

#[test]
fn test_width_5_bn_254() {
    let p = fixture_params(5, 8, 60, PoseidonSbox::Exponentiation(5), 2);
    let inp = input_bytes(&[0, 1, 2, 3, 4]);
    let res = CRH::evaluate(&p, &inp).unwrap();
    assert_eq!(to_fq(&res), oracle_evaluate(&p, &inp));
}

#[test]
fn power3_small_schedule_reference_value() {
    // With zero keys, the identity matrix and the cube S-box, the trace can
    // be followed by hand: (2,3) -> (8,27) -> (512,27) -> (512^3, 27^3).
    let rounds =
        Rounds { width: 2, full_rounds: 2, partial_rounds: 1, sbox: PoseidonSbox::Exponentiation(3) };
    let keys = vec![fe(0); 6];
    let mds = vec![vec![fe(1), fe(0)], vec![fe(0), fe(1)]];
    let p = PoseidonParameters::new(rounds, keys, mds).unwrap();
    let inp = input_bytes(&[2, 3]);
    assert_eq!(CRH::evaluate(&p, &inp).unwrap(), fe(19683));
}

#[test]
fn permute_deterministic() {
    let p = fixture_params(3, 8, 57, PoseidonSbox::Exponentiation(5), 3);
    let inp = input_bytes(&[9, 8, 7]);
    assert_eq!(CRH::evaluate(&p, &inp).unwrap(), CRH::evaluate(&p, &inp).unwrap());
    let st = vec![fe(1), fe(2), fe(3)];
    assert_eq!(CRH::permute(&p, st.clone()).unwrap(), CRH::permute(&p, st).unwrap());
}

#[test]
fn mixing_layer_is_linear() {
    let mds = fixture_mds(3, 77);
    let a = vec![fe(11), fe(22), fe(33)];
    let b = vec![fe(5), fe(100), fe(2)];
    let sum: Vec<FieldElement> =
        a.iter().zip(b.iter()).map(|(x, y)| to_fe(&(to_fq(x) + to_fq(y)))).collect();
    let ma = CRH::apply_linear_layer(&a, &mds);
    let mb = CRH::apply_linear_layer(&b, &mds);
    let ms = CRH::apply_linear_layer(&sum, &mds);
    for i in 0..3 {
        assert_eq!(to_fq(&ms[i]), to_fq(&ma[i]) + to_fq(&mb[i]));
    }
}

#[test]
fn sensitivity_to_every_parameter() {
    let p = fixture_params(3, 8, 9, PoseidonSbox::Exponentiation(5), 4);
    let inp = input_bytes(&[1, 2, 3]);
    let base = CRH::evaluate(&p, &inp).unwrap();
    for t in 0..p.round_keys.len() {
        let mut keys = p.round_keys.clone();
        keys[t] = to_fe(&(to_fq(&keys[t]) + Fq::from(1u64)));
        let p2 = PoseidonParameters::new(p.rounds, keys, p.mds_matrix.clone()).unwrap();
        assert_ne!(CRH::evaluate(&p2, &inp).unwrap(), base, "round key {} is disconnected", t);
    }
    for i in 0..3 {
        for j in 0..3 {
            let mut mds = p.mds_matrix.clone();
            mds[i][j] = to_fe(&(to_fq(&mds[i][j]) + Fq::from(1u64)));
            let p2 = PoseidonParameters::new(p.rounds, p.round_keys.clone(), mds).unwrap();
            assert_ne!(
                CRH::evaluate(&p2, &inp).unwrap(),
                base,
                "matrix entry {},{} is disconnected",
                i,
                j
            );
        }
    }
}

#[test]
fn boundary_too_many_elements() {
    let p = fixture_params(2, 8, 9, PoseidonSbox::Exponentiation(5), 5);
    let inp = input_bytes(&[1, 2, 3]);
    assert_eq!(CRH::evaluate(&p, &inp), Err(CryptoError::IncorrectInputLength(3)));
    let inp65 = vec![1u8; 65];
    assert_eq!(CRH::evaluate(&p, &inp65), Err(CryptoError::IncorrectInputLength(3)));
}

#[test]
fn boundary_exact_width_accepted() {
    let p = fixture_params(2, 8, 9, PoseidonSbox::Exponentiation(5), 6);
    let inp = input_bytes(&[1, 2]);
    assert!(CRH::evaluate(&p, &inp).is_ok());
}

#[test]
fn config_rejects_unsupported_sbox() {
    let rounds =
        Rounds { width: 2, full_rounds: 2, partial_rounds: 0, sbox: PoseidonSbox::Exponentiation(4) };
    let mds = vec![vec![fe(1), fe(0)], vec![fe(0), fe(1)]];
    let r = PoseidonParameters::new(rounds, vec![fe(0); 4], mds);
    assert!(matches!(r, Err(PoseidonError::InvalidSboxSize(4))));
}

#[test]
fn config_rejects_shape_mismatches() {
    let sbox = PoseidonSbox::Exponentiation(3);
    let mds = vec![vec![fe(1), fe(0)], vec![fe(0), fe(1)]];
    // wrong key count
    let rounds = Rounds { width: 2, full_rounds: 2, partial_rounds: 0, sbox };
    let r = PoseidonParameters::new(rounds, vec![fe(0); 5], mds.clone());
    assert!(matches!(r, Err(PoseidonError::InvalidInputs)));
    // odd number of full rounds
    let rounds = Rounds { width: 2, full_rounds: 3, partial_rounds: 0, sbox };
    let r = PoseidonParameters::new(rounds, vec![fe(0); 6], mds.clone());
    assert!(matches!(r, Err(PoseidonError::InvalidInputs)));
    // zero width
    let rounds = Rounds { width: 0, full_rounds: 2, partial_rounds: 0, sbox };
    let r = PoseidonParameters::new(rounds, vec![], vec![]);
    assert!(matches!(r, Err(PoseidonError::InvalidInputs)));
    // ragged matrix
    let rounds = Rounds { width: 2, full_rounds: 2, partial_rounds: 0, sbox };
    let ragged = vec![vec![fe(1), fe(0)], vec![fe(0)]];
    let r = PoseidonParameters::new(rounds, vec![fe(0); 4], ragged);
    assert!(matches!(r, Err(PoseidonError::InvalidInputs)));
}

#[test]
fn inverse_sbox_of_zero_fails() {
    let rounds = Rounds { width: 2, full_rounds: 2, partial_rounds: 0, sbox: PoseidonSbox::Inverse };
    let mds = vec![vec![fe(1), fe(0)], vec![fe(0), fe(1)]];
    let p = PoseidonParameters::new(rounds, vec![fe(0); 4], mds).unwrap();
    assert_eq!(
        CRH::evaluate(&p, &[]),
        Err(CryptoError::Poseidon(PoseidonError::ApplySboxFailed))
    );
}

#[test]
fn inverse_sbox_matches_field_inverse() {
    let rounds = Rounds { width: 2, full_rounds: 2, partial_rounds: 0, sbox: PoseidonSbox::Inverse };
    let keys = vec![fe(1), fe(2), fe(3), fe(4)];
    let mds = vec![vec![fe(2), fe(1)], vec![fe(1), fe(1)]];
    let p = PoseidonParameters::new(rounds, keys, mds).unwrap();
    let inp = input_bytes(&[5, 7]);
    let res = CRH::evaluate(&p, &inp).unwrap();
    assert_eq!(to_fq(&res), oracle_evaluate(&p, &inp));
}

#[test]
fn decode_rejects_value_at_modulus() {
    let mut bytes = Vec::new();
    bytes.extend(poseidon_crh::field::FQ_LIMB_0.to_le_bytes());
    bytes.extend(poseidon_crh::field::FQ_LIMB_1.to_le_bytes());
    bytes.extend(poseidon_crh::field::FQ_LIMB_2.to_le_bytes());
    bytes.extend(poseidon_crh::field::FQ_LIMB_3.to_le_bytes());
    let p = fixture_params(2, 2, 0, PoseidonSbox::Exponentiation(3), 7);
    assert_eq!(CRH::evaluate(&p, &bytes), Err(CryptoError::NotPrimeOrder));
}
