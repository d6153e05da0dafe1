use ark_ed_on_bn254::Fq;
use ark_ff::FromBytes;
use ark_r1cs_std::alloc::AllocVar;
use ark_r1cs_std::boolean::Boolean;
use ark_r1cs_std::eq::EqGadget;
use ark_r1cs_std::fields::fp::FpVar;
use ark_r1cs_std::uint8::UInt8;
use ark_r1cs_std::R1CSVar;
use ark_r1cs_std::ToBitsGadget;
use ark_r1cs_std::ToBytesGadget;
use ark_relations::r1cs::ConstraintSystem;
use ark_relations::r1cs::ConstraintSystemRef;
use poseidon_crh::circuit::gadget_evaluate_elements;
use poseidon_crh::circuit::CircuitFp;
use poseidon_crh::field::FieldElement;
use poseidon_crh::poseidon::PoseidonParameters;
use poseidon_crh::poseidon::Rounds;
use poseidon_crh::poseidon::CRH;
use poseidon_crh::sbox::PoseidonSbox;

fn fe(x: u64) -> FieldElement {
    FieldElement::from_u64(x)
}

fn to_fq(f: &FieldElement) -> Fq {
    let bytes = f.to_le_bytes();
    Fq::read(&bytes[..]).unwrap()
}

fn fixture_keys(n: usize, seed: u64) -> Vec<FieldElement> {
    (0..n)
        .map(|i| fe((i as u64).wrapping_mul(0x9e3779b97f4a7c15).wrapping_add(seed)))
        .collect()
}

fn fixture_mds(w: usize, seed: u64) -> Vec<Vec<FieldElement>> {
    (0..w)
        .map(|i| {
            (0..w)
                .map(|j| fe(((i * w + j) as u64).wrapping_mul(0xbf58476d1ce4e5b9).wrapping_add(seed)))
                .collect()
        })
        .collect()
}

fn input_bytes(vals: &[u64]) -> Vec<u8> {
    let mut out = Vec::new();
    for v in vals {
        out.extend(fe(*v).to_le_bytes());
    }
    out
}

/// Run the library's verified circuit engine on witness bytes: allocate the
/// bytes, reconstruct the state by little-endian bits, and hand the
/// variables to the shipped gadget.
fn run_shipped_gadget(p: &PoseidonParameters, cs: ConstraintSystemRef<Fq>, input: &[u8]) -> Fq {
    let mut inp_u8 = Vec::new();
    for byte in input.iter() {
        inp_u8.push(UInt8::new_witness(cs.clone(), || Ok(*byte)).unwrap());
    }
    let f_var_inputs: Vec<FpVar<Fq>> = inp_u8
        .chunks(32)
        .map(|x| Boolean::le_bits_to_fp_var(x.to_bits_le().unwrap().as_slice()).unwrap())
        .collect();
    let elements: Vec<CircuitFp> =
        f_var_inputs.into_iter().map(|v| CircuitFp { inner: v }).collect();
    let out = gadget_evaluate_elements(p, elements).unwrap();
    out.inner.value().unwrap()
}

#[test]
fn test_poseidon_native_equality() {
    let rounds =
        Rounds { width: 3, full_rounds: 8, partial_rounds: 57, sbox: PoseidonSbox::Exponentiation(5) };
    let p = PoseidonParameters::new(rounds, fixture_keys(3 * 65, 1), fixture_mds(3, 1 ^ 0xabcdef))
        .unwrap();

    let cs = ConstraintSystem::<Fq>::new_ref();
    let inp = input_bytes(&[0, 1, 2]);

    let res = CRH::evaluate(&p, &inp).unwrap();
    let res_var = run_shipped_gadget(&p, cs, &inp);
    assert_eq!(to_fq(&res), res_var);
}

#[test]
fn circuit_equality_across_inputs() {
    let rounds =
        Rounds { width: 3, full_rounds: 8, partial_rounds: 9, sbox: PoseidonSbox::Exponentiation(3) };
    let p = PoseidonParameters::new(rounds, fixture_keys(3 * 17, 9), fixture_mds(3, 42)).unwrap();
    for sample in [[1u64, 2, 3], [0, 0, 0], [u64::MAX, 5, 0], [17, 0, 99]] {
        let cs = ConstraintSystem::<Fq>::new_ref();
        let inp = input_bytes(&sample);
        let res = CRH::evaluate(&p, &inp).unwrap();
        let res_var = run_shipped_gadget(&p, cs, &inp);
        assert_eq!(to_fq(&res), res_var);
    }
}

#[test]
fn circuit_equality_short_input() {
    let rounds =
        Rounds { width: 3, full_rounds: 8, partial_rounds: 9, sbox: PoseidonSbox::Exponentiation(5) };
    let p = PoseidonParameters::new(rounds, fixture_keys(3 * 17, 11), fixture_mds(3, 13)).unwrap();
    let cs = ConstraintSystem::<Fq>::new_ref();
    let inp = input_bytes(&[42, 7]);
    let res = CRH::evaluate(&p, &inp).unwrap();
    let res_var = run_shipped_gadget(&p, cs, &inp);
    assert_eq!(to_fq(&res), res_var);
}

#[test]
fn constraints_should_return_same_data() {
    let val = Fq::from(4u64);
    let cs = ConstraintSystem::<Fq>::new_ref();
    let val_var = FpVar::<Fq>::new_input(cs, || Ok(val)).unwrap();

    let bytes_var = val_var.to_bytes().unwrap();
    assert_eq!(bytes_var.len(), 32);
    let res_var: FpVar<Fq> =
        Boolean::le_bits_to_fp_var(&bytes_var.to_bits_le().unwrap()).unwrap();
    assert!(res_var.is_eq(&val_var).unwrap().value().unwrap());
}
