//! The prime field underlying every hash in this crate: the scalar field of
//! the BN254 pairing curve. An element is held in canonical form as four
//! little-endian 64-bit limbs whose combined value stays below the modulus;
//! the modular arithmetic itself is delegated to `ark_ff`.
use ark_ed_on_bn254::Fq;
use ark_ff::BigInteger256;
use ark_ff::Field;
use ark_ff::PrimeField;
use vstd::prelude::*;

verus! {

/// Least-significant limb of the field modulus.
pub const FQ_LIMB_0: u64 = 0x43e1f593f0000001;
/// Second limb of the field modulus.
pub const FQ_LIMB_1: u64 = 0x2833e84879b97091;
/// Third limb of the field modulus.
pub const FQ_LIMB_2: u64 = 0xb85045b68181585d;
/// Most-significant limb of the field modulus.
pub const FQ_LIMB_3: u64 = 0x30644e72e131a029;

/// 2^64, the weight of one limb.
pub open spec fn pow2_64() -> nat {
    0x10000000000000000
}

/// 2^128, the weight of the third limb.
pub open spec fn pow2_128() -> nat {
    pow2_64() * pow2_64()
}

/// 2^192, the weight of the fourth limb.
pub open spec fn pow2_192() -> nat {
    pow2_128() * pow2_64()
}

/// The prime modulus of the field: every element value is below it.
pub open spec fn fq() -> nat {
    (FQ_LIMB_0 + pow2_64() * (FQ_LIMB_1 + pow2_64() * (FQ_LIMB_2 + pow2_64() * FQ_LIMB_3))) as nat
}

/// The integer encoded by four little-endian 64-bit limbs.
pub open spec fn limbs_val(l: Seq<u64>) -> nat
    recommends
        l.len() == 4,
{
    (l[0] + pow2_64() * (l[1] + pow2_64() * (l[2] + pow2_64() * l[3]))) as nat
}

/// One element of the field, stored as its canonical (non-Montgomery)
/// little-endian limbs.
#[derive(Clone, Copy, Debug, PartialEq, Eq)]
pub struct FieldElement {
    limbs: [u64; 4],
}

impl FieldElement {
    /// The integer this element stands for.
    pub closed spec fn val(&self) -> nat {
        limbs_val(self.limbs@)
    }

    /// Canonical form: the value is a genuine field element, below the modulus.
    pub open spec fn wf(&self) -> bool {
        self.val() < fq()
    }

    /// The element with a small given value.
    pub fn from_u64(x: u64) -> (r: FieldElement)
        ensures
            r.val() == x,
            r.wf(),
    {
        let r = FieldElement { limbs: [x, 0, 0, 0] };
        proof {
            assert(r.limbs@ =~= seq![x, 0u64, 0u64, 0u64]);
            assert(r.val() == x);
            assert(x < fq());
        }
        r
    }

    /// The four limbs, for the wrappers that hand the value to `ark_ff`.
    pub(crate) fn raw_limbs(&self) -> (r: [u64; 4])
        ensures
            limbs_val(r@) == self.val(),
    {
        self.limbs
    }

    /// Whether the stored value is a genuine field element.
    pub fn is_canonical(&self) -> (r: bool)
        ensures
            r == self.wf(),
    {
        let l = self.limbs;
        let r = limbs_canonical(l[0], l[1], l[2], l[3]);
        proof {
            assert(self.limbs@ =~= seq![l[0], l[1], l[2], l[3]]);
        }
        r
    }

    /// The additive identity.
    pub fn zero() -> (r: FieldElement)
        ensures
            r.val() == 0,
            r.wf(),
    {
        FieldElement::from_u64(0)
    }
}

/// Two limb vectors encoding the same integer are identical: each limb is a
/// base-2^64 digit of the value.
pub proof fn lemma_limbs_val_injective(a: Seq<u64>, b: Seq<u64>)
    requires
        a.len() == 4,
        b.len() == 4,
        limbs_val(a) == limbs_val(b),
    ensures
        a =~= b,
{
    lemma_limb_digits(a);
    lemma_limb_digits(b);
}

/// Each limb is a base-2^64 digit of the encoded value, so it equals a fixed
/// quotient/remainder of that value.
proof fn lemma_limb_digits(l: Seq<u64>)
    requires
        l.len() == 4,
    ensures
        l[0] == limbs_val(l) as int % pow2_64() as int,
        l[1] == (limbs_val(l) as int / pow2_64() as int) % pow2_64() as int,
        l[2] == ((limbs_val(l) as int / pow2_64() as int) / pow2_64() as int) % pow2_64() as int,
        l[3] == ((limbs_val(l) as int / pow2_64() as int) / pow2_64() as int) / pow2_64() as int,
{
    let b = pow2_64() as int;
    let v = limbs_val(l) as int;
    let q1 = l[1] + b * (l[2] + b * l[3]);
    let q2 = l[2] + b * l[3];
    let q3 = l[3] as int;
    vstd::arithmetic::div_mod::lemma_fundamental_div_mod_converse(v, b, q1, l[0] as int);
    vstd::arithmetic::div_mod::lemma_fundamental_div_mod_converse(q1, b, q2, l[1] as int);
    vstd::arithmetic::div_mod::lemma_fundamental_div_mod_converse(q2, b, q3, l[2] as int);
}

/// Two elements with the same value are the same element.
pub proof fn lemma_element_determined(a: FieldElement, b: FieldElement)
    requires
        a.val() == b.val(),
    ensures
        a == b,
{
    lemma_limbs_val_injective(a.limbs@, b.limbs@);
    assert(a.limbs =~= b.limbs);
}

/// The canonical element holding a given value.
pub open spec fn elem_of(v: nat) -> FieldElement {
    choose|f: FieldElement| f.wf() && #[trigger] f.val() == v
}

/// Every canonical element is the one its value names.
pub proof fn lemma_elem_of(f: FieldElement)
    requires
        f.wf(),
    ensures
        elem_of(f.val()) == f,
{
    assert(elem_of(f.val()).wf() && elem_of(f.val()).val() == f.val()) by {
        assert(f.wf() && f.val() == f.val());
    }
    lemma_element_determined(elem_of(f.val()), f);
}

/// The multiplicative inverse of x in the field, where one exists.
pub open spec fn inv_of(x: nat) -> nat {
    choose|r: nat| r < fq() && #[trigger] ((x * r) % fq()) == 1
}

/// An element has at most one inverse below the modulus.
pub proof fn lemma_inverse_unique(x: nat, r1: nat, r2: nat)
    requires
        r1 < fq(),
        r2 < fq(),
        (x * r1) % fq() == 1,
        (x * r2) % fq() == 1,
    ensures
        r1 == r2,
{
    let q = fq() as int;
    let xi = x as int;
    let a = r1 as int;
    let b = r2 as int;
    assert(q > 1);
    vstd::arithmetic::div_mod::lemma_small_mod(r1, fq());
    vstd::arithmetic::div_mod::lemma_small_mod(r2, fq());
    vstd::arithmetic::div_mod::lemma_mul_mod_noop_right(a, xi * b, q);
    vstd::arithmetic::mul::lemma_mul_is_associative(a, xi, b);
    vstd::arithmetic::mul::lemma_mul_is_commutative(a, xi);
    vstd::arithmetic::div_mod::lemma_mul_mod_noop_left(xi * a, b, q);
    assert((xi * b) % q == 1);
    assert((a * ((xi * b) % q)) % q == (a * (xi * b)) % q);
    assert(a * ((xi * b) % q) == a);
    assert(a % q == a);
    assert((a * (xi * b)) % q == ((xi * a) * b) % q);
    assert(((xi * a) % q) * b == b);
    assert((((xi * a) % q) * b) % q == ((xi * a) * b) % q);
    assert(b % q == b);
}

/// The value an inverse wrapper hands back is the inverse the spec names.
pub proof fn lemma_inv_of_witness(x: nat, r: nat)
    requires
        r < fq(),
        (x * r) % fq() == 1,
    ensures
        inv_of(x) == r,
        inv_of(x) < fq(),
        (x * inv_of(x)) % fq() == 1,
{
    assert(inv_of(x) < fq() && (x * inv_of(x)) % fq() == 1) by {
        assert(r < fq() && (x * r) % fq() == 1);
    }
    lemma_inverse_unique(x, inv_of(x), r);
}

/// Relies on `ark_ff`'s field addition on the BN254 scalar field
/// (`ark_ed_on_bn254::Fq`): the result is the sum of the two operands reduced
/// by the field modulus. `from_repr` accepts exactly the values below the
/// modulus, and `into_repr` returns the canonical representative.
#[verifier::external_body]
pub(crate) fn fe_add(a: &FieldElement, b: &FieldElement) -> (r: FieldElement)
    requires
        a.wf(),
        b.wf(),
    ensures
        r.wf(),
        r.val() == (a.val() + b.val()) % fq(),
{
    let x = Fq::from_repr(BigInteger256::new(a.limbs)).unwrap();
    let y = Fq::from_repr(BigInteger256::new(b.limbs)).unwrap();
    FieldElement { limbs: (x + y).into_repr().0 }
}

/// Relies on `ark_ff`'s field multiplication on the BN254 scalar field:
/// the result is the product of the two operands reduced by the modulus.
#[verifier::external_body]
pub(crate) fn fe_mul(a: &FieldElement, b: &FieldElement) -> (r: FieldElement)
    requires
        a.wf(),
        b.wf(),
    ensures
        r.wf(),
        r.val() == (a.val() * b.val()) % fq(),
{
    let x = Fq::from_repr(BigInteger256::new(a.limbs)).unwrap();
    let y = Fq::from_repr(BigInteger256::new(b.limbs)).unwrap();
    FieldElement { limbs: (x * y).into_repr().0 }
}

/// Relies on `ark_ff`'s `Field::inverse` on the BN254 scalar field: `None`
/// exactly on the additive identity, otherwise the multiplicative inverse.
#[verifier::external_body]
pub(crate) fn fe_inverse(a: &FieldElement) -> (r: Option<FieldElement>)
    requires
        a.wf(),
    ensures
        match r {
            Some(f) => a.val() != 0 && f.wf() && (a.val() * f.val()) % fq() == 1,
            None => a.val() == 0,
        },
{
    let x = Fq::from_repr(BigInteger256::new(a.limbs)).unwrap();
    match x.inverse() {
        Some(inv) => Some(FieldElement { limbs: inv.into_repr().0 }),
        None => None,
    }
}

/// The integer encoded by a little-endian byte string: the first byte is the
/// least significant.
pub open spec fn le_val(s: Seq<u8>) -> nat
    decreases s.len(),
{
    if s.len() == 0 {
        0
    } else {
        (s[0] + 256 * le_val(s.drop_first())) as nat
    }
}

/// 256^n, the weight of the byte at position n.
pub open spec fn pow256(n: nat) -> nat
    decreases n,
{
    if n == 0 {
        1
    } else {
        256 * pow256((n - 1) as nat)
    }
}

/// The byte weights up to position 8, as plain numbers.
pub proof fn lemma_pow256_values()
    ensures
        pow256(1) == 0x100,
        pow256(2) == 0x10000,
        pow256(3) == 0x1000000,
        pow256(4) == 0x100000000,
        pow256(5) == 0x10000000000,
        pow256(6) == 0x1000000000000,
        pow256(7) == 0x100000000000000,
        pow256(8) == 0x10000000000000000,
{
    assert(pow256(0) == 1);
    assert(pow256(1) == 0x100);
    assert(pow256(2) == 0x10000);
    assert(pow256(3) == 0x1000000);
    assert(pow256(4) == 0x100000000);
    assert(pow256(5) == 0x10000000000);
    assert(pow256(6) == 0x1000000000000);
    assert(pow256(7) == 0x100000000000000);
    assert(pow256(8) == 0x10000000000000000);
}

/// Byte weights grow with the position.
pub proof fn lemma_pow256_increases(a: nat, b: nat)
    requires
        a <= b,
    ensures
        pow256(a) <= pow256(b),
    decreases b,
{
    if a < b {
        lemma_pow256_increases(a, (b - 1) as nat);
    }
}

/// Splitting a byte string splits its value: the tail is weighted by the
/// length of the head.
pub proof fn lemma_le_val_split(s: Seq<u8>, k: int)
    requires
        0 <= k <= s.len(),
    ensures
        le_val(s) == le_val(s.take(k)) + pow256(k as nat) * le_val(s.skip(k)),
    decreases k,
{
    if k == 0 {
        assert(s.take(0) =~= Seq::<u8>::empty());
        assert(s.skip(0) =~= s);
        assert(le_val(s.take(k)) == 0);
        assert(le_val(s.skip(k)) == le_val(s));
        assert(pow256(k as nat) == 1);
        assert(le_val(s) == le_val(s.take(k)) + pow256(k as nat) * le_val(s.skip(k)));
    } else {
        let t = s.drop_first();
        lemma_le_val_split(t, k - 1);
        assert(s.take(k).drop_first() =~= t.take(k - 1));
        assert(s.skip(k) =~= t.skip(k - 1));
        assert(s.take(k)[0] == s[0]);
        let a = le_val(t.take(k - 1)) as int;
        let p = pow256((k - 1) as nat) as int;
        let x = le_val(t.skip(k - 1)) as int;
        assert(le_val(t) == a + p * x);
        vstd::arithmetic::mul::lemma_mul_is_distributive_add(256, a, p * x);
        vstd::arithmetic::mul::lemma_mul_is_associative(256, p, x);
        assert(le_val(s) == s[0] + 256 * a + (256 * p) * x);
        assert(le_val(s.take(k)) == s[0] + 256 * a);
        assert(pow256(k as nat) == 256 * pow256((k - 1) as nat));
        assert(le_val(s.skip(k)) == x);
        assert(pow256(k as nat) * le_val(s.skip(k)) == (256 * p) * x);
        assert(le_val(s) == le_val(s.take(k)) + pow256(k as nat) * le_val(s.skip(k)));
    }
}

/// Appending one byte adds its weighted value.
pub proof fn lemma_le_val_snoc(s: Seq<u8>, x: u8)
    ensures
        le_val(s.push(x)) == le_val(s) + pow256(s.len()) * x,
{
    lemma_le_val_split(s.push(x), s.len() as int);
    assert(s.push(x).take(s.len() as int) =~= s);
    let tail = s.push(x).skip(s.len() as int);
    assert(tail =~= seq![x]);
    assert(tail.len() == 1);
    assert(tail[0] == x);
    assert(le_val(tail.drop_first()) == 0);
    assert(le_val(tail) == x);
}

/// The value of a concatenation: the second part is weighted by the length of
/// the first.
pub proof fn lemma_le_val_concat(a: Seq<u8>, b: Seq<u8>)
    ensures
        le_val(a + b) == le_val(a) + pow256(a.len()) * le_val(b),
{
    lemma_le_val_split(a + b, a.len() as int);
    assert((a + b).take(a.len() as int) =~= a);
    assert((a + b).skip(a.len() as int) =~= b);
}

/// Two byte strings of the same length with the same value are identical:
/// the encoding is canonical.
pub proof fn lemma_le_val_injective(a: Seq<u8>, b: Seq<u8>)
    requires
        a.len() == b.len(),
        le_val(a) == le_val(b),
    ensures
        a =~= b,
    decreases a.len(),
{
    if a.len() > 0 {
        let ta = a.drop_first();
        let tb = b.drop_first();
        vstd::arithmetic::div_mod::lemma_fundamental_div_mod_converse(
            le_val(a) as int,
            256,
            le_val(ta) as int,
            a[0] as int,
        );
        vstd::arithmetic::div_mod::lemma_fundamental_div_mod_converse(
            le_val(b) as int,
            256,
            le_val(tb) as int,
            b[0] as int,
        );
        lemma_le_val_injective(ta, tb);
        assert(forall|i: int| 1 <= i < a.len() ==> a[i] == ta[i - 1] && b[i] == tb[i - 1]);
    }
}

/// One limb read from the bytes at positions `from..to`, least significant
/// first.
fn le_limb(b: &[u8], from: usize, to: usize) -> (r: u64)
    requires
        from <= to,
        to <= b@.len(),
        to - from <= 8,
    ensures
        r == le_val(b@.subrange(from as int, to as int)),
{
    let mut r: u64 = 0;
    let mut i: usize = to;
    while i > from
        invariant
            from <= i <= to,
            to <= b@.len(),
            to - from <= 8,
            r == le_val(b@.subrange(i as int, to as int)),
            r < pow256((to - i) as nat),
        decreases i,
    {
        proof {
            lemma_pow256_values();
            lemma_pow256_increases((to - i) as nat, 7);
        }
        i = i - 1;
        let byte = b[i];
        proof {
            let s = b@.subrange(i as int, to as int);
            assert(s.drop_first() =~= b@.subrange(i + 1, to as int));
            assert(s[0] == b@[i as int]);
        }
        r = r * 256 + (byte as u64);
    }
    r
}

/// Whether four limbs, read as one little-endian integer, fall below the
/// modulus; the comparison runs from the most significant limb down.
fn limbs_canonical(l0: u64, l1: u64, l2: u64, l3: u64) -> (r: bool)
    ensures
        r == (limbs_val(seq![l0, l1, l2, l3]) < fq()),
{
    proof {
        let l = seq![l0, l1, l2, l3];
        assert(limbs_val(l) == (l0 + pow2_64() * (l1 + pow2_64() * (l2 + pow2_64() * l3))) as nat);
    }
    if l3 != FQ_LIMB_3 {
        l3 < FQ_LIMB_3
    } else if l2 != FQ_LIMB_2 {
        l2 < FQ_LIMB_2
    } else if l1 != FQ_LIMB_1 {
        l1 < FQ_LIMB_1
    } else {
        l0 < FQ_LIMB_0
    }
}

impl FieldElement {
    /// Decode the bytes at positions `from..to` as a little-endian integer;
    /// the element exists exactly when that integer is below the modulus.
    pub fn from_le_bytes_at(b: &[u8], from: usize, to: usize) -> (r: Option<FieldElement>)
        requires
            from <= to,
            to <= b@.len(),
            to - from <= 32,
        ensures
            match r {
                Some(f) => f.wf() && f.val() == le_val(b@.subrange(from as int, to as int)),
                None => le_val(b@.subrange(from as int, to as int)) >= fq(),
            },
    {
        let e1 = if to - from >= 8 { from + 8 } else { to };
        let e2 = if to - e1 >= 8 { e1 + 8 } else { to };
        let e3 = if to - e2 >= 8 { e2 + 8 } else { to };
        let l0 = le_limb(b, from, e1);
        let l1 = le_limb(b, e1, e2);
        let l2 = le_limb(b, e2, e3);
        let l3 = le_limb(b, e3, to);
        proof {
            lemma_pow256_values();
            let s = b@.subrange(from as int, to as int);
            lemma_chunk_limbs(b@, from as int, e1 as int, e2 as int, e3 as int, to as int);
            assert(limbs_val(seq![l0, l1, l2, l3]) == le_val(s));
        }
        if limbs_canonical(l0, l1, l2, l3) {
            let f = FieldElement { limbs: [l0, l1, l2, l3] };
            proof {
                assert(f.limbs@ =~= seq![l0, l1, l2, l3]);
            }
            Some(f)
        } else {
            None
        }
    }

    /// The canonical 32-byte little-endian encoding of this element.
    pub fn to_le_bytes(&self) -> (r: Vec<u8>)
        ensures
            r@.len() == 32,
            le_val(r@) == self.val(),
    {
        let l = self.limbs;
        let mut out = limb_to_le_bytes(l[0]);
        let p1 = limb_to_le_bytes(l[1]);
        let p2 = limb_to_le_bytes(l[2]);
        let p3 = limb_to_le_bytes(l[3]);
        let ghost g0 = out@;
        append_bytes(&mut out, &p1);
        append_bytes(&mut out, &p2);
        append_bytes(&mut out, &p3);
        proof {
            lemma_pow256_values();
            let rest2 = p2@ + p3@;
            let rest1 = p1@ + rest2;
            lemma_le_val_concat(p2@, p3@);
            lemma_le_val_concat(p1@, rest2);
            lemma_le_val_concat(g0, rest1);
            assert(out@ =~= g0 + rest1);
            assert(le_val(rest2) == l[2] + pow256(8) * l[3]);
            assert(le_val(rest1) == l[1] + pow256(8) * le_val(rest2));
            assert(le_val(out@) == l[0] + pow256(8) * le_val(rest1));
            assert(limbs_val(self.limbs@) == (l[0] + pow2_64() * (l[1] + pow2_64() * (l[2]
                + pow2_64() * l[3]))) as nat);
            assert(pow256(8) == pow2_64());
            assert(le_val(out@) == limbs_val(self.limbs@));
        }
        out
    }
}

/// The value of a byte range splits into four limb values with the nested
/// base-2^64 weights.
proof fn lemma_chunk_limbs(b: Seq<u8>, from: int, e1: int, e2: int, e3: int, to: int)
    requires
        0 <= from <= e1 <= e2 <= e3 <= to <= b.len(),
        e1 == if to - from >= 8 { from + 8 } else { to },
        e2 == if to - e1 >= 8 { e1 + 8 } else { to },
        e3 == if to - e2 >= 8 { e2 + 8 } else { to },
        to - from <= 32,
    ensures
        le_val(b.subrange(from, to)) == le_val(b.subrange(from, e1)) + pow2_64() * (le_val(
            b.subrange(e1, e2),
        ) + pow2_64() * (le_val(b.subrange(e2, e3)) + pow2_64() * le_val(b.subrange(e3, to)))),
{
    lemma_pow256_values();
    let s = b.subrange(from, to);
    lemma_le_val_split(s, e1 - from);
    assert(s.take(e1 - from) =~= b.subrange(from, e1));
    assert(s.skip(e1 - from) =~= b.subrange(e1, to));
    let s1 = b.subrange(e1, to);
    lemma_le_val_split(s1, e2 - e1);
    assert(s1.take(e2 - e1) =~= b.subrange(e1, e2));
    assert(s1.skip(e2 - e1) =~= b.subrange(e2, to));
    let s2 = b.subrange(e2, to);
    lemma_le_val_split(s2, e3 - e2);
    assert(s2.take(e3 - e2) =~= b.subrange(e2, e3));
    assert(s2.skip(e3 - e2) =~= b.subrange(e3, to));
    if e1 == to {
        assert(b.subrange(e1, e2) =~= Seq::<u8>::empty());
        assert(b.subrange(e2, e3) =~= Seq::<u8>::empty());
        assert(b.subrange(e3, to) =~= Seq::<u8>::empty());
    } else if e2 == to {
        assert(b.subrange(e2, e3) =~= Seq::<u8>::empty());
        assert(b.subrange(e3, to) =~= Seq::<u8>::empty());
    } else if e3 == to {
        assert(b.subrange(e3, to) =~= Seq::<u8>::empty());
    }
}

/// The eight little-endian bytes of one limb.
fn limb_to_le_bytes(v: u64) -> (r: Vec<u8>)
    ensures
        r@.len() == 8,
        le_val(r@) == v,
{
    let mut out: Vec<u8> = Vec::new();
    let mut rem = v;
    let mut k: usize = 0;
    proof {
        lemma_pow256_values();
        assert(out@ =~= Seq::<u8>::empty());
        assert(le_val(out@) == 0);
        assert(pow256(0) == 1);
        assert(pow256(0) * rem == rem);
    }
    while k < 8
        invariant
            k <= 8,
            out@.len() == k,
            le_val(out@) + pow256(k as nat) * rem == v,
            rem < pow256((8 - k) as nat),
        decreases 8 - k,
    {
        let byte = (rem % 256) as u8;
        let next = rem / 256;
        proof {
            lemma_le_val_snoc(out@, byte);
            let p = pow256(k as nat) as int;
            vstd::arithmetic::mul::lemma_mul_is_distributive_add(p, byte as int, 256 * next);
            vstd::arithmetic::mul::lemma_mul_is_associative(p, 256, next as int);
            vstd::arithmetic::mul::lemma_mul_is_commutative(p, 256);
            assert(byte + 256 * next == rem);
            assert(p * (byte + 256 * next) == p * byte + (256 * p) * next);
        }
        out.push(byte);
        rem = next;
        k = k + 1;
    }
    proof {
        assert(rem == 0);
        assert(pow256(8) * 0 == 0);
    }
    out
}

/// Append a copy of `part` to `out`.
fn append_bytes(out: &mut Vec<u8>, part: &Vec<u8>)
    ensures
        final(out)@ == old(out)@ + part@,
{
    let mut j: usize = 0;
    proof {
        assert(out@ =~= out@ + part@.take(0));
    }
    while j < part.len()
        invariant
            j <= part@.len(),
            out@ == old(out)@ + part@.take(j as int),
        decreases part@.len() - j,
    {
        out.push(part[j]);
        proof {
            assert(out@ =~= old(out)@ + part@.take(j + 1));
        }
        j = j + 1;
    }
    proof {
        assert(part@.take(part@.len() as int) =~= part@);
    }
}

} // verus!
