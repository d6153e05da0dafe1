//! Collision-resistant hash primitives over the BN254 scalar field: a
//! byte-level identity hash and the Poseidon permutation hash, with the
//! byte-to-field decoding they share.
use vstd::prelude::*;

pub mod circuit;
pub mod crh;
pub mod field;
pub mod identity;
pub mod poseidon;
pub mod sbox;

use crate::field::fq;
use crate::field::le_val;
use crate::field::FieldElement;
use crate::poseidon::all_wf;
use crate::poseidon::vals;
use crate::poseidon::PoseidonError;

verus! {

/// What can go wrong at the byte-level hash boundary.
#[derive(Clone, Copy, Debug, PartialEq, Eq)]
pub enum CryptoError {
    /// The input decoded to a number of field elements the configured hash
    /// cannot take; carries that number.
    IncorrectInputLength(usize),
    /// A full chunk of the input encodes no element of the prime-order
    /// field: its value reaches the modulus.
    NotPrimeOrder,
    /// The permutation itself refused to run; carries its error.
    Poseidon(PoseidonError),
}

/// How many chunks a byte string of this length splits into: 32 bytes per
/// chunk, with a shorter final chunk.
pub open spec fn n_chunks(len: nat) -> nat {
    (len + 31) / 32
}

/// The k-th chunk of a byte string.
pub open spec fn chunk(b: Seq<u8>, k: int) -> Seq<u8> {
    b.subrange(
        32 * k,
        if 32 * k + 32 <= b.len() {
            32 * k + 32
        } else {
            b.len() as int
        },
    )
}

/// Whether every chunk of the input encodes a field element.
pub open spec fn decode_ok(b: Seq<u8>) -> bool {
    forall|k: int| 0 <= k < n_chunks(b.len()) ==> le_val(#[trigger] chunk(b, k)) < fq()
}

/// The field-element values the input decodes to, chunk by chunk.
pub open spec fn decoded(b: Seq<u8>) -> Seq<nat> {
    Seq::new(n_chunks(b.len()) as nat, |k: int| le_val(chunk(b, k)))
}

/// A chunk that starts strictly inside the input is a real chunk.
proof fn lemma_chunk_index(n: nat, k: nat)
    requires
        32 * k < n,
    ensures
        k < n_chunks(n),
{
    vstd::arithmetic::div_mod::lemma_div_is_ordered(32 * (k + 1) as int, (n + 31) as int, 32);
    vstd::arithmetic::div_mod::lemma_div_by_multiple((k + 1) as int, 32);
}

/// When the length is an exact multiple of the chunk size, that multiple is
/// the chunk count.
proof fn lemma_chunk_count_exact(n: nat, k: nat)
    requires
        n == 32 * k,
    ensures
        n_chunks(n) == k,
{
    vstd::arithmetic::div_mod::lemma_fundamental_div_mod_converse(
        (n + 31) as int,
        32,
        k as int,
        31,
    );
}

/// A shorter final chunk still counts: the count is one past its index.
proof fn lemma_chunk_count_short(n: nat, k: nat)
    requires
        32 * k < n,
        n < 32 * (k + 1),
    ensures
        n_chunks(n) == k + 1,
{
    vstd::arithmetic::div_mod::lemma_fundamental_div_mod_converse(
        (n + 31) as int,
        32,
        (k + 1) as int,
        (n + 31 - 32 * (k + 1)) as int,
    );
}

/// Split a byte string into field elements, 32 little-endian bytes at a
/// time; the final chunk may be shorter. Fails exactly when some full chunk
/// reaches the modulus.
pub fn to_field_elements(bytes: &[u8]) -> (r: Result<Vec<FieldElement>, CryptoError>)
    ensures
        match r {
            Ok(v) => decode_ok(bytes@) && v@.len() == n_chunks(bytes@.len()) && all_wf(v@) && vals(
                v@,
            ) == decoded(bytes@),
            Err(e) => !decode_ok(bytes@) && e == CryptoError::NotPrimeOrder,
        },
{
    let n = bytes.len();
    let mut out: Vec<FieldElement> = Vec::new();
    let mut pos: usize = 0;
    let mut k: usize = 0;
    while pos < n
        invariant
            n == bytes@.len(),
            k <= n_chunks(n as nat),
            pos == if 32 * (k as int) <= n {
                32 * (k as int)
            } else {
                n as int
            },
            out@.len() == k,
            forall|j: int|
                0 <= j < k ==> (#[trigger] out@[j]).wf() && out@[j].val() == le_val(
                    chunk(bytes@, j),
                ),
            forall|j: int| 0 <= j < k ==> le_val(#[trigger] chunk(bytes@, j)) < fq(),
        decreases n - pos,
    {
        proof {
            lemma_chunk_index(n as nat, k as nat);
        }
        let end = if n - pos >= 32 {
            pos + 32
        } else {
            n
        };
        proof {
            assert(chunk(bytes@, k as int) =~= bytes@.subrange(pos as int, end as int));
            if end == n && n < pos + 32 {
                lemma_chunk_count_short(n as nat, k as nat);
            }
            if end == pos + 32 && end == n {
                lemma_chunk_count_exact(n as nat, (k + 1) as nat);
            }
        }
        match FieldElement::from_le_bytes_at(bytes, pos, end) {
            Some(f) => {
                out.push(f);
            },
            None => {
                return Err(CryptoError::NotPrimeOrder);
            },
        }
        pos = end;
        k = k + 1;
    }
    proof {
        if 32 * (k as int) <= n {
            lemma_chunk_count_exact(n as nat, k as nat);
        }
        assert(vals(out@) =~= decoded(bytes@));
    }
    Ok(out)
}

} // verus!
