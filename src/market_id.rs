//! Market identifiers: the XDR encoding of the description as a string
//! value, followed by the creation sequence number as four little-endian
//! bytes.
use vstd::prelude::*;

use soroban_sdk::xdr::{Limits, ScString, ScVal, StringM, WriteXdr};

verus! {

/// The identifier under which a market is registered.
pub type MarketId = Vec<u8>;

/// The byte of `n` that starts at bit `shift`.
pub open spec fn byte_of(n: u32, shift: u32) -> u8 {
    ((n >> shift) & 0xffu32) as u8
}

/// `n` as four big-endian bytes.
pub open spec fn be32(n: u32) -> Seq<u8> {
    seq![byte_of(n, 24), byte_of(n, 16), byte_of(n, 8), byte_of(n, 0)]
}

/// `n` as four little-endian bytes.
pub open spec fn le32(n: u32) -> Seq<u8> {
    seq![byte_of(n, 0), byte_of(n, 8), byte_of(n, 16), byte_of(n, 24)]
}

/// The zero bytes that pad `len` bytes to a multiple of four.
pub open spec fn xdr_padding(len: nat) -> Seq<u8> {
    Seq::new(((4 - len % 4) % 4) as nat, |i: int| 0u8)
}

/// The XDR encoding of a string value: the value kind (14) and the length as
/// big-endian words, then the bytes, zero-padded to a multiple of four.
pub open spec fn xdr_string(s: Seq<u8>) -> Seq<u8> {
    be32(14) + be32(s.len() as u32) + s + xdr_padding(s.len())
}

/// The identifier of the market with this description created at this
/// sequence number.
pub open spec fn market_id_of(desc: Seq<u8>, sequence: u32) -> Seq<u8> {
    xdr_string(desc) + le32(sequence)
}

/// Relies on the XDR writer re-exported as `soroban_sdk::xdr`
/// (`WriteXdr::to_xdr` with `Limits::none()`) applied to `ScVal::String`: it
/// writes the value kind and the length as big-endian 32-bit words, then the
/// bytes and up to three zero bytes of padding, and fails only on a string
/// longer than `u32::MAX` bytes.
#[verifier::external_body]
fn string_to_xdr(s: &Vec<u8>) -> (r: Option<Vec<u8>>)
    ensures
        r is Some <==> s@.len() <= u32::MAX,
        r matches Some(v) ==> v@ == xdr_string(s@),
{
    let text: StringM = s.clone().try_into().ok()?;
    ScVal::String(ScString(text)).to_xdr(Limits::none()).ok()
}

/// Derives the identifier of a market from its description and the sequence
/// number at which it is created.
pub fn gen_market_id(sequence: u32, desc: &Vec<u8>) -> (r: MarketId)
    requires
        desc@.len() <= u32::MAX,
    ensures
        r@ == market_id_of(desc@, sequence),
{
    let mut id = match string_to_xdr(desc) {
        Some(v) => v,
        None => Vec::new(),
    };
    proof {
        assert(((sequence >> 0u32) & 0xffu32) <= 0xff) by (bit_vector);
        assert(((sequence >> 8u32) & 0xffu32) <= 0xff) by (bit_vector);
        assert(((sequence >> 16u32) & 0xffu32) <= 0xff) by (bit_vector);
        assert(((sequence >> 24u32) & 0xffu32) <= 0xff) by (bit_vector);
    }
    id.push(((sequence >> 0u32) & 0xffu32) as u8);
    id.push(((sequence >> 8u32) & 0xffu32) as u8);
    id.push(((sequence >> 16u32) & 0xffu32) as u8);
    id.push(((sequence >> 24u32) & 0xffu32) as u8);
    assert(id@ =~= market_id_of(desc@, sequence));
    id
}

proof fn lemma_bytes_determine(x: u32, y: u32)
    requires
        byte_of(x, 0) == byte_of(y, 0),
        byte_of(x, 8) == byte_of(y, 8),
        byte_of(x, 16) == byte_of(y, 16),
        byte_of(x, 24) == byte_of(y, 24),
    ensures
        x == y,
{
    assert(((x >> 0u32) & 0xffu32) < 256 && ((y >> 0u32) & 0xffu32) < 256) by (bit_vector);
    assert(((x >> 8u32) & 0xffu32) < 256 && ((y >> 8u32) & 0xffu32) < 256) by (bit_vector);
    assert(((x >> 16u32) & 0xffu32) < 256 && ((y >> 16u32) & 0xffu32) < 256) by (bit_vector);
    assert(((x >> 24u32) & 0xffu32) < 256 && ((y >> 24u32) & 0xffu32) < 256) by (bit_vector);
    assert(x == y) by (bit_vector)
        requires
            (x >> 0u32) & 0xffu32 == (y >> 0u32) & 0xffu32,
            (x >> 8u32) & 0xffu32 == (y >> 8u32) & 0xffu32,
            (x >> 16u32) & 0xffu32 == (y >> 16u32) & 0xffu32,
            (x >> 24u32) & 0xffu32 == (y >> 24u32) & 0xffu32,
    ;
}

/// Market identifiers are deterministic and collision-free: two creations
/// get the same identifier exactly when they have the same description and
/// the same sequence number.
pub proof fn lemma_market_id_unique(d1: Seq<u8>, s1: u32, d2: Seq<u8>, s2: u32)
    requires
        d1.len() <= u32::MAX,
        d2.len() <= u32::MAX,
    ensures
        market_id_of(d1, s1) == market_id_of(d2, s2) <==> (d1 == d2 && s1 == s2),
{
    let a = market_id_of(d1, s1);
    let b = market_id_of(d2, s2);
    if a == b {
        let n1 = d1.len() as u32;
        let n2 = d2.len() as u32;
        assert(a[4] == byte_of(n1, 24) && b[4] == byte_of(n2, 24));
        assert(a[5] == byte_of(n1, 16) && b[5] == byte_of(n2, 16));
        assert(a[6] == byte_of(n1, 8) && b[6] == byte_of(n2, 8));
        assert(a[7] == byte_of(n1, 0) && b[7] == byte_of(n2, 0));
        lemma_bytes_determine(n1, n2);
        assert forall|k: int| 0 <= k < d1.len() implies d1[k] == d2[k] by {
            assert(a[8 + k] == d1[k] && b[8 + k] == d2[k]);
        }
        assert(d1 =~= d2);
        let e = a.len() - 4;
        assert(a[e] == byte_of(s1, 0) && b[e] == byte_of(s2, 0));
        assert(a[e + 1] == byte_of(s1, 8) && b[e + 1] == byte_of(s2, 8));
        assert(a[e + 2] == byte_of(s1, 16) && b[e + 2] == byte_of(s2, 16));
        assert(a[e + 3] == byte_of(s1, 24) && b[e + 3] == byte_of(s2, 24));
        lemma_bytes_determine(s1, s2);
    }
}

} // verus!
