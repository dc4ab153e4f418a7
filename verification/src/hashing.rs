//! Deterministic, domain-separated derivation of invoice identifiers,
//! payment-correlation memos and shop sub-identifiers.
//!
//! Every derivation hashes a tagged preimage with a cryptographic hash
//! function; the digest is named by the uninterpreted function `blake3_of`,
//! so contracts can state exactly which preimage a value was derived from
//! without writing out the hash algorithm.

use vstd::prelude::*;
use crate::types::{InvoiceId, ShopId, Subaccount};

verus! {

/// The 32-byte digest that the hash function returns for the given input.
pub uninterp spec fn blake3_of(data: Seq<u8>) -> Seq<u8>;

/// Relies on blake3::hash: the digest is a pure function of the input bytes
/// and is 32 bytes wide.
#[verifier::external_body]
fn blake3_digest(data: &Vec<u8>) -> (r: [u8; 32])
    ensures
        r@ == blake3_of(data@),
{
    *blake3::hash(data.as_slice()).as_bytes()
}

/// Domain-separation tag mixed into identifier derivations ("ID").
pub open spec fn id_domain() -> Seq<u8> {
    seq![73u8, 68u8]
}

/// Domain-separation tag mixed into memo derivations ("MEMO").
pub open spec fn memo_domain() -> Seq<u8> {
    seq![77u8, 69u8, 77u8, 79u8]
}

/// Domain-separation tag mixed into sub-identifier derivations ("SUB").
pub open spec fn subaccount_domain() -> Seq<u8> {
    seq![83u8, 85u8, 66u8]
}

/// Little-endian serialization of a 64-bit value, used as a hash salt.
pub open spec fn u64_le_bytes(x: u64) -> Seq<u8> {
    seq![
        (x % 256) as u8,
        ((x / 256) % 256) as u8,
        ((x / 65536) % 256) as u8,
        ((x / 16777216) % 256) as u8,
        ((x / 4294967296) % 256) as u8,
        ((x / 1099511627776) % 256) as u8,
        ((x / 281474976710656) % 256) as u8,
        ((x / 72057594037927936) % 256) as u8,
    ]
}

fn u64_to_le_bytes(x: u64) -> (r: Vec<u8>)
    ensures
        r@ == u64_le_bytes(x),
{
    let r: Vec<u8> = vec![
        (x % 256) as u8,
        ((x / 256) % 256) as u8,
        ((x / 65536) % 256) as u8,
        ((x / 16777216) % 256) as u8,
        ((x / 4294967296) % 256) as u8,
        ((x / 1099511627776) % 256) as u8,
        ((x / 281474976710656) % 256) as u8,
        ((x / 72057594037927936) % 256) as u8,
    ];
    proof {
        assert(r@ =~= u64_le_bytes(x));
    }
    r
}

fn id_domain_bytes() -> (r: Vec<u8>)
    ensures
        r@ == id_domain(),
{
    let r: Vec<u8> = vec![73u8, 68u8];
    proof {
        assert(r@ =~= id_domain());
    }
    r
}

fn memo_domain_bytes() -> (r: Vec<u8>)
    ensures
        r@ == memo_domain(),
{
    let r: Vec<u8> = vec![77u8, 69u8, 77u8, 79u8];
    proof {
        assert(r@ =~= memo_domain());
    }
    r
}

fn subaccount_domain_bytes() -> (r: Vec<u8>)
    ensures
        r@ == subaccount_domain(),
{
    let r: Vec<u8> = vec![83u8, 85u8, 66u8];
    proof {
        assert(r@ =~= subaccount_domain());
    }
    r
}

/// The identifier derived from a generator seed and a creation timestamp:
/// the digest of {seed, identifier tag, serialized timestamp}.
pub open spec fn spec_generate_id(seed: Seq<u8>, timestamp: u64) -> Seq<u8> {
    blake3_of(seed + id_domain() + u64_le_bytes(timestamp))
}

/// The payment-correlation memo derived from an invoice identifier:
/// the digest of {memo tag, identifier}.
pub open spec fn spec_invoice_memo(id: Seq<u8>) -> Seq<u8> {
    blake3_of(memo_domain() + id)
}

/// The sub-identifier that routes a payment to one shop's balance:
/// the digest of {sub-identifier tag, serialized shop id}.
pub open spec fn spec_shop_subaccount(shop_id: ShopId) -> Seq<u8> {
    blake3_of(subaccount_domain() + u64_le_bytes(shop_id))
}

/// Derives an invoice identifier from the generator seed, salted with the
/// invoice's creation timestamp.
pub fn generate_invoice_id(seed: &[u8; 32], timestamp: u64) -> (r: InvoiceId)
    ensures
        r@ == spec_generate_id(seed@, timestamp),
{
    let mut data = vstd::slice::slice_to_vec(seed.as_slice());
    let mut tag = id_domain_bytes();
    data.append(&mut tag);
    let mut salt = u64_to_le_bytes(timestamp);
    data.append(&mut salt);
    assert(data@ == seed@ + id_domain() + u64_le_bytes(timestamp));
    blake3_digest(&data)
}

/// Derives the payment-correlation memo for an invoice identifier.
pub fn make_invoice_memo(id: &InvoiceId) -> (r: [u8; 32])
    ensures
        r@ == spec_invoice_memo(id@),
{
    let mut data = memo_domain_bytes();
    let mut id_bytes = vstd::slice::slice_to_vec(id.as_slice());
    data.append(&mut id_bytes);
    assert(data@ == memo_domain() + id@);
    blake3_digest(&data)
}

/// Derives the sub-identifier for a shop.
pub fn calc_shop_subaccount(shop_id: ShopId) -> (r: Subaccount)
    ensures
        r@ == spec_shop_subaccount(shop_id),
{
    let mut data = subaccount_domain_bytes();
    let mut salt = u64_to_le_bytes(shop_id);
    data.append(&mut salt);
    assert(data@ == subaccount_domain() + u64_le_bytes(shop_id));
    blake3_digest(&data)
}

} // verus!
