//! Canonical pool and position identifiers: a fixed binary layout of the
//! identifying fields, hashed with keccak-256.

use vstd::prelude::*;
use crate::bytes::{Address, Bytes32, lex_le, lemma_lex_le_total, lemma_lex_le_antisymmetric};

verus! {

broadcast use vstd::array::group_array_axioms;

/// What keccak-256 returns on a byte string.
pub uninterp spec fn keccak_of(data: Seq<u8>) -> Seq<u8>;

/// The 32-byte word of an address in the fixed encoding: 12 zero bytes, then
/// the 20 address bytes.
pub open spec fn addr_word(a: Seq<u8>) -> Seq<u8> {
    Seq::new(12, |i: int| 0u8) + a
}

/// The 32-byte word of a 24-bit fee tier in the fixed encoding: 29 zero
/// bytes, then the three big-endian bytes of the fee.
pub open spec fn u24_word(fee: int) -> Seq<u8> {
    Seq::new(29, |i: int| 0u8) + seq![
        ((fee / 0x10000) % 0x100) as u8,
        ((fee / 0x100) % 0x100) as u8,
        (fee % 0x100) as u8,
    ]
}

/// The hashed key of a pool: the two (canonically ordered) token words
/// followed by the fee word.
pub open spec fn pool_key_bytes(t0: Seq<u8>, t1: Seq<u8>, fee: int) -> Seq<u8> {
    addr_word(t0) + addr_word(t1) + u24_word(fee)
}

/// The hashed key of a position: the 32 pool-identifier bytes followed by the
/// owner's address word.
pub open spec fn position_key_bytes(pool_id: Seq<u8>, owner: Seq<u8>) -> Seq<u8> {
    pool_id + addr_word(owner)
}

/// The lexicographically smaller of the two token addresses.
pub open spec fn spec_token0(a: Address, b: Address) -> Address {
    if lex_le(a.bytes@, b.bytes@) {
        a
    } else {
        b
    }
}

/// The lexicographically larger of the two token addresses.
pub open spec fn spec_token1(a: Address, b: Address) -> Address {
    if lex_le(a.bytes@, b.bytes@) {
        b
    } else {
        a
    }
}

/// The canonical pool identifier of a token pair and a fee tier.
pub open spec fn spec_pool_id(a: Address, b: Address, fee: int) -> Seq<u8> {
    keccak_of(pool_key_bytes(spec_token0(a, b).bytes@, spec_token1(a, b).bytes@, fee))
}

/// The identifier of an owner's position within a pool.
pub open spec fn spec_position_id(pool_id: Seq<u8>, owner: Seq<u8>) -> Seq<u8> {
    keccak_of(position_key_bytes(pool_id, owner))
}

/// Relies on `stylus_sdk::crypto::keccak` (keccak-256): the 32-byte digest is
/// a function of the input bytes alone.
#[verifier::external_body]
pub(crate) fn keccak32(data: &Vec<u8>) -> (r: Bytes32)
    ensures
        r.bytes@ == keccak_of(data@),
{
    Bytes32 { bytes: stylus_sdk::crypto::keccak(data.as_slice()).0 }
}

/// Relies on `alloy_sol_types`' ABI encoding of an `(address, address,
/// uint24)` sequence: three 32-byte words, each address left-padded with 12
/// zero bytes and the 24-bit fee left-padded with 29 zero bytes, big-endian.
#[verifier::external_body]
pub(crate) fn encode_pool_key(token0: &Address, token1: &Address, fee: u32) -> (r: Vec<u8>)
    requires
        fee < 0x1000000,
    ensures
        r@ == pool_key_bytes(token0.bytes@, token1.bytes@, fee as int),
{
    <(alloy_sol_types::sol_data::Address, alloy_sol_types::sol_data::Address, alloy_sol_types::sol_data::Uint<24>) as alloy_sol_types::SolType>::abi_encode_sequence(&(
        alloy_primitives::Address::from(token0.bytes),
        alloy_primitives::Address::from(token1.bytes),
        alloy_primitives::aliases::U24::from(fee),
    ))
}

/// Relies on `alloy_sol_types`' ABI encoding of a `(bytes32, address)`
/// sequence: the 32 identifier bytes as one word, then the owner's address
/// left-padded with 12 zero bytes.
#[verifier::external_body]
pub(crate) fn encode_position_key(pool_id: &Bytes32, owner: &Address) -> (r: Vec<u8>)
    ensures
        r@ == position_key_bytes(pool_id.bytes@, owner.bytes@),
{
    <(alloy_sol_types::sol_data::FixedBytes<32>, alloy_sol_types::sol_data::Address) as alloy_sol_types::SolType>::abi_encode_sequence(&(
        alloy_primitives::FixedBytes(pool_id.bytes),
        alloy_primitives::Address::from(owner.bytes),
    ))
}

/// Law: the pool identifier does not depend on the order in which the two
/// token addresses are given.
pub proof fn lemma_pool_id_commutative(a: Address, b: Address, fee: int)
    ensures
        spec_pool_id(a, b, fee) == spec_pool_id(b, a, fee),
{
    lemma_lex_le_total(a.bytes@, b.bytes@);
    if lex_le(a.bytes@, b.bytes@) && lex_le(b.bytes@, a.bytes@) {
        lemma_lex_le_antisymmetric(a.bytes@, b.bytes@);
    }
}

/// Law (the part of fee sensitivity that does not rest on the hash): the
/// hashed key bytes of a pool differ whenever the fee tier differs. That two
/// distinct keys also have distinct keccak-256 digests is collision
/// resistance, which is assumed of the hash and not proved here.
pub proof fn lemma_pool_key_fee_distinct(t0: Seq<u8>, t1: Seq<u8>, fee1: int, fee2: int)
    requires
        0 <= fee1 < 0x1000000,
        0 <= fee2 < 0x1000000,
        fee1 != fee2,
    ensures
        pool_key_bytes(t0, t1, fee1) != pool_key_bytes(t0, t1, fee2),
{
    let k1 = pool_key_bytes(t0, t1, fee1);
    let k2 = pool_key_bytes(t0, t1, fee2);
    let n = k1.len() as int;
    assert(k1.len() == 24 + t0.len() + t1.len() + 32);
    if k1 == k2 {
        assert(k1[n - 3] == k2[n - 3]);
        assert(k1[n - 2] == k2[n - 2]);
        assert(k1[n - 1] == k2[n - 1]);
        assert(k1[n - 3] == ((fee1 / 0x10000) % 0x100) as u8);
        assert(k1[n - 2] == ((fee1 / 0x100) % 0x100) as u8);
        assert(k1[n - 1] == (fee1 % 0x100) as u8);
        assert(k2[n - 3] == ((fee2 / 0x10000) % 0x100) as u8);
        assert(k2[n - 2] == ((fee2 / 0x100) % 0x100) as u8);
        assert(k2[n - 1] == (fee2 % 0x100) as u8);
        lemma_u24_bytes_reconstruct(fee1);
        lemma_u24_bytes_reconstruct(fee2);
        assert(fee1 == fee2);
        assert(false);
    }
}

/// A value below 2^24 is recovered from its three big-endian bytes.
proof fn lemma_u24_bytes_reconstruct(fee: int)
    requires
        0 <= fee < 0x1000000,
    ensures
        fee == ((fee / 0x10000) % 0x100) * 0x10000 + ((fee / 0x100) % 0x100) * 0x100 + fee % 0x100,
{
    vstd::arithmetic::div_mod::lemma_fundamental_div_mod(fee, 0x100);
    vstd::arithmetic::div_mod::lemma_fundamental_div_mod(fee / 0x100, 0x100);
    assert((fee / 0x100) / 0x100 == fee / 0x10000) by {
        vstd::arithmetic::div_mod::lemma_div_denominator(fee, 0x100, 0x100);
    }
    assert(0 <= fee / 0x10000 < 0x100) by {
        vstd::arithmetic::div_mod::lemma_div_nonincreasing(fee, 0x10000);
        vstd::arithmetic::div_mod::lemma_div_is_ordered(fee, 0xffffff, 0x10000);
    }
    assert((fee / 0x10000) % 0x100 == fee / 0x10000) by {
        vstd::arithmetic::div_mod::lemma_small_mod((fee / 0x10000) as nat, 0x100);
    }
}

} // verus!
