//! The hash of a block: 64-bit FNV-1a over its encoding.
use vstd::prelude::*;

use crate::codec;
use crate::octets;
use crate::octets::put_le;
use crate::types::{Block, BlockView};

verus! {

/// Where the hash starts.
pub const FNV_OFFSET: u64 = 0xcbf29ce484222325;

/// The factor of each step.
pub const FNV_PRIME: u64 = 0x100000001b3;

/// One step: the byte is xored in, then the hash is multiplied modulo 2^64.
pub open spec fn fnv_step(h: u64, b: u8) -> u64 {
    (((h ^ (b as u64)) as nat * FNV_PRIME as nat) % 0x1_0000_0000_0000_0000) as u64
}

/// The hash of a byte string.
pub open spec fn fnv(data: Seq<u8>) -> u64
    decreases data.len(),
{
    if data.len() == 0 {
        FNV_OFFSET
    } else {
        fnv_step(fnv(data.drop_last()), data.last())
    }
}

/// The hash of a block, least significant byte first.
pub open spec fn block_hash(block: BlockView) -> Seq<u8> {
    octets::le_bytes(fnv(codec::enc_block(block)) as nat, 8)
}

/// A block hash is eight bytes.
pub proof fn law_block_hash_len(block: BlockView)
    ensures
        block_hash(block).len() == 8,
{
    octets::lemma_le_bytes_len(fnv(codec::enc_block(block)) as nat, 8);
}

/// Every byte counts, whatever came before it: one more byte is xored into the
/// hash, which is then multiplied by the prime modulo 2^64. Without a byte the
/// hash is the offset.
pub proof fn law_every_byte_counts(data: Seq<u8>, b: u8)
    ensures
        fnv(Seq::empty()) == 0xcbf29ce484222325,
        fnv(data.push(b)) as nat == ((fnv(data) ^ (b as u64)) as nat * 0x100000001b3)
            % 0x1_0000_0000_0000_0000,
{
    assert(data.push(b).drop_last() =~= data);
}

/// What a step does to the hash can be undone: the prime is odd, so it has an
/// inverse modulo 2^64.
proof fn lemma_factor_undone(x: u64)
    ensures
        (((x as nat * 0x100000001b3) % 0x1_0000_0000_0000_0000) * 0xce965057aff6957b)
            % 0x1_0000_0000_0000_0000 == x,
{
    let m: int = 0x1_0000_0000_0000_0000;
    let p: int = 0x100000001b3;
    let q: int = 0xce965057aff6957b;
    let y: int = x as int;
    vstd::arithmetic::div_mod::lemma_mul_mod_noop_left(y * p, q, m);
    assert((y * p) * q == y * (p * q)) by (nonlinear_arith);
    let k: int = (p * q) / m;
    assert(p * q == k * m + 1);
    assert(y * (k * m + 1) == m * (y * k) + y) by (nonlinear_arith);
    vstd::arithmetic::div_mod::lemma_mod_multiples_vanish(y * k, y, m);
    vstd::arithmetic::div_mod::lemma_small_mod(x as nat, m as nat);
}

/// Different hashes stay different when the same byte is added, and different
/// bytes take a hash to different ones.
pub proof fn law_steps_keep_apart(a: u64, b: u64, x: u8, y: u8)
    ensures
        a != b ==> fnv_step(a, x) != fnv_step(b, x),
        x != y ==> fnv_step(a, x) != fnv_step(a, y),
{
    let (ax, bx, ay) = (a ^ (x as u64), b ^ (x as u64), a ^ (y as u64));
    lemma_factor_undone(ax);
    lemma_factor_undone(bx);
    lemma_factor_undone(ay);
    let (cx, cy): (u64, u64) = (x as u64, y as u64);
    assert(a != b ==> a ^ cx != b ^ cx) by (bit_vector);
    assert(cx != cy ==> a ^ cx != a ^ cy) by (bit_vector);
}

/// Two byte strings that differ in one byte have different hashes, wherever
/// that byte stands and however long they are.
pub proof fn law_one_byte_changes_the_hash(data: Seq<u8>, at: int, b: u8)
    requires
        0 <= at < data.len(),
        data[at] != b,
    ensures
        fnv(data.update(at, b)) != fnv(data),
    decreases data.len(),
{
    let other = data.update(at, b);
    let last = data.len() - 1;
    if at == last {
        assert(other.drop_last() =~= data.drop_last());
        law_steps_keep_apart(fnv(data.drop_last()), 0, data[at], b);
    } else {
        law_one_byte_changes_the_hash(data.drop_last(), at, b);
        assert(other.drop_last() =~= data.drop_last().update(at, b));
        law_steps_keep_apart(fnv(data.drop_last()), fnv(other.drop_last()), data.last(), 0);
    }
}

/// The hash of a block is that of its whole encoding, and blocks whose encodings
/// differ in one byte have different hashes.
pub proof fn law_block_hash_covers_the_block(block: BlockView, other: BlockView, at: int, b: u8)
    ensures
        octets::le_value(block_hash(block)) == fnv(codec::enc_block(block)),
        0 <= at < codec::enc_block(block).len() && codec::enc_block(block)[at] != b
            && codec::enc_block(other) == codec::enc_block(block).update(at, b) ==> block_hash(other)
            != block_hash(block),
{
    octets::lemma_pow256_values();
    octets::lemma_le_value_of_bytes(fnv(codec::enc_block(block)) as nat, 8);
    octets::lemma_le_value_of_bytes(fnv(codec::enc_block(other)) as nat, 8);
    if 0 <= at < codec::enc_block(block).len() && codec::enc_block(block)[at] != b
        && codec::enc_block(other) == codec::enc_block(block).update(at, b) {
        law_one_byte_changes_the_hash(codec::enc_block(block), at, b);
    }
}

impl Block {
    /// The hash of this block. It depends on nothing but the block.
    pub fn hash(&self) -> (hash: Vec<u8>)
        ensures
            hash@ == block_hash(self@),
            hash@.len() == 8,
    {
        let encoded = self.to_bytes();
        let mut h: u64 = FNV_OFFSET;
        let mut i: usize = 0;
        while i < encoded.len()
            invariant
                i <= encoded@.len(),
                h == fnv(encoded@.take(i as int)),
            decreases encoded@.len() - i,
        {
            assert(encoded@.take(i + 1).drop_last() =~= encoded@.take(i as int));
            h = h ^ (encoded[i] as u64);
            h = h.wrapping_mul(FNV_PRIME);
            i = i + 1;
        }
        assert(encoded@.take(i as int) =~= encoded@);
        let mut hash: Vec<u8> = Vec::new();
        put_le(&mut hash, h, 8);
        assert(hash@ =~= block_hash(self@));
        proof {
            law_block_hash_len(self@);
        }
        hash
    }
}

} // verus!
