//! Generation of genders, genetic material and the payloads they are
//! hashed from.
//!
//! Entropy is handed in by the caller: the ledger runtime draws it from its
//! randomness beacon, tests from a seeded generator. Every function here is
//! a pure function of its arguments.

use vstd::prelude::*;
use crate::hash::{blake2_128, blake2_128_of};

verus! {

/// Sex of an asset; fixed at creation and never changed afterwards.
#[derive(Clone, Copy, Debug, PartialEq, Eq, Structural)]
pub enum Gender {
    Male,
    Female,
}

/// The gender one byte of entropy selects: an even byte gives `Male`, an
/// odd byte gives `Female`, so an unbiased byte gives an unbiased gender.
pub open spec fn gender_of_byte(b: u8) -> Gender {
    if b % 2 == 0 {
        Gender::Male
    } else {
        Gender::Female
    }
}

/// Draws a gender from one byte of entropy.
pub fn gen_gender(entropy: u8) -> (g: Gender)
    ensures
        g == gender_of_byte(entropy),
{
    if entropy % 2 == 0 {
        Gender::Male
    } else {
        Gender::Female
    }
}

/// Byte `i` of the little-endian encoding of a 128-bit value.
pub open spec fn byte16(x: u128, i: int) -> u8 {
    ((x >> ((8 * i) as u128)) & 0xff) as u8
}

/// The 16-byte little-endian encoding of a 128-bit value.
pub open spec fn le16(x: u128) -> Seq<u8> {
    Seq::new(16, |i: int| byte16(x, i))
}

/// Byte `i` of the little-endian encoding of a 64-bit value.
pub open spec fn byte8(x: u64, i: int) -> u8 {
    ((x >> ((8 * i) as u64)) & 0xff) as u8
}

/// The 8-byte little-endian encoding of a 64-bit value.
pub open spec fn le8(x: u64) -> Seq<u8> {
    Seq::new(8, |i: int| byte8(x, i))
}

/// The bytes genetic material is derived from: entropy mixed with the
/// ledger height, so two draws at different heights differ even when the
/// beacon repeats itself within one height.
pub open spec fn dna_payload(entropy: u128, block_number: u64) -> Seq<u8> {
    le16(entropy) + le8(block_number)
}

/// One byte telling the two genders apart inside a hash payload.
pub open spec fn gender_byte(g: Gender) -> u8 {
    match g {
        Gender::Male => 0,
        Gender::Female => 1,
    }
}

/// The bytes an asset identity is derived from: everything that makes the
/// new asset what it is, plus the ledger height at which it is minted.
pub open spec fn mint_payload(gender: Gender, dna: u128, owner: u64, seq: u64) -> Seq<u8> {
    seq![gender_byte(gender)] + le16(dna) + le8(owner) + le8(seq)
}

fn push_le16(v: &mut Vec<u8>, x: u128)
    ensures
        final(v)@ == old(v)@ + le16(x),
{
    let mut i: usize = 0;
    while i < 16
        invariant
            i <= 16,
            v@ == old(v)@ + Seq::new(i as nat, |j: int| byte16(x, j)),
        decreases 16 - i,
    {
        let sh: u128 = 8 * (i as u128);
        let b: u8 = ((x >> sh) & 0xff) as u8;
        proof {
            assert(b == byte16(x, i as int));
        }
        v.push(b);
        i = i + 1;
        proof {
            assert(v@ =~= old(v)@ + Seq::new(i as nat, |j: int| byte16(x, j)));
        }
    }
    proof {
        assert(v@ =~= old(v)@ + le16(x));
    }
}

fn push_le8(v: &mut Vec<u8>, x: u64)
    ensures
        final(v)@ == old(v)@ + le8(x),
{
    let mut i: usize = 0;
    while i < 8
        invariant
            i <= 8,
            v@ == old(v)@ + Seq::new(i as nat, |j: int| byte8(x, j)),
        decreases 8 - i,
    {
        let sh: u64 = 8 * (i as u64);
        let b: u8 = ((x >> sh) & 0xff) as u8;
        proof {
            assert(b == byte8(x, i as int));
        }
        v.push(b);
        i = i + 1;
        proof {
            assert(v@ =~= old(v)@ + Seq::new(i as nat, |j: int| byte8(x, j)));
        }
    }
    proof {
        assert(v@ =~= old(v)@ + le8(x));
    }
}

/// Derives fresh genetic material from beacon entropy and the current
/// ledger height, through the fixed mixing function.
pub fn gen_dna(entropy: u128, block_number: u64) -> (r: u128)
    ensures
        r == blake2_128_of(dna_payload(entropy, block_number)),
{
    let mut payload: Vec<u8> = Vec::new();
    push_le16(&mut payload, entropy);
    push_le8(&mut payload, block_number);
    proof {
        assert(payload@ =~= dna_payload(entropy, block_number));
    }
    blake2_128(&payload)
}

/// Computes the identity of a freshly minted asset.
pub(crate) fn mint_id(gender: Gender, dna: u128, owner: u64, seq: u64) -> (r: u128)
    ensures
        r == blake2_128_of(mint_payload(gender, dna, owner, seq)),
{
    let mut payload: Vec<u8> = Vec::new();
    let gb: u8 = match gender {
        Gender::Male => 0,
        Gender::Female => 1,
    };
    payload.push(gb);
    proof {
        assert(payload@ =~= seq![gender_byte(gender)]);
    }
    push_le16(&mut payload, dna);
    push_le8(&mut payload, owner);
    push_le8(&mut payload, seq);
    proof {
        assert(payload@ =~= mint_payload(gender, dna, owner, seq));
    }
    blake2_128(&payload)
}

/// The genetic recombination of two parents: where `selector` has a one
/// bit the child's bit comes from the first parent, elsewhere from the
/// second.
pub open spec fn recombined(dna1: u128, dna2: u128, selector: u128) -> u128 {
    (selector & dna1) | (!selector & dna2)
}

/// Combines the parents' genetic material under a per-bit random
/// selection drawn by the caller.
pub fn recombine_dna(dna1: u128, dna2: u128, selector: u128) -> (r: u128)
    ensures
        r == recombined(dna1, dna2, selector),
{
    (selector & dna1) | (!selector & dna2)
}

/// Law: each bit of a recombined value is the corresponding bit of the
/// first parent where the selector bit is set, and of the second parent
/// where it is clear.
pub proof fn lemma_recombined_bit(dna1: u128, dna2: u128, selector: u128, i: u128)
    requires
        i < 128,
    ensures
        (recombined(dna1, dna2, selector) >> i) & 1 == if (selector >> i) & 1 == 1 {
            (dna1 >> i) & 1
        } else {
            (dna2 >> i) & 1
        },
{
    assert(i < 128 ==> (((selector & dna1) | (!selector & dna2)) >> i) & 1 == if (selector >> i)
        & 1 == 1 {
        (dna1 >> i) & 1
    } else {
        (dna2 >> i) & 1
    }) by (bit_vector);
}

} // verus!
