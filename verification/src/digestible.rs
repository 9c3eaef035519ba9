//! The content-hashing primitive the tree leans on.
//!
//! Digests are opaque fixed-size byte strings: two digests are equal exactly
//! when their bytes are equal, and nothing more is assumed of them. The two
//! uninterpreted names below stand for what the primitive returns; every
//! contract in the crate speaks through them.

use vstd::prelude::*;

verus! {

/// Byte length of every digest the primitive produces.
pub const DIGEST_LEN: usize = 20;

/// Largest number of input bytes the primitive accepts without failing
/// (its internal bit counter holds at most `u64::MAX` bits).
pub const MAX_DIGEST_INPUT: u64 = 0x1fff_ffff_ffff_ffff;

/// The digest of a byte sequence: a function of the bytes alone.
pub uninterp spec fn hash_of(bytes: Seq<u8>) -> Seq<u8>;

/// The digest obtained by hashing one digest followed by another: a function
/// of the two inputs alone, and sensitive to their order.
pub uninterp spec fn combine_of(d1: Seq<u8>, d2: Seq<u8>) -> Seq<u8>;

/// Relies on `ring::digest::digest` with SHA-1: a deterministic digest of the
/// input bytes, `SHA1_OUTPUT_LEN` (20) bytes long. The input bound keeps the
/// call away from the one length on which `ring` fails.
#[verifier::external_body]
pub fn vector_digest(value: &Vec<u8>) -> (r: Vec<u8>)
    requires
        value@.len() <= MAX_DIGEST_INPUT,
    ensures
        r@ == hash_of(value@),
        r@.len() == DIGEST_LEN,
{
    ring::digest::digest(&ring::digest::SHA1_FOR_LEGACY_USE_ONLY, value.as_slice())
        .as_ref()
        .to_vec()
}

/// Relies on `ring::digest::Context` with SHA-1: feeding two byte strings and
/// finishing yields a deterministic digest of the pair, `SHA1_OUTPUT_LEN`
/// (20) bytes long, depending on nothing but the two inputs.
#[verifier::external_body]
pub fn concat_digest(d1: &Vec<u8>, d2: &Vec<u8>) -> (r: Vec<u8>)
    requires
        d1@.len() + d2@.len() <= MAX_DIGEST_INPUT,
    ensures
        r@ == combine_of(d1@, d2@),
        r@.len() == DIGEST_LEN,
{
    let mut ctx = ring::digest::Context::new(&ring::digest::SHA1_FOR_LEGACY_USE_ONLY);
    ctx.update(d1.as_slice());
    ctx.update(d2.as_slice());
    ctx.finish().as_ref().to_vec()
}

} // verus!
