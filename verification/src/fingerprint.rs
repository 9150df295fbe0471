//! Query fingerprints.

use std::collections::hash_map::DefaultHasher;
use std::hash::{Hash, Hasher};
use vstd::prelude::*;
#[allow(unused_imports)]
use vstd::std_specs::hash::DefaultHasherAdditionalSpecFns;

verus! {

/// What hashing `text` feeds into a hasher, one sequence of bytes per write.
pub uninterp spec fn str_hash_writes(text: Seq<char>) -> Seq<Seq<u8>>;

/// Calls `<str as std::hash::Hash>::hash`.
///
/// Claims that the call appends to what the hasher was fed before, and that what
/// it appends depends on the text alone. Which bytes these are is left unsaid:
/// the standard library keeps that open between its releases.
#[verifier::external_body]
fn hash_str(text: &str, hasher: &mut DefaultHasher)
    ensures
        final(hasher)@ == old(hasher)@ + str_hash_writes(text@),
{
    text.hash(hasher)
}

/// The signed number with the same 64 bits as `hash`.
pub open spec fn signed_bits(hash: u64) -> int {
    if hash <= i64::MAX {
        hash as int
    } else {
        hash - 0x1_0000_0000_0000_0000
    }
}

/// The hash of `text` under a fresh default hasher.
pub open spec fn text_hash(text: Seq<char>) -> u64 {
    DefaultHasher::spec_finish(str_hash_writes(text))
}

/// The fingerprint that a hash is stored as: the same bits, read as a signed
/// number.
pub fn fingerprint_from_hash(hash: u64) -> (r: i64)
    ensures
        r == signed_bits(hash),
        r == hash || r == hash - 0x1_0000_0000_0000_0000,
{
    if hash <= i64::MAX as u64 {
        hash as i64
    } else {
        (hash - 0x8000_0000_0000_0000) as i64 + i64::MIN
    }
}

/// The fingerprint of a query. It hashes the raw text: literals and white space
/// are not normalized.
pub fn fingerprint_query(query: &str) -> (r: i64)
    ensures
        r == signed_bits(text_hash(query@)),
        r == DefaultHasher::spec_finish(str_hash_writes(query@)) || r == DefaultHasher::spec_finish(
            str_hash_writes(query@),
        ) - 0x1_0000_0000_0000_0000,
{
    let mut hasher = DefaultHasher::new();
    hash_str(query, &mut hasher);
    assert(hasher@ =~= str_hash_writes(query@));
    fingerprint_from_hash(hasher.finish())
}

/// Reading the bits of a hash as a signed number loses nothing: two hashes with
/// one fingerprint are equal.
pub proof fn law_fingerprint_keeps_the_hash(a: u64, b: u64)
    requires
        signed_bits(a) == signed_bits(b),
    ensures
        a == b,
{
}

/// The fingerprint of every text is the hash of the whole text as the default hasher
/// gives it, up to a multiple of two to the power of 64, and fits 64 bits with a
/// sign.
pub proof fn law_fingerprint_is_the_hash_of_the_text(text: Seq<char>)
    ensures
        ({
            let hash = DefaultHasher::spec_finish(str_hash_writes(text)) as int;
            let r = signed_bits(text_hash(text));
            &&& r == hash || r == hash - 0x1_0000_0000_0000_0000
            &&& -0x8000_0000_0000_0000 <= r < 0x8000_0000_0000_0000
        }),
{
}

} // verus!
