//! Local binding names for the results of registration calls, derived from
//! a hash of the registered type's name.
use vstd::prelude::*;

use crate::descriptor::{append_decimal, canonical_name, canonical_name_of, decimal, TypeDescriptor};

verus! {

/// The value that std's `DefaultHasher`, made by `DefaultHasher::new`,
/// finishes with after hashing the string `s`.
pub uninterp spec fn default_hash_of(s: Seq<char>) -> u64;

/// Relies on `std::hash::Hash` for `str` fed to a
/// `std::collections::hash_map::DefaultHasher::new()`: every hasher made
/// by `new` is the same, so the result depends on the string alone.
#[verifier::external_body]
fn default_hash(s: &str) -> (r: u64)
    ensures
        r == default_hash_of(s@),
{
    let mut hasher = std::collections::hash_map::DefaultHasher::new();
    std::hash::Hash::hash(s, &mut hasher);
    std::hash::Hasher::finish(&hasher)
}

/// The hash of a type: the hash of its canonical name, so that two
/// descriptors of the same shape hash alike.
pub fn calculate_hash(t: &TypeDescriptor) -> (r: u64)
    ensures
        r == default_hash_of(canonical_name(*t)),
{
    let name = canonical_name_of(t);
    default_hash(name.as_str())
}

/// The name of the local binding that holds the result of registering the
/// type called `name`: `local_` followed by the decimal hash of the name.
pub fn local_ident(name: &str) -> (r: String)
    ensures
        r@ == seq!['l', 'o', 'c', 'a', 'l', '_'] + decimal(default_hash_of(name@) as nat),
{
    proof {
        reveal_strlit("local_");
    }
    let mut r = String::from_str("local_");
    append_decimal(&mut r, default_hash(name));
    assert(r@ =~= seq!['l', 'o', 'c', 'a', 'l', '_'] + decimal(default_hash_of(name@) as nat));
    r
}

} // verus!
