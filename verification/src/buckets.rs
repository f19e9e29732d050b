//! The hash map that files lists of boids under zone keys.
//!
//! The map is std's `HashMap` with the FNV-1a hasher of the `fnv` crate in
//! place of the default one. vstd specifies `HashMap` for any hasher, but
//! states what a lookup or an insertion does only for hashers it knows to hash
//! equal keys alike, and `fnv::FnvHasher` is not one it knows. The two
//! functions below make the calls that hash, and state of them what vstd
//! states for its own hasher. Nothing in this file is proved.

use fnv::FnvHashMap;
use std::collections::hash_map::Entry;
use vstd::prelude::*;
use vstd::std_specs::hash::EntrySpecFns;

verus! {

/// `fnv::FnvHasher`, the state of one FNV-1a hash: a single `u64`. It starts
/// from a fixed number, `write` folds the bytes into it one by one, and
/// `finish` hands it back, so what it returns depends on the bytes written and
/// on nothing else. Verus sees the type as opaque.
#[verifier::external_type_specification]
#[verifier::external_body]
pub struct ExFnvHasher(fnv::FnvHasher);

/// `std::hash::BuildHasherDefault`, which makes each hasher with `H::default()`.
/// It is the `FnvBuildHasher` of the `fnv` crate when `H` is `FnvHasher`. Verus
/// sees the type as opaque.
#[verifier::external_type_specification]
#[verifier::external_body]
#[verifier::reject_recursive_types(H)]
pub struct ExBuildHasherDefault<H>(std::hash::BuildHasherDefault<H>);

/// Calls `HashMap::get` on a map that hashes with `fnv::FnvHasher`.
///
/// Claimed: the call finds the list filed under `key` if the map holds one,
/// and nothing otherwise. This rests on `FnvHasher` hashing a key the same way
/// each time, and on `u64` comparing and hashing by its value.
#[verifier::external_body]
pub(crate) fn bucket_at<'a>(map: &'a FnvHashMap<u64, Vec<usize>>, key: u64) -> (found: Option<
    &'a Vec<usize>,
>)
    ensures
        match found {
            Some(bucket) => map@.contains_key(key) && *bucket == map@[key],
            None => !map@.contains_key(key),
        },
{
    map.get(&key)
}

/// Calls `HashMap::entry` on a map that hashes with `fnv::FnvHasher`.
///
/// Claimed: the entry is that of `key`; it holds the list filed under `key`
/// before the call, if there was one; and once the caller is done with the
/// entry, the map differs from the map before the call only at `key`, where it
/// holds what the entry was left with. This is vstd's contract of
/// `HashMap::entry`, and rests on the same two facts as `bucket_at`.
#[verifier::external_body]
pub(crate) fn entry_at<'a>(map: &'a mut FnvHashMap<u64, Vec<usize>>, key: u64) -> (entry: Entry<
    'a,
    u64,
    Vec<usize>,
>)
    ensures
        entry.key() == key,
        entry.value() == old(map)@.get(key),
        final(map)@ == (match entry.final_value() {
            Some(bucket) => old(map)@.insert(key, bucket),
            None => old(map)@.remove(key),
        }),
{
    map.entry(key)
}

} // verus!
