//! Hash maps keyed by class, hashed with the Fx algorithm.
//!
//! `FxHashMap` is the standard `HashMap` with `rustc_hash::FxBuildHasher` in
//! place of the default hasher. `vstd` gives such a map its view as a
//! mathematical `Map`, and says what `HashMap::default` returns for any
//! hasher; what it says of the other methods it says for hashers that it
//! knows to hash the same key the same way every time, and it knows that of
//! the default hasher only. `FxBuildHasher` is such a hasher: every hasher it
//! builds starts from the same state, and what a hasher returns depends on
//! that state and on the bytes written to it alone.
//!
//! The functions of this module are the only places where the extractor
//! reads or writes such a map. Each one states, over the view, what the
//! standard library documents for the method it calls. None of these
//! statements is proved here.
use rustc_hash::{FxBuildHasher, FxHashMap};
use vstd::prelude::*;

verus! {

/// `rustc_hash::FxBuildHasher`, carried in the type of the maps and never
/// looked into.
#[verifier::external_type_specification]
#[verifier::external_body]
pub struct ExFxBuildHasher(FxBuildHasher);

/// `HashMap::get`: the value stored under `key`, or `None` where the map
/// holds no such key.
#[verifier::external_body]
pub(crate) fn lookup<V>(m: &FxHashMap<usize, V>, key: usize) -> (found: Option<&V>)
    ensures
        match found {
            Some(v) => m@.contains_key(key) && *v == m@[key],
            None => !m@.contains_key(key),
        },
{
    m.get(&key)
}

/// `HashMap::contains_key`: whether the map holds `key`.
#[verifier::external_body]
pub(crate) fn has_key<V>(m: &FxHashMap<usize, V>, key: usize) -> (held: bool)
    ensures
        held == m@.contains_key(key),
{
    m.contains_key(&key)
}

/// `HashMap::insert`: afterwards `key` maps to `value`, whatever it mapped to
/// before, and every other key is as it was.
#[verifier::external_body]
pub(crate) fn put<V>(m: &mut FxHashMap<usize, V>, key: usize, value: V)
    ensures
        final(m)@ == old(m)@.insert(key, value),
{
    m.insert(key, value);
}

/// `HashMap::keys`, collected: every key of the map exactly once, in the
/// order in which the map happens to be walked, of which nothing is said.
#[verifier::external_body]
pub(crate) fn key_list<V>(m: &FxHashMap<usize, V>) -> (keys: Vec<usize>)
    ensures
        keys@.no_duplicates(),
        forall|k: usize| keys@.contains(k) <==> m@.contains_key(k),
{
    m.keys().copied().collect()
}

} // verus!
