//! The hash collections of the `fxhash` crate, as far as the library uses them.

use vstd::prelude::*;
use fxhash::{FxHashMap, FxHashSet};

verus! {

/// `fxhash::FxHasher`, the hasher of the collections below; nothing is said
/// of it.
#[verifier::external_type_specification]
#[verifier::external_body]
pub struct ExFxHasher(fxhash::FxHasher);

/// `std::hash::BuildHasherDefault`, through which the collections make their
/// hashers; nothing is said of it.
#[verifier::external_type_specification]
#[verifier::external_body]
#[verifier::reject_recursive_types(H)]
pub struct ExBuildHasherDefault<H>(std::hash::BuildHasherDefault<H>);

/// The texts that a set of paths holds.
pub uninterp spec fn path_set_items(s: FxHashSet<String>) -> Set<Seq<char>>;

/// `FxHashSet::default`: a set that holds nothing.
#[verifier::external_body]
pub(crate) fn path_set_new() -> (s: FxHashSet<String>)
    ensures
        path_set_items(s) == Set::<Seq<char>>::empty(),
{
    FxHashSet::default()
}

/// `HashSet::insert`: the set gains the text, and the call tells whether the
/// text was absent before.
#[verifier::external_body]
pub(crate) fn path_set_insert(s: &mut FxHashSet<String>, path: String) -> (fresh: bool)
    ensures
        path_set_items(*final(s)) == path_set_items(*old(s)).insert(path@),
        fresh == !path_set_items(*old(s)).contains(path@),
{
    s.insert(path)
}

/// `HashSet::contains`: whether the set holds the text.
#[verifier::external_body]
pub(crate) fn path_set_contains(s: &FxHashSet<String>, path: &String) -> (found: bool)
    ensures
        found == path_set_items(*s).contains(path@),
{
    s.contains(path)
}

/// The modification times that a map records, path by path.
pub uninterp spec fn recorded_times(m: FxHashMap<String, u128>) -> Map<Seq<char>, u128>;

/// The records of a map that has none.
pub open spec fn no_records() -> Map<Seq<char>, u128> {
    Map::empty()
}

/// `FxHashMap::default`: a map that records nothing.
#[verifier::external_body]
pub(crate) fn time_map_new() -> (m: FxHashMap<String, u128>)
    ensures
        recorded_times(m) == no_records(),
{
    FxHashMap::default()
}

/// `HashMap::get`: the time recorded for the path, if there is one.
#[verifier::external_body]
pub(crate) fn time_map_get(m: &FxHashMap<String, u128>, path: &String) -> (time: Option<u128>)
    ensures
        time == if recorded_times(*m).contains_key(path@) {
            Some(recorded_times(*m)[path@])
        } else {
            None
        },
{
    m.get(path).copied()
}

/// `HashMap::insert`: the map records the time for the path, and the call
/// returns what it recorded for the path before.
#[verifier::external_body]
pub(crate) fn time_map_insert(m: &mut FxHashMap<String, u128>, path: String, time: u128) -> (before:
    Option<u128>)
    ensures
        recorded_times(*final(m)) == recorded_times(*old(m)).insert(path@, time),
        before == if recorded_times(*old(m)).contains_key(path@) {
            Some(recorded_times(*old(m))[path@])
        } else {
            None
        },
{
    m.insert(path, time)
}

/// The byte strings that a set of candidates holds.
pub uninterp spec fn token_set_items(s: FxHashSet<Vec<u8>>) -> Set<Seq<u8>>;

/// `FxHashSet::default`: a set that holds nothing.
#[verifier::external_body]
pub(crate) fn token_set_new() -> (s: FxHashSet<Vec<u8>>)
    ensures
        token_set_items(s) == Set::<Seq<u8>>::empty(),
{
    FxHashSet::default()
}

/// `HashSet::insert`: the set gains the byte string, and the call tells
/// whether it was absent before.
#[verifier::external_body]
pub(crate) fn token_set_insert(s: &mut FxHashSet<Vec<u8>>, token: Vec<u8>) -> (fresh: bool)
    ensures
        token_set_items(*final(s)) == token_set_items(*old(s)).insert(token@),
        fresh == !token_set_items(*old(s)).contains(token@),
{
    s.insert(token)
}

/// `HashSet::iter`: every byte string of the set, each once, in an order that
/// is not told.
#[verifier::external_body]
pub(crate) fn token_set_to_vec(s: &FxHashSet<Vec<u8>>) -> (tokens: Vec<Vec<u8>>)
    ensures
        forall|x: Seq<u8>|
            token_set_items(*s).contains(x) <==> exists|k: int|
                0 <= k < tokens@.len() && (#[trigger] tokens@[k])@ == x,
        forall|i: int, j: int|
            0 <= i < j < tokens@.len() ==> (#[trigger] tokens@[i])@ != (#[trigger] tokens@[j])@,
{
    s.iter().cloned().collect()
}

} // verus!
