//! The hash maps of the resolver: scopes that map a variable name to whether
//! its declaration is complete, and the table of resolved distances. Both are
//! `rustc_hash::FxHashMap`s, reached only through the items below.
use vstd::prelude::*;
use rustc_hash::FxHashMap;

verus! {

#[verifier::external_type_specification]
#[verifier::external_body]
pub struct ExFxBuildHasher(rustc_hash::FxBuildHasher);

/// The entries of a scope, by the characters of each name.
pub uninterp spec fn scope_entries(m: FxHashMap<String, bool>) -> Map<Seq<char>, bool>;

/// The entries of a table of distances, by expression index.
pub uninterp spec fn local_entries(m: FxHashMap<usize, usize>) -> Map<usize, usize>;

pub open spec fn empty_scope() -> Map<Seq<char>, bool> {
    Map::empty()
}

pub open spec fn no_locals() -> Map<usize, usize> {
    Map::empty()
}

/// `FxHashMap::default` for a scope: an empty map.
#[verifier::external_body]
pub(crate) fn new_scope() -> (r: FxHashMap<String, bool>)
    ensures
        scope_entries(r) == empty_scope(),
{
    FxHashMap::default()
}

/// `HashMap::insert` on a scope: afterwards `key` maps to `value`, every other
/// entry is as it was.
#[verifier::external_body]
pub(crate) fn scope_insert(m: &mut FxHashMap<String, bool>, key: String, value: bool)
    ensures
        scope_entries(*final(m)) == scope_entries(*old(m)).insert(key@, value),
{
    m.insert(key, value);
}

/// `HashMap::get` on a scope, with the value copied out: the value of `key`,
/// if it has one.
#[verifier::external_body]
pub(crate) fn scope_get(m: &FxHashMap<String, bool>, key: &String) -> (r: Option<bool>)
    ensures
        r == (if scope_entries(*m).dom().contains(key@) {
            Some(scope_entries(*m)[key@])
        } else {
            None::<bool>
        }),
{
    m.get(key).copied()
}

/// `HashMap::contains_key` on a scope: whether `key` has a value.
#[verifier::external_body]
pub(crate) fn scope_contains(m: &FxHashMap<String, bool>, key: &String) -> (r: bool)
    ensures
        r == scope_entries(*m).dom().contains(key@),
{
    m.contains_key(key)
}

/// `HashMap::clone` on a scope: a map with the same entries.
#[verifier::external_body]
pub(crate) fn scope_clone(m: &FxHashMap<String, bool>) -> (r: FxHashMap<String, bool>)
    ensures
        scope_entries(r) == scope_entries(*m),
{
    m.clone()
}

/// `FxHashMap::default` for a table of distances: an empty map.
#[verifier::external_body]
pub(crate) fn new_locals() -> (r: FxHashMap<usize, usize>)
    ensures
        local_entries(r) == no_locals(),
{
    FxHashMap::default()
}

/// `HashMap::insert` on a table of distances.
#[verifier::external_body]
pub(crate) fn locals_insert(m: &mut FxHashMap<usize, usize>, key: usize, value: usize)
    ensures
        local_entries(*final(m)) == local_entries(*old(m)).insert(key, value),
{
    m.insert(key, value);
}

/// `HashMap::get` on a table of distances, with the value copied out.
#[verifier::external_body]
pub(crate) fn locals_get(m: &FxHashMap<usize, usize>, key: usize) -> (r: Option<usize>)
    ensures
        r == (if local_entries(*m).dom().contains(key) {
            Some(local_entries(*m)[key])
        } else {
            None::<usize>
        }),
{
    m.get(&key).copied()
}

/// `HashMap::clone` on a table of distances: a map with the same entries.
#[verifier::external_body]
pub(crate) fn locals_clone(m: &FxHashMap<usize, usize>) -> (r: FxHashMap<usize, usize>)
    ensures
        local_entries(r) == local_entries(*m),
{
    m.clone()
}

} // verus!
