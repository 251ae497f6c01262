//! The symbol map of a graph: a `giputils` hash map from node id to name.
use giputils::hash::{GHashMap, GHashSet};
use vstd::prelude::*;

verus! {

/// A map from node id to name, kept in a `giputils` hash map.
#[verifier::external_body]
#[derive(Debug)]
pub struct SymbolMap {
    map: GHashMap<usize, String>,
}

/// The names that a symbol map holds, by node id.
pub uninterp spec fn symbol_names(m: SymbolMap) -> Map<usize, Seq<char>>;

/// Relies on `GHashMap::new`: an empty map.
#[verifier::external_body]
pub(crate) fn symbols_new() -> (r: SymbolMap)
    ensures
        symbol_names(r) =~= Map::empty(),
{
    SymbolMap { map: GHashMap::new() }
}

/// Relies on `HashMap::get` (through `Deref`) and `String::clone`.
#[verifier::external_body]
pub(crate) fn symbols_get(m: &SymbolMap, id: usize) -> (r: Option<String>)
    ensures
        r.is_some() == symbol_names(*m).contains_key(id),
        r.is_some() ==> r.unwrap()@ == symbol_names(*m)[id],
{
    m.map.get(&id).cloned()
}

/// Relies on `HashMap::insert` (through `DerefMut`): the name of `id` becomes
/// `s`, the others stay.
#[verifier::external_body]
pub(crate) fn symbols_insert(m: &mut SymbolMap, id: usize, s: String)
    ensures
        symbol_names(*final(m)) == symbol_names(*old(m)).insert(id, s@),
{
    m.map.insert(id, s);
}

/// Relies on `HashMap::iter` and `String::clone`: each entry once, in the
/// map's own order.
#[verifier::external_body]
pub(crate) fn symbols_entries(m: &SymbolMap) -> (r: Vec<(usize, String)>)
    ensures
        forall|k: int| 0 <= k < r.len() ==> symbol_names(*m).contains_key(#[trigger] r[k].0)
            && symbol_names(*m)[r[k].0] == r[k].1@,
        forall|k: int, l: int| 0 <= k < l < r.len() ==> #[trigger] r[k].0 != #[trigger] r[l].0,
        forall|id: usize| #[trigger] symbol_names(*m).contains_key(id) ==> exists|k: int|
            0 <= k < r.len() && #[trigger] r[k].0 == id,
{
    m.map.iter().map(|(k, s)| (*k, s.clone())).collect()
}

/// Relies on `GHashMap::clone`, which clones the inner map and its names.
#[verifier::external_body]
pub(crate) fn symbols_clone(m: &SymbolMap) -> (r: SymbolMap)
    ensures
        symbol_names(r) == symbol_names(*m),
{
    SymbolMap { map: m.map.clone() }
}

/// The names of `m` whose id `id` is below `keys.len()` with `keep[id]`,
/// each under the new key `keys[id]`. Every name of the result is such a
/// name under its new key, and every kept name has its new key.
pub fn rekey_symbols(m: &SymbolMap, keys: &Vec<usize>, keep: &Vec<bool>) -> (r: SymbolMap)
    requires
        keep.len() == keys.len(),
    ensures
        forall|x: usize| #[trigger] symbol_names(r).contains_key(x) ==> exists|id: usize|
            #[trigger] symbol_names(*m).contains_key(id) && (id as int) < keys.len() && keep@[id as int] && keys@[id as int] == x
                && symbol_names(r)[x] == symbol_names(*m)[id],
        forall|id: usize| #[trigger] symbol_names(*m).contains_key(id) && (id as int) < keys.len() && keep@[id as int]
            ==> symbol_names(r).contains_key(keys@[id as int]),
{
    let entries = symbols_entries(m);
    let mut r = symbols_new();
    let mut k: usize = 0;
    while k < entries.len()
        invariant
            keep.len() == keys.len(),
            k <= entries.len(),
            forall|e: int| 0 <= e < entries.len() ==> symbol_names(*m).contains_key(#[trigger] entries@[e].0)
                && symbol_names(*m)[entries@[e].0] == entries@[e].1@,
            forall|x: usize| #[trigger] symbol_names(r).contains_key(x) ==> exists|id: usize|
                #[trigger] symbol_names(*m).contains_key(id) && (id as int) < keys.len() && keep@[id as int] && keys@[id as int] == x
                    && symbol_names(r)[x] == symbol_names(*m)[id],
            forall|e: int| 0 <= e < k && (#[trigger] entries@[e].0 as int) < keys.len() && keep@[entries@[e].0 as int]
                ==> symbol_names(r).contains_key(keys@[entries@[e].0 as int]),
        decreases entries.len() - k,
    {
        let id = entries[k].0;
        if id < keys.len() && keep[id] {
            let name = entries[k].1.clone();
            let key = keys[id];
            let ghost before = symbol_names(r);
            symbols_insert(&mut r, key, name);
            assert(symbol_names(*m).contains_key(entries@[k as int].0));
            assert forall|x: usize| #[trigger] symbol_names(r).contains_key(x) implies exists|id2: usize|
                #[trigger] symbol_names(*m).contains_key(id2) && (id2 as int) < keys.len() && keep@[id2 as int] && keys@[id2 as int] == x
                    && symbol_names(r)[x] == symbol_names(*m)[id2] by {
                if x == key {
                    assert(symbol_names(*m).contains_key(id) && symbol_names(r)[x] == symbol_names(*m)[id]);
                } else {
                    assert(before.contains_key(x));
                    let id2 = choose|id2: usize| #[trigger] symbol_names(*m).contains_key(id2) && (id2 as int) < keys.len() && keep@[id2 as int] && keys@[id2 as int] == x
                        && before[x] == symbol_names(*m)[id2];
                    assert(symbol_names(r)[x] == before[x]);
                }
            }
        }
        k += 1;
    }
    assert forall|id: usize| #[trigger] symbol_names(*m).contains_key(id) && (id as int) < keys.len() && keep@[id as int]
        implies symbol_names(r).contains_key(keys@[id as int]) by {
        let e = choose|e: int| 0 <= e < entries.len() && #[trigger] entries@[e].0 == id;
    }
    r
}

/// A set of node ids, kept in a `giputils` hash set.
#[verifier::external_body]
#[derive(Debug)]
pub struct NodeSet {
    set: GHashSet<usize>,
}

/// The ids that a node set holds.
pub uninterp spec fn node_ids(s: NodeSet) -> Set<usize>;

/// Relies on `GHashSet::new`: an empty set.
#[verifier::external_body]
pub(crate) fn node_set_new() -> (r: NodeSet)
    ensures
        node_ids(r) =~= Set::empty(),
{
    NodeSet { set: GHashSet::new() }
}

/// Relies on `HashSet::insert` (through `DerefMut`): `id` is added.
#[verifier::external_body]
pub(crate) fn node_set_insert(s: &mut NodeSet, id: usize)
    ensures
        node_ids(*final(s)) == node_ids(*old(s)).insert(id),
{
    s.set.insert(id);
}

impl NodeSet {
    /// Relies on `HashSet::contains` (through `Deref`).
    #[verifier::external_body]
    pub fn contains(&self, id: usize) -> (r: bool)
        ensures
            r == node_ids(*self).contains(id),
    {
        self.set.contains(&id)
    }

    /// Relies on `HashSet::len` (through `Deref`): the number of ids.
    #[verifier::external_body]
    pub fn len(&self) -> (r: usize)
        ensures
            r as nat == node_ids(*self).len(),
    {
        self.set.len()
    }
}

} // verus!
