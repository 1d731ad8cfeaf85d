//! The outside collections that the tag index is kept in: a bijective map
//! from numbers to names, and an insertion-ordered map from tag numbers to
//! sets of file numbers. Each call into them goes through one function below,
//! whose contract states what the collection's source does.

use std::collections::HashSet;

use bimap::BiHashMap;
use indexmap::IndexMap;
use vstd::prelude::*;

verus! {

#[verifier::external_type_specification]
#[verifier::external_body]
#[verifier::reject_recursive_types(L)]
#[verifier::reject_recursive_types(R)]
#[verifier::reject_recursive_types(LS)]
#[verifier::reject_recursive_types(RS)]
pub struct ExBiHashMap<L, R, LS, RS>(BiHashMap<L, R, LS, RS>);

#[verifier::external_type_specification]
#[verifier::external_body]
#[verifier::reject_recursive_types(K)]
#[verifier::reject_recursive_types(V)]
#[verifier::reject_recursive_types(S)]
pub struct ExIndexMap<K, V, S>(IndexMap<K, V, S>);

/// The pairs that a bimap from numbers to names holds, as a map from the
/// left value to the right one.
pub uninterp spec fn name_pairs(m: BiHashMap<u64, Vec<u8>>) -> Map<u64, Seq<u8>>;

/// The keys of an index map in their insertion order.
pub uninterp spec fn set_order(m: IndexMap<u64, HashSet<u64>>) -> Seq<u64>;

/// The sets that an index map holds under each key.
pub uninterp spec fn set_contents(m: IndexMap<u64, HashSet<u64>>) -> Map<u64, Set<u64>>;

/// `m` after binding `l` to `r`: every pair that held `l` or `r` before is gone.
pub open spec fn rebind(m: Map<u64, Seq<u8>>, l: u64, r: Seq<u8>) -> Map<u64, Seq<u8>> {
    Map::new(|k: u64| k == l || (m.contains_key(k) && m[k] != r), |k: u64| if k == l { r } else { m[k] })
}

/// Relies on `BiHashMap::new`: the new bimap is empty.
#[verifier::external_body]
pub(crate) fn names_new() -> (r: BiHashMap<u64, Vec<u8>>)
    ensures
        name_pairs(r).dom() == Set::<u64>::empty(),
{
    BiHashMap::new()
}

/// Relies on `BiHashMap::insert`: it removes the pair of `left` and the pair of
/// `right`, where there are such, then adds the pair `(left, right)`.
#[verifier::external_body]
pub(crate) fn names_insert(m: &mut BiHashMap<u64, Vec<u8>>, left: u64, right: Vec<u8>)
    ensures
        name_pairs(*final(m)) == rebind(name_pairs(*old(m)), left, right@),
{
    m.insert(left, right);
}

/// Relies on `BiHashMap::get_by_left`: the right value paired with `left`.
#[verifier::external_body]
pub(crate) fn names_get_by_left(m: &BiHashMap<u64, Vec<u8>>, left: u64) -> (r: Option<Vec<u8>>)
    ensures
        match r {
            Some(v) => name_pairs(*m).contains_key(left) && v@ == name_pairs(*m)[left],
            None => !name_pairs(*m).contains_key(left),
        },
{
    m.get_by_left(&left).cloned()
}

/// Relies on `BiHashMap::get_by_right`: the left value paired with `right`.
#[verifier::external_body]
pub(crate) fn names_get_by_right(m: &BiHashMap<u64, Vec<u8>>, right: &[u8]) -> (r: Option<u64>)
    ensures
        match r {
            Some(l) => name_pairs(*m).contains_key(l) && name_pairs(*m)[l] == right@,
            None => forall|l: u64| #[trigger]
                name_pairs(*m).contains_key(l) ==> name_pairs(*m)[l] != right@,
        },
{
    m.get_by_right(right).copied()
}

/// Relies on `BiHashMap::remove_by_left`: the pair of `left` is gone.
#[verifier::external_body]
pub(crate) fn names_remove_by_left(m: &mut BiHashMap<u64, Vec<u8>>, left: u64)
    ensures
        name_pairs(*final(m)) == name_pairs(*old(m)).remove(left),
{
    m.remove_by_left(&left);
}

/// Relies on `BiHashMap::iter`: every pair once, in an order that the
/// bimap's hashing decides.
#[verifier::external_body]
pub(crate) fn names_iter(m: &BiHashMap<u64, Vec<u8>>) -> (r: Vec<(u64, Vec<u8>)>)
    ensures
        r@.len() == name_pairs(*m).len(),
        forall|i: int|
            0 <= i < r@.len() ==> name_pairs(*m).contains_key(#[trigger] r@[i].0) && r@[i].1@
                == name_pairs(*m)[r@[i].0],
        forall|i: int, j: int| 0 <= i < j < r@.len() ==> #[trigger] r@[i].0 != #[trigger] r@[j].0,
        forall|l: u64| #[trigger]
            name_pairs(*m).contains_key(l) ==> exists|i: int| 0 <= i < r@.len() && r@[i].0 == l,
{
    m.iter().map(|(l, r)| (*l, r.clone())).collect()
}

/// Relies on `IndexMap::new`: the new map is empty.
#[verifier::external_body]
pub(crate) fn sets_new() -> (r: IndexMap<u64, HashSet<u64>>)
    ensures
        set_order(r) == Seq::<u64>::empty(),
        set_contents(r).dom() == Set::<u64>::empty(),
{
    IndexMap::new()
}

/// Relies on `IndexMap::insert`: a key already there keeps its place and
/// takes the new value; a new key goes last.
#[verifier::external_body]
pub(crate) fn sets_insert(m: &mut IndexMap<u64, HashSet<u64>>, key: u64, value: HashSet<u64>)
    ensures
        set_contents(*final(m)) == set_contents(*old(m)).insert(key, value@),
        set_order(*final(m)) == if set_contents(*old(m)).contains_key(key) {
            set_order(*old(m))
        } else {
            set_order(*old(m)).push(key)
        },
{
    m.insert(key, value);
}

/// Relies on `IndexMap::get`: a copy of the set held under `key`.
#[verifier::external_body]
pub(crate) fn sets_get(m: &IndexMap<u64, HashSet<u64>>, key: u64) -> (r: Option<HashSet<u64>>)
    ensures
        match r {
            Some(s) => set_contents(*m).contains_key(key) && s@ == set_contents(*m)[key],
            None => !set_contents(*m).contains_key(key),
        },
{
    m.get(&key).cloned()
}

/// Relies on `IndexMap::keys`: the keys in their order.
#[verifier::external_body]
pub(crate) fn sets_keys(m: &IndexMap<u64, HashSet<u64>>) -> (r: Vec<u64>)
    ensures
        r@ == set_order(*m),
{
    m.keys().copied().collect()
}

} // verus!
