//! Trusted declarations of the insertion-ordered containers from the
//! `indexmap` crate, together with thin wrappers around the methods the
//! profile model calls.
//!
//! The profile model keys every deduplicated entity by a flat `Vec<u64>`
//! record and every interned string by `String`, so the contracts below
//! speak only of sequences of plain values.

use vstd::prelude::*;

verus! {

/// indexmap's insertion-ordered set, declared opaquely.
#[verifier::external_type_specification]
#[verifier::external_body]
#[verifier::reject_recursive_types(T)]
#[verifier::reject_recursive_types(S)]
pub struct ExIndexSet<T, S>(indexmap::IndexSet<T, S>);

/// indexmap's insertion-ordered map, declared opaquely.
#[verifier::external_type_specification]
#[verifier::external_body]
#[verifier::reject_recursive_types(K)]
#[verifier::reject_recursive_types(V)]
#[verifier::reject_recursive_types(S)]
pub struct ExIndexMap<K, V, S>(indexmap::IndexMap<K, V, S>);

/// The elements of an `IndexSet<Vec<u64>>`, in insertion order.
pub uninterp spec fn u64_set_elems(s: indexmap::IndexSet<Vec<u64>>) -> Seq<Seq<u64>>;

/// The elements of an `IndexSet<String>`, in insertion order.
pub uninterp spec fn str_set_elems(s: indexmap::IndexSet<String>) -> Seq<Seq<char>>;

/// The keys of an `IndexMap<Vec<u64>, Vec<i64>>`, in insertion order.
pub uninterp spec fn sample_map_keys(m: indexmap::IndexMap<Vec<u64>, Vec<i64>>) -> Seq<Seq<u64>>;

/// The values of an `IndexMap<Vec<u64>, Vec<i64>>`, in insertion order.
pub uninterp spec fn sample_map_vals(m: indexmap::IndexMap<Vec<u64>, Vec<i64>>) -> Seq<Seq<i64>>;

/// Relies on indexmap's `IndexSet::new`: creates an empty set.
#[verifier::external_body]
pub(crate) fn u64_set_new() -> (s: indexmap::IndexSet<Vec<u64>>)
    ensures
        u64_set_elems(s) == Seq::<Seq<u64>>::empty(),
{
    indexmap::IndexSet::new()
}

/// Relies on indexmap's `IndexSet::len`: the number of elements.
#[verifier::external_body]
pub(crate) fn u64_set_len(s: &indexmap::IndexSet<Vec<u64>>) -> (r: usize)
    ensures
        r == u64_set_elems(*s).len(),
{
    s.len()
}

/// Relies on indexmap's `IndexSet::insert_full`: inserts the value last in
/// order if no equal element is present, otherwise leaves the set unchanged;
/// either way returns the element's index, plus whether it was inserted.
#[verifier::external_body]
pub(crate) fn u64_set_insert_full(
    s: &mut indexmap::IndexSet<Vec<u64>>,
    v: Vec<u64>,
) -> (r: (usize, bool))
    ensures
        ({
            let pre = u64_set_elems(*old(s));
            let post = u64_set_elems(*final(s));
            &&& r.1 <==> !pre.contains(v@)
            &&& r.1 ==> post == pre.push(v@) && r.0 == pre.len()
            &&& !r.1 ==> post == pre && r.0 < pre.len() && pre[r.0 as int] == v@
        }),
{
    s.insert_full(v)
}

/// Relies on indexmap's `IndexSet::get_index_of`: the index of the
/// element equal to the borrowed key, `None` if no such element is
/// present.
#[verifier::external_body]
pub(crate) fn u64_set_get_index_of(
    s: &indexmap::IndexSet<Vec<u64>>,
    q: &Vec<u64>,
) -> (r: Option<usize>)
    ensures
        match r {
            Some(i) => i < u64_set_elems(*s).len() && u64_set_elems(*s)[i as int] == q@,
            None => !u64_set_elems(*s).contains(q@),
        },
{
    s.get_index_of(q)
}

/// Relies on indexmap's `IndexSet::get_index`: the element at an in-range
/// index, `None` past the end.
#[verifier::external_body]
pub(crate) fn u64_set_get_index<'a>(
    s: &'a indexmap::IndexSet<Vec<u64>>,
    i: usize,
) -> (r: Option<&'a Vec<u64>>)
    ensures
        match r {
            Some(v) => i < u64_set_elems(*s).len() && v@ == u64_set_elems(*s)[i as int],
            None => i >= u64_set_elems(*s).len(),
        },
{
    s.get_index(i)
}

/// Relies on indexmap's `IndexSet::new`: creates an empty set.
#[verifier::external_body]
pub(crate) fn str_set_new() -> (s: indexmap::IndexSet<String>)
    ensures
        str_set_elems(s) == Seq::<Seq<char>>::empty(),
{
    indexmap::IndexSet::new()
}

/// Relies on indexmap's `IndexSet::len`: the number of elements.
#[verifier::external_body]
pub(crate) fn str_set_len(s: &indexmap::IndexSet<String>) -> (r: usize)
    ensures
        r == str_set_elems(*s).len(),
{
    s.len()
}

/// Relies on indexmap's `IndexSet::get_index_of`: the index of the element
/// equal to the borrowed key, `None` if no such element is present.
#[verifier::external_body]
pub(crate) fn str_set_get_index_of(
    s: &indexmap::IndexSet<String>,
    q: &str,
) -> (r: Option<usize>)
    ensures
        match r {
            Some(i) => i < str_set_elems(*s).len() && str_set_elems(*s)[i as int] == q@,
            None => !str_set_elems(*s).contains(q@),
        },
{
    s.get_index_of(q)
}

/// Relies on indexmap's `IndexSet::insert_full`, as for `u64_set_insert_full`.
#[verifier::external_body]
pub(crate) fn str_set_insert_full(
    s: &mut indexmap::IndexSet<String>,
    v: String,
) -> (r: (usize, bool))
    ensures
        ({
            let pre = str_set_elems(*old(s));
            let post = str_set_elems(*final(s));
            &&& r.1 <==> !pre.contains(v@)
            &&& r.1 ==> post == pre.push(v@) && r.0 == pre.len()
            &&& !r.1 ==> post == pre && r.0 < pre.len() && pre[r.0 as int] == v@
        }),
{
    s.insert_full(v)
}

/// Relies on indexmap's `IndexSet::get_index`: the element at an in-range
/// index, `None` past the end.
#[verifier::external_body]
pub(crate) fn str_set_get_index<'a>(
    s: &'a indexmap::IndexSet<String>,
    i: usize,
) -> (r: Option<&'a String>)
    ensures
        match r {
            Some(v) => i < str_set_elems(*s).len() && v@ == str_set_elems(*s)[i as int],
            None => i >= str_set_elems(*s).len(),
        },
{
    s.get_index(i)
}

/// Relies on indexmap's `IndexMap::new`: creates an empty map.
#[verifier::external_body]
pub(crate) fn sample_map_new() -> (m: indexmap::IndexMap<Vec<u64>, Vec<i64>>)
    ensures
        sample_map_keys(m) == Seq::<Seq<u64>>::empty(),
        sample_map_vals(m) == Seq::<Seq<i64>>::empty(),
{
    indexmap::IndexMap::new()
}

/// Relies on indexmap's `IndexMap::len`: the number of entries.
#[verifier::external_body]
pub(crate) fn sample_map_len(m: &indexmap::IndexMap<Vec<u64>, Vec<i64>>) -> (r: usize)
    ensures
        r == sample_map_keys(*m).len(),
{
    m.len()
}

/// Relies on indexmap's `IndexMap::get_index_of`: the index of the entry
/// whose key equals the borrowed key, `None` if no such entry is present.
#[verifier::external_body]
pub(crate) fn sample_map_get_index_of(
    m: &indexmap::IndexMap<Vec<u64>, Vec<i64>>,
    k: &Vec<u64>,
) -> (r: Option<usize>)
    ensures
        match r {
            Some(i) => i < sample_map_keys(*m).len() && sample_map_keys(*m)[i as int] == k@,
            None => !sample_map_keys(*m).contains(k@),
        },
{
    m.get_index_of(k)
}

/// Relies on indexmap's `IndexMap::insert_full`: when no equal key exists,
/// appends the entry last in order and returns `(new index, None)`; when one
/// exists, keeps the key and its place, replaces the value, and returns the
/// index together with the previous value.
#[verifier::external_body]
pub(crate) fn sample_map_insert_full(
    m: &mut indexmap::IndexMap<Vec<u64>, Vec<i64>>,
    k: Vec<u64>,
    v: Vec<i64>,
) -> (r: (usize, Option<Vec<i64>>))
    ensures
        ({
            let pre_keys = sample_map_keys(*old(m));
            let pre_vals = sample_map_vals(*old(m));
            let post_keys = sample_map_keys(*final(m));
            let post_vals = sample_map_vals(*final(m));
            &&& r.1 is None <==> !pre_keys.contains(k@)
            &&& r.1 is None ==> post_keys == pre_keys.push(k@) && post_vals == pre_vals.push(v@)
                && r.0 == pre_keys.len()
            &&& r.1 matches Some(prev) ==> post_keys == pre_keys && r.0 < pre_keys.len()
                && pre_keys[r.0 as int] == k@ && prev@ == pre_vals[r.0 as int]
                && post_vals == pre_vals.update(r.0 as int, v@)
        }),
{
    m.insert_full(k, v)
}

/// Relies on indexmap's `IndexMap::get_index`: the entry at an in-range
/// index, `None` past the end.
#[verifier::external_body]
pub(crate) fn sample_map_get_index<'a>(
    m: &'a indexmap::IndexMap<Vec<u64>, Vec<i64>>,
    i: usize,
) -> (r: Option<(&'a Vec<u64>, &'a Vec<i64>)>)
    ensures
        match r {
            Some(e) => i < sample_map_keys(*m).len() && e.0@ == sample_map_keys(*m)[i as int]
                && e.1@ == sample_map_vals(*m)[i as int],
            None => i >= sample_map_keys(*m).len(),
        },
{
    m.get_index(i)
}

/// Relies on indexmap's `IndexMap::get_index_mut`: replaces the value of the
/// entry at an in-range index, leaving every key and the order unchanged.
#[verifier::external_body]
pub(crate) fn sample_map_set_value(
    m: &mut indexmap::IndexMap<Vec<u64>, Vec<i64>>,
    i: usize,
    v: Vec<i64>,
)
    requires
        i < sample_map_keys(*old(m)).len(),
    ensures
        sample_map_keys(*final(m)) == sample_map_keys(*old(m)),
        sample_map_vals(*final(m)) == sample_map_vals(*old(m)).update(i as int, v@),
{
    let (_, slot) = m.get_index_mut(i).unwrap();
    *slot = v;
}

} // verus!
