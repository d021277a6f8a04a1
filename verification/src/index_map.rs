//! `indexmap::IndexMap`, as far as the parsers and emitters use it: what a
//! map holds, in its order, and how an insertion changes that.

use indexmap::IndexMap;
use vstd::prelude::*;

verus! {

#[verifier::external_type_specification]
#[verifier::external_body]
#[verifier::reject_recursive_types(K)]
#[verifier::reject_recursive_types(V)]
#[verifier::reject_recursive_types(S)]
pub struct ExIndexMap<K, V, S>(IndexMap<K, V, S>);

/// What an index-keyed map holds: its entries, in iteration order.
pub uninterp spec fn indexed_entries(m: IndexMap<usize, String>) -> Seq<(usize, Seq<char>)>;

/// What a string-keyed map holds: its entries, in iteration order.
pub uninterp spec fn assoc_entries(m: IndexMap<String, String>) -> Seq<(Seq<char>, Seq<char>)>;

/// Where key `k` first stands among the entries, or `-1`.
pub open spec fn key_index<K, V>(e: Seq<(K, V)>, k: K) -> int
    decreases e.len(),
{
    if e.len() == 0 {
        -1
    } else {
        let i = key_index(e.drop_last(), k);
        if i >= 0 {
            i
        } else if e.last().0 == k {
            e.len() - 1
        } else {
            -1
        }
    }
}

/// An insertion: an existing key keeps its place and takes the new value; a
/// new key goes last.
pub open spec fn insert_entry<K, V>(e: Seq<(K, V)>, k: K, v: V) -> Seq<(K, V)> {
    let i = key_index(e, k);
    if i >= 0 {
        e.update(i, (k, v))
    } else {
        e.push((k, v))
    }
}

/// The entries after inserting `pairs` in order into `e`.
pub open spec fn insert_all<K, V>(e: Seq<(K, V)>, pairs: Seq<(K, V)>) -> Seq<(K, V)>
    decreases pairs.len(),
{
    if pairs.len() == 0 {
        e
    } else {
        let prev = insert_all(e, pairs.drop_last());
        insert_entry(prev, pairs.last().0, pairs.last().1)
    }
}

/// No key stands twice: what every map's entries satisfy.
pub open spec fn distinct_keys<K, V>(e: Seq<(K, V)>) -> bool {
    forall|i: int, j: int| 0 <= i < j < e.len() ==> e[i].0 != e[j].0
}

/// `IndexMap::new`: an empty map.
#[verifier::external_body]
pub(crate) fn new_indexed() -> (m: IndexMap<usize, String>)
    ensures
        indexed_entries(m) == Seq::<(usize, Seq<char>)>::empty(),
        distinct_keys(indexed_entries(m)),
{
    IndexMap::new()
}

/// `IndexMap::insert`: an existing key keeps its place and takes the new
/// value; a new key goes last. No key stands twice in a map.
#[verifier::external_body]
pub(crate) fn insert_indexed(m: &mut IndexMap<usize, String>, key: usize, value: String)
    ensures
        indexed_entries(*final(m)) == insert_entry(indexed_entries(*old(m)), key, value@),
        distinct_keys(indexed_entries(*final(m))),
{
    m.insert(key, value);
}

/// `IndexMap::len`: how many entries the map holds.
#[verifier::external_body]
pub(crate) fn indexed_len(m: &IndexMap<usize, String>) -> (n: usize)
    ensures
        n == indexed_entries(*m).len(),
{
    m.len()
}

/// `IndexMap::get_index`: the entry at position `i`, copied out.
#[verifier::external_body]
pub(crate) fn indexed_entry(m: &IndexMap<usize, String>, i: usize) -> (entry: (usize, String))
    requires
        i < indexed_entries(*m).len(),
    ensures
        entry.0 == indexed_entries(*m)[i as int].0,
        entry.1@ == indexed_entries(*m)[i as int].1,
{
    let (key, value) = m.get_index(i).unwrap();
    (*key, value.clone())
}

/// `IndexMap::new`: an empty map.
#[verifier::external_body]
pub(crate) fn new_assoc() -> (m: IndexMap<String, String>)
    ensures
        assoc_entries(m) == Seq::<(Seq<char>, Seq<char>)>::empty(),
        distinct_keys(assoc_entries(m)),
{
    IndexMap::new()
}

/// `IndexMap::insert`: an existing key (compared as text) keeps its place and
/// takes the new value; a new key goes last. No key stands twice in a map.
#[verifier::external_body]
pub(crate) fn insert_assoc(m: &mut IndexMap<String, String>, key: String, value: String)
    ensures
        assoc_entries(*final(m)) == insert_entry(assoc_entries(*old(m)), key@, value@),
        distinct_keys(assoc_entries(*final(m))),
{
    m.insert(key, value);
}

/// `IndexMap::len`: how many entries the map holds.
#[verifier::external_body]
pub(crate) fn assoc_len(m: &IndexMap<String, String>) -> (n: usize)
    ensures
        n == assoc_entries(*m).len(),
{
    m.len()
}

/// `IndexMap::get_index`: the entry at position `i`, copied out.
#[verifier::external_body]
pub(crate) fn assoc_entry(m: &IndexMap<String, String>, i: usize) -> (entry: (String, String))
    requires
        i < assoc_entries(*m).len(),
    ensures
        entry.0@ == assoc_entries(*m)[i as int].0,
        entry.1@ == assoc_entries(*m)[i as int].1,
{
    let (key, value) = m.get_index(i).unwrap();
    (key.clone(), value.clone())
}

/// With no key standing twice, inserting the entries in order into an empty
/// map gives them back.
pub proof fn lemma_insert_all_distinct<K, V>(e: Seq<(K, V)>)
    requires
        distinct_keys(e),
    ensures
        insert_all(Seq::<(K, V)>::empty(), e) == e,
    decreases e.len(),
{
    if e.len() > 0 {
        let d = e.drop_last();
        assert(distinct_keys(d)) by {
            assert forall|i: int, j: int| 0 <= i < j < d.len() implies d[i].0 != d[j].0 by {
                assert(d[i] == e[i] && d[j] == e[j]);
            }
        }
        lemma_insert_all_distinct(d);
        lemma_key_index_absent(d, e.last().0);
        assert(d.push(e.last()) =~= e);
    }
}

/// A key that stands nowhere has no index.
pub proof fn lemma_key_index_absent<K, V>(e: Seq<(K, V)>, k: K)
    requires
        forall|i: int| 0 <= i < e.len() ==> e[i].0 != k,
    ensures
        key_index(e, k) == -1,
    decreases e.len(),
{
    if e.len() > 0 {
        let d = e.drop_last();
        assert forall|i: int| 0 <= i < d.len() implies d[i].0 != k by {
            assert(d[i] == e[i]);
        }
        lemma_key_index_absent(d, k);
    }
}

} // verus!
