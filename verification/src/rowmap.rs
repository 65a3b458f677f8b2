//! The row type: an insertion-ordered mapping from column name to cell text,
//! backed by `indexmap::IndexMap`. The map is modelled in specifications as a
//! sequence of (key, value) pairs in insertion order, with distinct keys.
use vstd::prelude::*;

verus! {

/// One record of a table: an insertion-ordered map from column name to text.
pub type Row = indexmap::IndexMap<String, String>;

#[verifier::external_type_specification]
#[verifier::external_body]
#[verifier::reject_recursive_types(K)]
#[verifier::reject_recursive_types(V)]
#[verifier::reject_recursive_types(S)]
pub struct ExIndexMap<K, V, S>(indexmap::IndexMap<K, V, S>);

/// The entries a row holds, in insertion order: (column name, cell value).
pub uninterp spec fn row_entries(m: Row) -> Seq<(Seq<char>, Seq<char>)>;

/// No column name occurs twice. Holds of every row built through this module.
pub open spec fn distinct_keys(s: Seq<(Seq<char>, Seq<char>)>) -> bool {
    forall|i: int, j: int| 0 <= i < j < s.len() ==> (#[trigger] s[i]).0 != (#[trigger] s[j]).0
}

pub open spec fn row_has_key(s: Seq<(Seq<char>, Seq<char>)>, k: Seq<char>) -> bool {
    exists|i: int| 0 <= i < s.len() && (#[trigger] s[i]).0 == k
}

/// The position of key `k` (meaningful when keys are distinct and `k` occurs).
pub open spec fn key_index(s: Seq<(Seq<char>, Seq<char>)>, k: Seq<char>) -> int {
    choose|i: int| 0 <= i < s.len() && (#[trigger] s[i]).0 == k
}

/// The value stored under key `k`, if any.
pub open spec fn row_find(s: Seq<(Seq<char>, Seq<char>)>, k: Seq<char>) -> Option<Seq<char>> {
    if row_has_key(s, k) {
        Some(s[key_index(s, k)].1)
    } else {
        None
    }
}

/// What inserting `(k, v)` does: an existing key keeps its place and takes the
/// new value; a fresh key is appended at the end.
pub open spec fn row_upsert(
    s: Seq<(Seq<char>, Seq<char>)>,
    k: Seq<char>,
    v: Seq<char>,
) -> Seq<(Seq<char>, Seq<char>)> {
    if row_has_key(s, k) {
        s.update(key_index(s, k), (k, v))
    } else {
        s.push((k, v))
    }
}

/// Relies on `indexmap::IndexMap::new`: creates an empty map.
#[verifier::external_body]
pub fn row_new() -> (r: Row)
    ensures
        row_entries(r) == Seq::<(Seq<char>, Seq<char>)>::empty(),
{
    indexmap::IndexMap::new()
}

/// Relies on `indexmap::IndexMap::len`: the number of entries.
#[verifier::external_body]
pub fn row_len(m: &Row) -> (n: usize)
    ensures
        n == row_entries(*m).len(),
{
    m.len()
}

/// Relies on `indexmap::IndexMap::get`: the value stored for `k`, if present.
#[verifier::external_body]
pub fn row_get<'a>(m: &'a Row, k: &str) -> (r: Option<&'a String>)
    ensures
        (match r {
            Some(v) => row_find(row_entries(*m), k@) == Some(v@),
            None => row_find(row_entries(*m), k@) == Option::<Seq<char>>::None,
        }),
{
    m.get(k)
}

/// Relies on `indexmap::IndexMap::insert`: an existing key keeps its place in
/// the order and its value is replaced; a new key is inserted last in order.
#[verifier::external_body]
pub fn row_insert(m: &mut Row, k: &str, v: String)
    ensures
        row_entries(*final(m)) == row_upsert(row_entries(*old(m)), k@, v@),
{
    m.insert(k.to_owned(), v);
}

/// Relies on `indexmap::IndexMap::get_index`: the entry at a position in the
/// insertion order, or `None` past the end.
#[verifier::external_body]
pub fn row_get_index<'a>(m: &'a Row, i: usize) -> (r: Option<(&'a String, &'a String)>)
    ensures
        (match r {
            Some(p) => i < row_entries(*m).len() && row_entries(*m)[i as int] == (p.0@, p.1@),
            None => i >= row_entries(*m).len(),
        }),
{
    m.get_index(i).map(|p| (p.0, p.1))
}

/// Relies on `indexmap::IndexMap`'s `Clone`: an equal map with the same order.
#[verifier::external_body]
pub fn row_clone(m: &Row) -> (r: Row)
    ensures
        row_entries(r) == row_entries(*m),
{
    m.clone()
}

/// Inserting into a row with distinct keys keeps the keys distinct, looks up
/// as the inserted value under `k` and as before under every other key, and
/// grows only when `k` is fresh.
pub proof fn lemma_upsert(s: Seq<(Seq<char>, Seq<char>)>, k: Seq<char>, v: Seq<char>)
    requires
        distinct_keys(s),
    ensures
        distinct_keys(row_upsert(s, k, v)),
        row_find(row_upsert(s, k, v), k) == Some(v),
        forall|k2: Seq<char>|
            k2 != k ==> #[trigger] row_find(row_upsert(s, k, v), k2) == row_find(s, k2),
        row_has_key(s, k) ==> row_upsert(s, k, v).len() == s.len(),
        !row_has_key(s, k) ==> row_upsert(s, k, v).len() == s.len() + 1,
        forall|i: int|
            0 <= i < row_upsert(s, k, v).len() && i < s.len() ==> (#[trigger] row_upsert(
                s,
                k,
                v,
            )[i]).0 == s[i].0,
{
    let u = row_upsert(s, k, v);
    if row_has_key(s, k) {
        let ki = key_index(s, k);
        assert(0 <= ki < s.len() && s[ki].0 == k);
        assert(forall|i: int| 0 <= i < u.len() ==> (#[trigger] u[i]).0 == s[i].0);
        assert(distinct_keys(u));
        assert(u[ki].0 == k);
        assert(row_has_key(u, k));
        let kj = key_index(u, k);
        assert(0 <= kj < u.len() && u[kj].0 == k);
        assert(kj == ki);
        assert(row_find(u, k) == Some(v));
        assert forall|k2: Seq<char>| k2 != k implies #[trigger] row_find(u, k2) == row_find(
            s,
            k2,
        ) by {
            if row_has_key(u, k2) {
                let j = key_index(u, k2);
                assert(0 <= j < u.len() && u[j].0 == k2);
                assert(s[j].0 == k2);
                assert(row_has_key(s, k2));
                let j2 = key_index(s, k2);
                assert(s[j2].0 == k2);
                assert(j2 == j);
                assert(j != ki);
                assert(u[j].1 == s[j].1);
            } else {
                if row_has_key(s, k2) {
                    let j2 = key_index(s, k2);
                    assert(u[j2].0 == s[j2].0);
                    assert(row_has_key(u, k2));
                }
            }
        }
    } else {
        assert(u == s.push((k, v)));
        assert(u[s.len() as int] == (k, v));
        assert forall|i: int, j: int| 0 <= i < j < u.len() implies (#[trigger] u[i]).0 != (
        #[trigger] u[j]).0 by {
            if j < s.len() {
            } else {
                assert(j == s.len());
                assert(u[j].0 == k);
                assert(u[i].0 == s[i].0);
                if s[i].0 == k {
                    assert(row_has_key(s, k));
                }
            }
        }
        assert(row_has_key(u, k));
        let kj = key_index(u, k);
        assert(u[kj].0 == k);
        if kj < s.len() {
            assert(s[kj].0 == k);
            assert(row_has_key(s, k));
        }
        assert(kj == s.len());
        assert(row_find(u, k) == Some(v));
        assert forall|k2: Seq<char>| k2 != k implies #[trigger] row_find(u, k2) == row_find(
            s,
            k2,
        ) by {
            if row_has_key(u, k2) {
                let j = key_index(u, k2);
                assert(0 <= j < u.len() && u[j].0 == k2);
                assert(j != s.len());
                assert(s[j].0 == k2);
                assert(row_has_key(s, k2));
                let j2 = key_index(s, k2);
                assert(s[j2].0 == k2);
                assert(j2 == j);
                assert(u[j].1 == s[j].1);
            } else {
                if row_has_key(s, k2) {
                    let j2 = key_index(s, k2);
                    assert(u[j2].0 == s[j2].0);
                    assert(row_has_key(u, k2));
                }
            }
        }
    }
}

/// In a row with distinct keys, the key at any position looks up to the value
/// at that position.
pub proof fn lemma_find_at_index(s: Seq<(Seq<char>, Seq<char>)>, i: int)
    requires
        distinct_keys(s),
        0 <= i < s.len(),
    ensures
        row_find(s, s[i].0) == Some(s[i].1),
{
    assert(row_has_key(s, s[i].0));
    let j = key_index(s, s[i].0);
    assert(0 <= j < s.len() && s[j].0 == s[i].0);
    assert(j == i);
}

} // verus!
