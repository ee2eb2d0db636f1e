//! Association lists: `Vec`s of key/value pairs with distinct keys that
//! stand in for the hash maps of the server (string keys, any value).
//! A list is read as the finite map from each key to its value.
use vstd::prelude::*;

verus! {

pub open spec fn unique_keys<K, V>(m: Seq<(K, V)>) -> bool {
    forall|i: int, j: int| 0 <= i < j < m.len() ==> m[i].0 != m[j].0
}

pub open spec fn has_key<K, V>(m: Seq<(K, V)>, k: K) -> bool {
    exists|i: int| 0 <= i < m.len() && m[i].0 == k
}

pub open spec fn index_of<K, V>(m: Seq<(K, V)>, k: K) -> int {
    choose|i: int| 0 <= i < m.len() && m[i].0 == k
}

pub open spec fn lookup<K, V>(m: Seq<(K, V)>, k: K) -> Option<V> {
    if has_key(m, k) {
        Some(m[index_of(m, k)].1)
    } else {
        None
    }
}

/// Replaces the value of `k` in place, or appends `(k, v)` when `k` is new.
pub open spec fn insert<K, V>(m: Seq<(K, V)>, k: K, v: V) -> Seq<(K, V)> {
    if has_key(m, k) {
        m.update(index_of(m, k), (k, v))
    } else {
        m.push((k, v))
    }
}

/// Drops the pair of `k`, keeping the order of the others.
pub open spec fn remove<K, V>(m: Seq<(K, V)>, k: K) -> Seq<(K, V)> {
    if has_key(m, k) {
        m.remove(index_of(m, k))
    } else {
        m
    }
}

/// The map that the list stands for.
pub open spec fn to_map<K, V>(m: Seq<(K, V)>) -> Map<K, V> {
    Map::new(|k: K| has_key(m, k), |k: K| lookup(m, k).unwrap())
}

pub open spec fn keys<K, V>(m: Seq<(K, V)>) -> Seq<K> {
    m.map_values(|p: (K, V)| p.0)
}

/// The list with keys and values taken by their views.
pub open spec fn pairs_view<V: View>(m: Seq<(String, V)>) -> Seq<(Seq<char>, V::V)> {
    m.map_values(|p: (String, V)| (p.0@, p.1@))
}

pub proof fn lemma_index_of<K, V>(m: Seq<(K, V)>, k: K, i: int)
    requires
        unique_keys(m),
        0 <= i < m.len(),
        m[i].0 == k,
    ensures
        has_key(m, k),
        index_of(m, k) == i,
        lookup(m, k) == Some(m[i].1),
{
    assert(has_key(m, k));
    let j = index_of(m, k);
    assert(0 <= j < m.len() && m[j].0 == k);
    if j < i {
        assert(m[j].0 != m[i].0);
    } else if i < j {
        assert(m[i].0 != m[j].0);
    }
}

pub proof fn lemma_insert<K, V>(m: Seq<(K, V)>, k: K, v: V)
    requires
        unique_keys(m),
    ensures
        unique_keys(insert(m, k, v)),
        to_map(insert(m, k, v)) == to_map(m).insert(k, v),
        has_key(m, k) ==> insert(m, k, v).len() == m.len(),
        !has_key(m, k) ==> insert(m, k, v).len() == m.len() + 1,
{
    let r = insert(m, k, v);
    if has_key(m, k) {
        let i = index_of(m, k);
        assert forall|a: int, b: int| 0 <= a < b < r.len() implies r[a].0 != r[b].0 by {
            assert(r[a].0 == m[a].0 && r[b].0 == m[b].0);
        }
    } else {
        assert forall|a: int, b: int| 0 <= a < b < r.len() implies r[a].0 != r[b].0 by {
            if b == m.len() {
                assert(!(m[a].0 == k));
            }
        }
    }
    assert forall|x: K| #[trigger] to_map(r).contains_key(x) <==> to_map(m).insert(k, v).contains_key(x) by {
        if x == k {
            if has_key(m, k) {
                let i = index_of(m, k);
                assert(r[i].0 == k);
            } else {
                assert(r[m.len() as int].0 == k);
            }
        } else {
            if has_key(m, x) {
                let j = index_of(m, x);
                assert(r[j].0 == x);
            }
            if has_key(r, x) {
                let j = index_of(r, x);
                assert(m[j].0 == x);
            }
        }
    }
    assert forall|x: K| #[trigger] to_map(r).contains_key(x) implies to_map(r)[x] == to_map(m).insert(k, v)[x] by {
        if x == k {
            if has_key(m, k) {
                lemma_index_of(r, k, index_of(m, k));
            } else {
                lemma_index_of(r, k, m.len() as int);
            }
        } else {
            let j = index_of(r, x);
            assert(m[j].0 == x);
            lemma_index_of(m, x, j);
            lemma_index_of(r, x, j);
        }
    }
    assert(to_map(r) =~= to_map(m).insert(k, v));
}

pub proof fn lemma_remove<K, V>(m: Seq<(K, V)>, k: K)
    requires
        unique_keys(m),
    ensures
        unique_keys(remove(m, k)),
        to_map(remove(m, k)) == to_map(m).remove(k),
{
    let r = remove(m, k);
    if has_key(m, k) {
        let i = index_of(m, k);
        assert forall|a: int, b: int| 0 <= a < b < r.len() implies r[a].0 != r[b].0 by {
            let a2 = if a < i { a } else { a + 1 };
            let b2 = if b < i { b } else { b + 1 };
            assert(r[a] == m[a2] && r[b] == m[b2]);
        }
        assert forall|x: K| #[trigger] to_map(r).contains_key(x) <==> to_map(m).remove(k).contains_key(x) by {
            if has_key(r, x) {
                let j = index_of(r, x);
                let j2 = if j < i { j } else { j + 1 };
                assert(r[j] == m[j2]);
                assert(x != k);
            }
            if x != k && has_key(m, x) {
                let j = index_of(m, x);
                assert(j != i);
                let j2 = if j < i { j } else { j - 1 };
                assert(r[j2] == m[j]);
            }
        }
        assert forall|x: K| #[trigger] to_map(r).contains_key(x) implies to_map(r)[x] == to_map(m).remove(k)[x] by {
            let j = index_of(r, x);
            let j2 = if j < i { j } else { j + 1 };
            assert(r[j] == m[j2]);
            lemma_index_of(m, x, j2);
            lemma_index_of(r, x, j);
        }
        assert(to_map(r) =~= to_map(m).remove(k));
    } else {
        assert(to_map(r) =~= to_map(m).remove(k));
    }
}

pub proof fn lemma_pairs_view_push<V: View>(m: Seq<(String, V)>, x: (String, V))
    ensures
        pairs_view(m.push(x)) == pairs_view(m).push((x.0@, x.1@)),
{
    assert(pairs_view(m.push(x)) =~= pairs_view(m).push((x.0@, x.1@)));
}

/// The position of the pair with key `k`, if any.
pub fn find_key<V: View>(m: &Vec<(String, V)>, k: &str) -> (r: Option<usize>)
    requires
        unique_keys(pairs_view(m@)),
    ensures
        r is Some <==> has_key(pairs_view(m@), k@),
        r matches Some(i) ==> i < m@.len() && i == index_of(pairs_view(m@), k@),
{
    let mut i: usize = 0;
    while i < m.len()
        invariant
            i <= m.len(),
            unique_keys(pairs_view(m@)),
            forall|j: int| 0 <= j < i ==> pairs_view(m@)[j].0 != k@,
        decreases m.len() - i,
    {
        let ghost pv = pairs_view(m@);
        if crate::text::str_eq(m[i].0.as_str(), k) {
            proof {
                lemma_index_of(pv, k@, i as int);
            }
            return Some(i);
        }
        i = i + 1;
    }
    None
}

/// The value stored under `k`, if any.
pub fn get_value<'a, V: View>(m: &'a Vec<(String, V)>, k: &str) -> (r: Option<&'a V>)
    requires
        unique_keys(pairs_view(m@)),
    ensures
        r is Some <==> has_key(pairs_view(m@), k@),
        r matches Some(v) ==> lookup(pairs_view(m@), k@) == Some(v@),
{
    match find_key(m, k) {
        Some(i) => {
            proof {
                lemma_index_of(pairs_view(m@), k@, i as int);
            }
            Some(&m[i].1)
        },
        None => None,
    }
}

/// Sets the value of `k` to `v`, appending the pair when `k` is new.
pub fn insert_pair<V: View>(m: &mut Vec<(String, V)>, k: String, v: V)
    requires
        unique_keys(pairs_view(old(m)@)),
    ensures
        pairs_view(final(m)@) == insert(pairs_view(old(m)@), k@, v@),
        unique_keys(pairs_view(final(m)@)),
{
    let ghost old_pv = pairs_view(m@);
    proof {
        lemma_insert(old_pv, k@, v@);
    }
    match find_key(m, k.as_str()) {
        Some(i) => {
            m.set(i, (k, v));
            assert(pairs_view(m@) =~= insert(old_pv, k@, v@));
        },
        None => {
            m.push((k, v));
            assert(pairs_view(m@) =~= insert(old_pv, k@, v@));
        },
    }
}

/// Removes the pair of `k`, if there is one.
pub fn remove_pair<V: View>(m: &mut Vec<(String, V)>, k: &str)
    requires
        unique_keys(pairs_view(old(m)@)),
    ensures
        pairs_view(final(m)@) == remove(pairs_view(old(m)@), k@),
        unique_keys(pairs_view(final(m)@)),
{
    let ghost old_pv = pairs_view(m@);
    proof {
        lemma_remove(old_pv, k@);
    }
    match find_key(m, k) {
        Some(i) => {
            m.remove(i);
            assert(pairs_view(m@) =~= remove(old_pv, k@));
        },
        None => {},
    }
}

} // verus!
