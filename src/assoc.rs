//! Sequences of keyed entries, where each key stands at most once and a new
//! value for a present key takes the old entry's place.
use vstd::prelude::*;

verus! {

/// The first position at or after `i` whose key is `k`, or -1.
pub open spec fn key_index<V>(s: Seq<(Seq<char>, V)>, k: Seq<char>, i: int) -> int
    decreases s.len() - i,
{
    if i < 0 || i >= s.len() {
        -1
    } else if s[i].0 == k {
        i
    } else {
        key_index(s, k, i + 1)
    }
}

/// `s` with the value of `k` set to `v`: in place where `k` is present,
/// appended otherwise.
pub open spec fn put<V>(s: Seq<(Seq<char>, V)>, k: Seq<char>, v: V) -> Seq<(Seq<char>, V)> {
    let j = key_index(s, k, 0);
    if j >= 0 {
        s.update(j, (k, v))
    } else {
        s.push((k, v))
    }
}

/// The value of `k` in `s`, if present.
pub open spec fn lookup<V>(s: Seq<(Seq<char>, V)>, k: Seq<char>) -> Option<V> {
    let j = key_index(s, k, 0);
    if j >= 0 {
        Some(s[j].1)
    } else {
        None
    }
}

/// No key stands twice.
pub open spec fn keys_unique<V>(s: Seq<(Seq<char>, V)>) -> bool {
    forall|a: int, b: int| 0 <= a < b < s.len() ==> s[a].0 != s[b].0
}

pub proof fn lemma_key_index_bounds<V>(s: Seq<(Seq<char>, V)>, k: Seq<char>, i: int)
    requires
        0 <= i,
    ensures
        key_index(s, k, i) == -1 || (i <= key_index(s, k, i) < s.len() && s[key_index(
            s,
            k,
            i,
        )].0 == k),
        key_index(s, k, i) == -1 ==> forall|j: int| i <= j < s.len() ==> s[j].0 != k,
        forall|j: int| i <= j < key_index(s, k, i) ==> s[j].0 != k,
    decreases s.len() - i,
{
    if i < s.len() && s[i].0 != k {
        lemma_key_index_bounds(s, k, i + 1);
    }
}

/// Putting a key keeps the keys unique.
pub proof fn lemma_put_unique<V>(s: Seq<(Seq<char>, V)>, k: Seq<char>, v: V)
    requires
        keys_unique(s),
    ensures
        keys_unique(put(s, k, v)),
{
    lemma_key_index_bounds(s, k, 0);
}

} // verus!
