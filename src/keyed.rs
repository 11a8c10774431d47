//! Lookup by key in a sequence of pairs, where the last pair of a key counts.
use vstd::prelude::*;

verus! {

/// The position of the last pair whose first part is `k`, or -1.
pub open spec fn last_index<K, V>(s: Seq<(K, V)>, k: K) -> int
    decreases s.len(),
{
    if s.len() == 0 {
        -1
    } else if s.last().0 == k {
        s.len() - 1
    } else {
        last_index(s.drop_last(), k)
    }
}

/// The position `last_index` gives holds the key, and no later one does.
pub proof fn lemma_last_index<K, V>(s: Seq<(K, V)>, k: K)
    ensures
        -1 <= last_index(s, k) < s.len(),
        last_index(s, k) >= 0 ==> s[last_index(s, k)].0 == k,
        forall|j: int| last_index(s, k) < j < s.len() ==> s[j].0 != k,
    decreases s.len(),
{
    if s.len() > 0 && s.last().0 != k {
        lemma_last_index(s.drop_last(), k);
        assert forall|j: int| last_index(s, k) < j < s.len() implies s[j].0 != k by {
            if j < s.len() - 1 {
                assert(s.drop_last()[j] == s[j]);
            }
        }
    }
}

/// A position that holds the key, with no later one holding it, is the one
/// `last_index` gives; -1 where no position holds it.
pub proof fn lemma_last_index_is<K, V>(s: Seq<(K, V)>, k: K, i: int)
    requires
        -1 <= i < s.len(),
        i >= 0 ==> s[i].0 == k,
        forall|j: int| i < j < s.len() ==> s[j].0 != k,
    ensures
        last_index(s, k) == i,
    decreases s.len(),
{
    if s.len() > 0 && i < s.len() - 1 {
        assert(s.last().0 != k);
        assert forall|j: int| i < j < s.drop_last().len() implies s.drop_last()[j].0 != k by {
            assert(s.drop_last()[j] == s[j]);
        }
        lemma_last_index_is(s.drop_last(), k, i);
    }
}

/// No two pairs share a key.
pub open spec fn unique_keys<K, V>(s: Seq<(K, V)>) -> bool {
    forall|i: int, j: int| 0 <= i < j < s.len() ==> s[i].0 != s[j].0
}

/// Setting a key in place where it is present, or at the end where it is
/// not, keeps the keys unique.
pub proof fn lemma_put_unique<K, V>(s: Seq<(K, V)>, k: K, v: V)
    requires
        unique_keys(s),
    ensures
        unique_keys(if last_index(s, k) >= 0 { s.update(last_index(s, k), (k, v)) } else { s.push((k, v)) }),
{
    lemma_last_index(s, k);
    let i = last_index(s, k);
    if i < 0 {
        assert forall|a: int, b: int| 0 <= a < b < s.len() + 1 implies #[trigger] s.push((k, v))[a].0 != #[trigger] s.push((k, v))[b].0 by {
            if b < s.len() {
                assert(s.push((k, v))[a] == s[a]);
                assert(s.push((k, v))[b] == s[b]);
            } else {
                assert(s.push((k, v))[a] == s[a]);
            }
        }
    } else {
        let r = s.update(i, (k, v));
        assert forall|a: int, b: int| 0 <= a < b < r.len() implies #[trigger] r[a].0 != #[trigger] r[b].0 by {
            assert(r[a].0 == s[a].0);
            assert(r[b].0 == s[b].0);
        }
    }
}

} // verus!
