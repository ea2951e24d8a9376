//! Registries keyed by strings (tokens by symbol, accounts by address,
//! balances by address or symbol) are stored as sequences of entries with
//! pairwise-distinct keys. This module gives the lookup function over such a
//! sequence and the lemmas that relate it to updates.

use vstd::prelude::*;

verus! {

/// A value stored under a string key.
pub trait Keyed {
    /// The key the value is registered under.
    spec fn key(&self) -> Seq<char>;
}

/// The entry of `s` whose key is `k`, if any. Later entries shadow earlier
/// ones; under `unique_keys` there is at most one.
pub open spec fn lookup<T: Keyed>(s: Seq<T>, k: Seq<char>) -> Option<T>
    decreases s.len(),
{
    if s.len() == 0 {
        None
    } else if s.last().key() == k {
        Some(s.last())
    } else {
        lookup(s.drop_last(), k)
    }
}

/// No two entries of `s` share a key.
pub open spec fn unique_keys<T: Keyed>(s: Seq<T>) -> bool {
    forall|i: int, j: int| 0 <= i < j < s.len() ==> s[i].key() != s[j].key()
}

/// A key held by no entry looks up to nothing.
pub proof fn lemma_lookup_absent<T: Keyed>(s: Seq<T>, k: Seq<char>)
    requires
        forall|i: int| 0 <= i < s.len() ==> s[i].key() != k,
    ensures
        lookup(s, k) is None,
    decreases s.len(),
{
    if s.len() > 0 {
        lemma_lookup_absent(s.drop_last(), k);
    }
}

/// Under unique keys, every entry is found under its own key.
pub proof fn lemma_lookup_at<T: Keyed>(s: Seq<T>, i: int)
    requires
        unique_keys(s),
        0 <= i < s.len(),
    ensures
        lookup(s, s[i].key()) == Some(s[i]),
    decreases s.len(),
{
    if i == s.len() - 1 {
        assert(s.last() == s[i]);
    } else {
        assert(s.last().key() != s[i].key());
        assert(s.drop_last()[i] == s[i]);
        lemma_lookup_at(s.drop_last(), i);
    }
}

/// Replacing the entry at `i` by one with the same key changes exactly that
/// key's lookup and keeps the keys unique.
pub proof fn lemma_lookup_update<T: Keyed>(s: Seq<T>, i: int, e: T)
    requires
        unique_keys(s),
        0 <= i < s.len(),
        e.key() == s[i].key(),
    ensures
        unique_keys(s.update(i, e)),
        lookup(s.update(i, e), e.key()) == Some(e),
        forall|k: Seq<char>| k != e.key() ==> lookup(s.update(i, e), k) == lookup(s, k),
    decreases s.len(),
{
    let su = s.update(i, e);
    assert forall|p: int, q: int| 0 <= p < q < su.len() implies su[p].key() != su[q].key() by {
        assert(s[p].key() != s[q].key());
    }
    if i == s.len() - 1 {
        assert(su.last() == e);
        assert(su.drop_last() =~= s.drop_last());
        assert forall|k: Seq<char>| k != e.key() implies lookup(su, k) == lookup(s, k) by {
            assert(lookup(su, k) == lookup(s.drop_last(), k));
            assert(s.last().key() == e.key());
            assert(lookup(s, k) == lookup(s.drop_last(), k));
        }
    } else {
        assert(su.last() == s.last());
        assert(su.drop_last() =~= s.drop_last().update(i, e));
        assert(unique_keys(s.drop_last()));
        assert(s.drop_last()[i] == s[i]);
        lemma_lookup_update(s.drop_last(), i, e);
        assert(s.last().key() != e.key());
        assert(lookup(su, e.key()) == lookup(s.drop_last().update(i, e), e.key()));
        assert forall|k: Seq<char>| k != e.key() implies lookup(su, k) == lookup(s, k) by {
            if su.last().key() == k {
                assert(lookup(su, k) == Some(s.last()));
                assert(lookup(s, k) == Some(s.last()));
            } else {
                assert(lookup(su, k) == lookup(s.drop_last().update(i, e), k));
                assert(lookup(s.drop_last().update(i, e), k) == lookup(s.drop_last(), k));
                assert(lookup(s, k) == lookup(s.drop_last(), k));
            }
        }
    }
}

/// Appending an entry under a fresh key adds exactly that key's lookup and
/// keeps the keys unique.
pub proof fn lemma_lookup_push<T: Keyed>(s: Seq<T>, e: T)
    requires
        unique_keys(s),
        lookup(s, e.key()) is None,
    ensures
        unique_keys(s.push(e)),
        lookup(s.push(e), e.key()) == Some(e),
        forall|k: Seq<char>| k != e.key() ==> lookup(s.push(e), k) == lookup(s, k),
{
    let sp = s.push(e);
    assert(sp.last() == e);
    assert(sp.drop_last() =~= s);
    assert forall|j: int| 0 <= j < s.len() implies s[j].key() != e.key() by {
        if s[j].key() == e.key() {
            lemma_lookup_at(s, j);
        }
    }
    assert forall|p: int, q: int| 0 <= p < q < sp.len() implies sp[p].key() != sp[q].key() by {
        if q < s.len() {
            assert(s[p].key() != s[q].key());
        }
    }
}

} // verus!
