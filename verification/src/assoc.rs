//! Association lists: the mathematical model of the maps of the library.
//!
//! A map from names to values is modelled as the sequence of its entries, each
//! a name and a value, in the order in which the names came in first. No name
//! occurs twice in such a sequence.

use vstd::prelude::*;

verus! {

/// Whether no two entries have the same name.
pub open spec fn distinct_keys<T>(s: Seq<(Seq<char>, T)>) -> bool {
    forall|i: int, j: int| 0 <= i < j < s.len() ==> (#[trigger] s[i]).0 != (#[trigger] s[j]).0
}

/// Whether an entry stands under `key`.
pub open spec fn has_key<T>(s: Seq<(Seq<char>, T)>, key: Seq<char>) -> bool {
    exists|i: int| 0 <= i < s.len() && (#[trigger] s[i]).0 == key
}

/// The place of the entry under `key`.
pub open spec fn slot<T>(s: Seq<(Seq<char>, T)>, key: Seq<char>) -> int {
    choose|i: int| 0 <= i < s.len() && (#[trigger] s[i]).0 == key
}

/// The value under `key`, if there is one.
pub open spec fn lookup<T>(s: Seq<(Seq<char>, T)>, key: Seq<char>) -> Option<T> {
    if has_key(s, key) {
        Some(s[slot(s, key)].1)
    } else {
        None
    }
}

/// The entries after `value` has been put under `key`: in the place of the
/// entry that stood under `key` before, or else at the end.
pub open spec fn put<T>(s: Seq<(Seq<char>, T)>, key: Seq<char>, value: T) -> Seq<(Seq<char>, T)> {
    if has_key(s, key) {
        s.update(slot(s, key), (key, value))
    } else {
        s.push((key, value))
    }
}

/// Where names are distinct, the place of a name is the one place that holds
/// it.
pub proof fn lemma_slot_is<T>(s: Seq<(Seq<char>, T)>, key: Seq<char>, i: int)
    requires
        distinct_keys(s),
        0 <= i < s.len(),
        s[i].0 == key,
    ensures
        has_key(s, key),
        slot(s, key) == i,
        lookup(s, key) == Some(s[i].1),
{
    let j = slot(s, key);
    assert(0 <= j < s.len() && s[j].0 == key);
    if j != i {
        if j < i {
            assert(s[j].0 != s[i].0);
        } else {
            assert(s[i].0 != s[j].0);
        }
    }
}

/// A name that no entry carries has no value.
pub proof fn lemma_absent<T>(s: Seq<(Seq<char>, T)>, key: Seq<char>)
    requires
        forall|i: int| 0 <= i < s.len() ==> (#[trigger] s[i]).0 != key,
    ensures
        !has_key(s, key),
        lookup(s, key) is None,
{
}

/// Putting a value keeps the names distinct.
pub proof fn lemma_put_distinct<T>(s: Seq<(Seq<char>, T)>, key: Seq<char>, value: T)
    requires
        distinct_keys(s),
    ensures
        distinct_keys(put(s, key, value)),
{
    let r = put(s, key, value);
    if has_key(s, key) {
        let k = slot(s, key);
        assert(0 <= k < s.len() && s[k].0 == key);
        assert forall|i: int, j: int| 0 <= i < j < r.len() implies (#[trigger] r[i]).0 != (
        #[trigger] r[j]).0 by {
            assert(r[i].0 == s[i].0);
            assert(r[j].0 == s[j].0);
        }
    } else {
        assert forall|i: int, j: int| 0 <= i < j < r.len() implies (#[trigger] r[i]).0 != (
        #[trigger] r[j]).0 by {
            if j < s.len() {
                assert(r[i] == s[i] && r[j] == s[j]);
            } else {
                assert(r[i] == s[i]);
                assert(s[i].0 != key);
            }
        }
    }
}

/// What was put under a name is what is found under it.
pub proof fn lemma_put_then_lookup<T>(s: Seq<(Seq<char>, T)>, key: Seq<char>, value: T)
    requires
        distinct_keys(s),
    ensures
        has_key(put(s, key, value), key),
        lookup(put(s, key, value), key) == Some(value),
{
    let r = put(s, key, value);
    lemma_put_distinct(s, key, value);
    if has_key(s, key) {
        let k = slot(s, key);
        assert(0 <= k < s.len() && s[k].0 == key);
        assert(r[k] == (key, value));
        lemma_slot_is(r, key, k);
    } else {
        assert(r[s.len() as int] == (key, value));
        lemma_slot_is(r, key, s.len() as int);
    }
}

/// Putting a value under one name leaves every other name as it was.
pub proof fn lemma_put_keeps_others<T>(
    s: Seq<(Seq<char>, T)>,
    key: Seq<char>,
    value: T,
    other: Seq<char>,
)
    requires
        distinct_keys(s),
        other != key,
    ensures
        has_key(put(s, key, value), other) == has_key(s, other),
        lookup(put(s, key, value), other) == lookup(s, other),
{
    let r = put(s, key, value);
    lemma_put_distinct(s, key, value);
    if has_key(s, other) {
        let k = slot(s, other);
        assert(0 <= k < s.len() && s[k].0 == other);
        if has_key(s, key) {
            let m = slot(s, key);
            assert(0 <= m < s.len() && s[m].0 == key);
            assert(r[k] == s[k]);
        } else {
            assert(r[k] == s[k]);
        }
        lemma_slot_is(r, other, k);
    } else {
        if has_key(r, other) {
            let k = slot(r, other);
            assert(0 <= k < r.len() && r[k].0 == other);
            if has_key(s, key) {
                let m = slot(s, key);
                assert(r[k].0 == s[k].0);
            } else {
                assert(k < s.len());
                assert(r[k] == s[k]);
            }
            assert(false);
        }
    }
}

/// Putting a value under a name that is taken replaces the entry: there are as
/// many entries as before, the name stays where it was, and the new value is
/// found under it.
pub proof fn lemma_put_overwrites<T>(s: Seq<(Seq<char>, T)>, key: Seq<char>, value: T)
    requires
        distinct_keys(s),
        has_key(s, key),
    ensures
        put(s, key, value).len() == s.len(),
        slot(put(s, key, value), key) == slot(s, key),
        lookup(put(s, key, value), key) == Some(value),
{
    let r = put(s, key, value);
    let k = slot(s, key);
    assert(0 <= k < s.len() && s[k].0 == key);
    lemma_put_distinct(s, key, value);
    assert(r[k] == (key, value));
    lemma_slot_is(r, key, k);
}

/// Putting a second value under the same name leaves only the second.
pub proof fn lemma_put_twice<T>(s: Seq<(Seq<char>, T)>, key: Seq<char>, first: T, second: T)
    requires
        distinct_keys(s),
    ensures
        put(put(s, key, first), key, second) == put(s, key, second),
{
    let once = put(s, key, first);
    lemma_put_distinct(s, key, first);
    lemma_put_then_lookup(s, key, first);
    if has_key(s, key) {
        let k = slot(s, key);
        assert(0 <= k < s.len() && s[k].0 == key);
        assert(once[k] == (key, first));
        lemma_slot_is(once, key, k);
        assert(put(once, key, second) =~= put(s, key, second));
    } else {
        assert(once[s.len() as int] == (key, first));
        lemma_slot_is(once, key, s.len() as int);
        assert(put(once, key, second) =~= put(s, key, second));
    }
}

} // verus!
