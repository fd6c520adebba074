//! A map from texts to values, kept in the code point order of its keys.

use vstd::prelude::*;
use crate::text::{lemma_text_lt_irreflexive, lemma_text_lt_total, lemma_text_lt_transitive};
use crate::text::{precedes, same, text_lt};
use crate::views::views;

verus! {

broadcast use crate::views::group_views;

/// The value under `key`, if the entries hold one.
pub open spec fn lookup<T>(m: Seq<(Seq<char>, T)>, key: Seq<char>) -> Option<T>
    decreases m.len(),
{
    if m.len() == 0 {
        None
    } else if m[0].0 == key {
        Some(m[0].1)
    } else {
        lookup(m.skip(1), key)
    }
}

/// Keys in strictly increasing order: no key occurs twice.
pub open spec fn sorted_keys<T>(m: Seq<(Seq<char>, T)>) -> bool {
    forall|i: int, j: int| 0 <= i < j < m.len() ==> text_lt(#[trigger] m[i].0, #[trigger] m[j].0)
}

/// The entries after `value` was stored under `key`.
pub open spec fn stored<T>(m: Seq<(Seq<char>, T)>, key: Seq<char>, value: T) -> Seq<(Seq<char>, T)>
    decreases m.len(),
{
    if m.len() == 0 {
        seq![(key, value)]
    } else if m[0].0 == key {
        m.update(0, (key, value))
    } else if text_lt(key, m[0].0) {
        seq![(key, value)] + m
    } else {
        seq![m[0]] + stored(m.skip(1), key, value)
    }
}

/// What was stored under a key is found under it, and every other key keeps
/// its value.
pub proof fn law_stored_lookup<T>(m: Seq<(Seq<char>, T)>, key: Seq<char>, value: T, other: Seq<char>)
    ensures
        lookup(stored(m, key, value), key) == Some(value),
        other != key ==> lookup(stored(m, key, value), other) == lookup(m, other),
    decreases m.len(),
{
    let s = stored(m, key, value);
    if m.len() == 0 {
        assert(s.skip(1) =~= m);
    } else if m[0].0 == key {
        assert(s.skip(1) =~= m.skip(1));
    } else if text_lt(key, m[0].0) {
        assert(s.skip(1) =~= m);
    } else {
        law_stored_lookup(m.skip(1), key, value, other);
        assert(s.skip(1) =~= stored(m.skip(1), key, value));
    }
}

/// Storing keeps the keys in order.
pub proof fn law_stored_sorted<T>(m: Seq<(Seq<char>, T)>, key: Seq<char>, value: T)
    requires
        sorted_keys(m),
    ensures
        sorted_keys(stored(m, key, value)),
        forall|i: int|
            0 <= i < stored(m, key, value).len() ==> (#[trigger] stored(m, key, value)[i]).0 == key
                || exists|j: int| 0 <= j < m.len() && m[j] == stored(m, key, value)[i],
    decreases m.len(),
{
    let s = stored(m, key, value);
    if m.len() == 0 {
    } else if m[0].0 == key {
    } else if text_lt(key, m[0].0) {
        assert forall|i: int, j: int| 0 <= i < j < s.len() implies text_lt(
            #[trigger] s[i].0,
            #[trigger] s[j].0,
        ) by {
            if i == 0 && j > 1 {
                lemma_text_lt_transitive(key, m[0].0, m[j - 1].0);
            }
        }
        assert forall|i: int| 0 <= i < s.len() implies (#[trigger] s[i]).0 == key || exists|j: int|
            0 <= j < m.len() && m[j] == s[i] by {
            if i > 0 {
                assert(m[i - 1] == s[i]);
            }
        }
    } else {
        let rest = stored(m.skip(1), key, value);
        law_stored_sorted(m.skip(1), key, value);
        lemma_text_lt_total(key, m[0].0);
        assert forall|i: int, j: int| 0 <= i < j < s.len() implies text_lt(
            #[trigger] s[i].0,
            #[trigger] s[j].0,
        ) by {
            assert(s[j] == rest[j - 1]);
            if i == 0 {
                if rest[j - 1].0 != key {
                    let k = choose|k: int| 0 <= k < m.skip(1).len() && m.skip(1)[k] == rest[j - 1];
                    assert(m[k + 1] == rest[j - 1]);
                }
            } else {
                assert(s[i] == rest[i - 1]);
            }
        }
        assert forall|i: int| 0 <= i < s.len() implies (#[trigger] s[i]).0 == key || exists|j: int|
            0 <= j < m.len() && m[j] == s[i] by {
            if i > 0 {
                assert(s[i] == rest[i - 1]);
                if rest[i - 1].0 != key {
                    let k = choose|k: int| 0 <= k < m.skip(1).len() && m.skip(1)[k] == rest[i - 1];
                    assert(m[k + 1] == s[i]);
                }
            } else {
                assert(m[0] == s[i]);
            }
        }
    }
}

/// A map from texts to values. Iteration over `entries` goes through the keys
/// in code point order.
#[derive(Debug)]
pub struct TextMap<T> {
    pub entries: Vec<(String, T)>,
}

impl<T: View> View for TextMap<T> {
    type V = Seq<(Seq<char>, T::V)>;

    open spec fn view(&self) -> Seq<(Seq<char>, T::V)> {
        views(self.entries@)
    }
}

impl<T: View> TextMap<T> {
    /// The entries are in key order.
    pub open spec fn ordered(&self) -> bool {
        sorted_keys(self@)
    }

    /// A map without entries.
    pub fn new() -> (r: Self)
        ensures
            r@ == Seq::<(Seq<char>, T::V)>::empty(),
            r.ordered(),
    {
        TextMap { entries: Vec::new() }
    }

    /// The value under `key`.
    pub fn get(&self, key: &str) -> (r: Option<&T>)
        ensures
            match r {
                Some(v) => lookup(self@, key@) == Some(v@),
                None => lookup(self@, key@) is None,
            },
            r is Some ==> exists|i: int| 0 <= i < self.entries@.len() && self.entries@[i].1 == *r->0
                && self.entries@[i].0@ == key@,
    {
        let mut i: usize = 0;
        assert(self@.skip(0) =~= self@);
        while i < self.entries.len()
            invariant
                i <= self.entries.len(),
                lookup(self@.skip(i as int), key@) == lookup(self@, key@),
            decreases self.entries.len() - i,
        {
            let entry: &(String, T) = &self.entries[i];
            assert(self@.skip(i as int)[0] == entry@);
            if same(entry.0.as_str(), key) {
                return Some(&entry.1);
            }
            assert(self@.skip(i as int).skip(1) =~= self@.skip(i + 1));
            i += 1;
        }
        None
    }

    /// Whether a value stands under `key`.
    pub fn contains_key(&self, key: &str) -> (r: bool)
        ensures
            r == (lookup(self@, key@) is Some),
    {
        self.get(key).is_some()
    }

    /// Store `value` under `key`, in place of the value that stood there.
    pub fn insert(&mut self, key: String, value: T)
        requires
            old(self).ordered(),
        ensures
            final(self)@ == stored(old(self)@, key@, value@),
            final(self).ordered(),
    {
        let ghost before = self@;
        let mut i: usize = 0;
        assert(before.skip(0) =~= before);
        assert(before.take(0) + stored(before, key@, value@) =~= stored(before, key@, value@));
        while i < self.entries.len() && precedes(self.entries[i].0.as_str(), key.as_str())
            invariant
                i <= self.entries.len(),
                self@ == before,
                before.take(i as int) + stored(before.skip(i as int), key@, value@) == stored(
                    before,
                    key@,
                    value@,
                ),
            decreases self.entries.len() - i,
        {
            proof {
                let rest = before.skip(i as int);
                assert(rest[0].0 == self.entries@[i as int].0@);
                lemma_text_lt_irreflexive(key@);
                if text_lt(key@, rest[0].0) {
                    lemma_text_lt_transitive(key@, rest[0].0, key@);
                }
                assert(rest.skip(1) =~= before.skip(i + 1));
                assert(before.take(i as int) + (seq![rest[0]] + stored(
                    before.skip(i + 1),
                    key@,
                    value@,
                )) =~= before.take(i + 1) + stored(before.skip(i + 1), key@, value@));
            }
            i += 1;
        }
        proof {
            law_stored_sorted(before, key@, value@);
        }
        let ghost rest = before.skip(i as int);
        if i < self.entries.len() && same(self.entries[i].0.as_str(), key.as_str()) {
            assert(rest[0].0 == self.entries@[i as int].0@);
            assert(before.take(i as int) + rest.update(0, (key@, value@)) =~= before.update(
                i as int,
                (key@, value@),
            ));
            self.entries.set(i, (key, value));
        } else {
            proof {
                if i < self.entries@.len() {
                    assert(rest[0].0 == self.entries@[i as int].0@);
                    lemma_text_lt_total(rest[0].0, key@);
                    assert(before.take(i as int) + (seq![(key@, value@)] + rest) =~= before.insert(
                        i as int,
                        (key@, value@),
                    ));
                } else {
                    assert(before.take(i as int) + seq![(key@, value@)] =~= before.insert(
                        i as int,
                        (key@, value@),
                    ));
                }
            }
            self.entries.insert(i, (key, value));
        }
    }
}

} // verus!
