//! A flat string-to-string map with insertion-order iteration.
//!
//! Headers, query parameters and URL path parameters are carried in this
//! type. Lookup is by first matching key; `insert` replaces the value of an
//! existing key in place, so maps built through `insert` hold each key once.

use vstd::prelude::*;
use vstd::string::*;

verus! {

/// An ordered map from strings to strings.
#[derive(Debug)]
pub struct StringMap {
    pairs: Vec<(String, String)>,
}

/// Value of the first entry carrying the given key, if any.
pub open spec fn sm_get(entries: Seq<(Seq<char>, Seq<char>)>, key: Seq<char>) -> Option<Seq<char>>
    decreases entries.len(),
{
    if entries.len() == 0 {
        None
    } else if entries[0].0 == key {
        Some(entries[0].1)
    } else {
        sm_get(entries.drop_first(), key)
    }
}

/// `sm_get` is pinned down by the position of the first matching key.
pub proof fn lemma_sm_get_at(entries: Seq<(Seq<char>, Seq<char>)>, key: Seq<char>, i: int)
    requires
        0 <= i <= entries.len(),
        forall|j: int| 0 <= j < i ==> (#[trigger] entries[j]).0 != key,
        i < entries.len() ==> entries[i].0 == key,
    ensures
        sm_get(entries, key) == if i < entries.len() {
            Some(entries[i].1)
        } else {
            None::<Seq<char>>
        },
    decreases entries.len(),
{
    if entries.len() > 0 && entries[0].0 != key {
        assert forall|j: int| 0 <= j < i - 1 implies (#[trigger] entries.drop_first()[j]).0
            != key by {
            assert(entries[j + 1].0 != key);
        }
        if i - 1 < entries.drop_first().len() {
            assert(entries.drop_first()[i - 1] == entries[i]);
        }
        lemma_sm_get_at(entries.drop_first(), key, i - 1);
    }
}

/// The entry list after setting a key: the first entry with that key is
/// replaced in place, or a new entry is appended.
pub open spec fn sm_set(
    entries: Seq<(Seq<char>, Seq<char>)>,
    key: Seq<char>,
    value: Seq<char>,
) -> Seq<(Seq<char>, Seq<char>)>
    decreases entries.len(),
{
    if entries.len() == 0 {
        seq![(key, value)]
    } else if entries[0].0 == key {
        seq![(key, value)] + entries.drop_first()
    } else {
        seq![entries[0]] + sm_set(entries.drop_first(), key, value)
    }
}

impl View for StringMap {
    type V = Seq<(Seq<char>, Seq<char>)>;

    closed spec fn view(&self) -> Seq<(Seq<char>, Seq<char>)> {
        Seq::new(
            self.pairs@.len(),
            |i: int|
                if 0 <= i < self.pairs@.len() {
                    (self.pairs@[i].0@, self.pairs@[i].1@)
                } else {
                    (Seq::empty(), Seq::empty())
                },
        )
    }
}

impl StringMap {
    /// Create an empty map.
    pub fn new() -> (r: StringMap)
        ensures
            r@ == Seq::<(Seq<char>, Seq<char>)>::empty(),
    {
        let r = StringMap { pairs: Vec::new() };
        proof {
            assert(r@ =~= Seq::<(Seq<char>, Seq<char>)>::empty());
        }
        r
    }

    /// Number of entries.
    pub fn len(&self) -> (r: usize)
        ensures
            r == self@.len(),
    {
        self.pairs.len()
    }

    /// Whether the map has no entries.
    pub fn is_empty(&self) -> (r: bool)
        ensures
            r == (self@.len() == 0),
    {
        self.pairs.len() == 0
    }

    /// Key of the entry at the given position.
    pub fn key_at(&self, i: usize) -> (r: &String)
        requires
            i < self@.len(),
        ensures
            r@ == self@[i as int].0,
    {
        &self.pairs[i].0
    }

    /// Value of the entry at the given position.
    pub fn value_at(&self, i: usize) -> (r: &String)
        requires
            i < self@.len(),
        ensures
            r@ == self@[i as int].1,
    {
        &self.pairs[i].1
    }

    /// Look up a key.
    pub fn get<'a>(&'a self, key: &String) -> (r: Option<&'a String>)
        ensures
            match r {
                Some(v) => sm_get(self@, key@) == Some(v@),
                None => sm_get(self@, key@) is None,
            },
    {
        let mut i: usize = 0;
        while i < self.pairs.len()
            invariant
                i <= self@.len(),
                self@.len() == self.pairs@.len(),
                forall|j: int| 0 <= j < i ==> (#[trigger] self@[j]).0 != key@,
            decreases self.pairs.len() - i,
        {
            if self.pairs[i].0 == *key {
                proof {
                    lemma_sm_get_at(self@, key@, i as int);
                }
                return Some(&self.pairs[i].1);
            }
            i = i + 1;
        }
        proof {
            lemma_sm_get_at(self@, key@, i as int);
        }
        None
    }

    /// Set a key to a value: replaces the value of an existing key in place,
    /// or appends a new entry.
    pub fn insert(&mut self, key: String, value: String)
        ensures
            final(self)@ == sm_set(old(self)@, key@, value@),
    {
        let ghost entries = self@;
        let mut i: usize = 0;
        while i < self.pairs.len()
            invariant
                i <= self.pairs@.len(),
                self@ == entries,
                entries == old(self)@,
                self@.len() == self.pairs@.len(),
                forall|j: int| 0 <= j < i ==> (#[trigger] self@[j]).0 != key@,
            decreases self.pairs.len() - i,
        {
            if self.pairs[i].0 == key {
                self.pairs.set(i, (key, value));
                proof {
                    lemma_sm_set_at(entries, key@, value@, i as int);
                    assert(self@ =~~= entries.update(i as int, (key@, value@)));
                    assert(self@ == sm_set(entries, key@, value@));
                }
                return ;
            }
            i = i + 1;
        }
        self.pairs.push((key, value));
        proof {
            lemma_sm_set_at(entries, key@, value@, entries.len() as int);
            assert(self@ =~~= entries.push((key@, value@)));
            assert(self@ == sm_set(entries, key@, value@));
        }
    }

    /// Copy the map.
    pub fn copied(&self) -> (r: StringMap)
        ensures
            r@ == self@,
    {
        let mut pairs: Vec<(String, String)> = Vec::new();
        let mut i: usize = 0;
        while i < self.pairs.len()
            invariant
                i <= self.pairs@.len(),
                pairs@.len() == i,
                forall|j: int| 0 <= j < i ==> (#[trigger] pairs@[j]).0@ == self.pairs@[j].0@
                    && pairs@[j].1@ == self.pairs@[j].1@,
            decreases self.pairs.len() - i,
        {
            let k = self.pairs[i].0.clone();
            let v = self.pairs[i].1.clone();
            pairs.push((k, v));
            i = i + 1;
        }
        let r = StringMap { pairs };
        proof {
            assert(r@ =~~= self@);
        }
        r
    }
}

impl Clone for StringMap {
    fn clone(&self) -> (r: Self)
        ensures
            r@ == self@,
    {
        self.copied()
    }
}

/// `sm_set` is pinned down by the position of the first matching key.
proof fn lemma_sm_set_at(
    entries: Seq<(Seq<char>, Seq<char>)>,
    key: Seq<char>,
    value: Seq<char>,
    i: int,
)
    requires
        0 <= i <= entries.len(),
        forall|j: int| 0 <= j < i ==> (#[trigger] entries[j]).0 != key,
        i < entries.len() ==> entries[i].0 == key,
    ensures
        sm_set(entries, key, value) == if i < entries.len() {
            entries.update(i, (key, value))
        } else {
            entries.push((key, value))
        },
    decreases entries.len(),
{
    if entries.len() == 0 {
        assert(sm_set(entries, key, value) =~= entries.push((key, value)));
    } else if entries[0].0 == key {
        assert(sm_set(entries, key, value) =~= entries.update(0, (key, value)));
    } else {
        assert forall|j: int| 0 <= j < i - 1 implies (#[trigger] entries.drop_first()[j]).0
            != key by {
            assert(entries[j + 1].0 != key);
        }
        if i - 1 < entries.drop_first().len() {
            assert(entries.drop_first()[i - 1] == entries[i]);
        }
        lemma_sm_set_at(entries.drop_first(), key, value, i - 1);
        if i < entries.len() {
            assert(sm_set(entries, key, value) =~= entries.update(i, (key, value)));
        } else {
            assert(sm_set(entries, key, value) =~= entries.push((key, value)));
        }
    }
}

} // verus!
