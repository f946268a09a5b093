//! A tree of YAML values: null, scalars, sequences and mappings with string keys.

use vstd::prelude::*;

verus! {

/// A floating-point scalar, held as the IEEE-754 bits of a 64-bit float.
#[derive(Clone, Copy, Debug, PartialEq, Eq)]
pub struct Float {
    pub bits: u64,
}

impl Float {
    /// Wraps the bits of a 64-bit float.
    pub fn from_bits(bits: u64) -> (r: Float)
        ensures
            r.bits == bits,
    {
        Float { bits }
    }

    /// The bits of the 64-bit float.
    pub fn to_bits(&self) -> (r: u64)
        ensures
            r == self.bits,
    {
        self.bits
    }
}

/// A node of a YAML document.
#[derive(Debug, PartialEq)]
pub enum Value {
    Null,
    Bool(bool),
    /// A signed integer.
    Integer(i64),
    /// An unsigned integer.
    Unsigned(u64),
    Float(Float),
    String(String),
    Sequence(Vec<Value>),
    Mapping(Mapping),
}

/// An ordered list of values.
pub type Sequence = Vec<Value>;

/// A map from string keys to values, in order of insertion.
#[derive(Debug, PartialEq)]
pub struct Mapping {
    entries: Vec<(String, Value)>,
}

/// The value stored under `key` in a list of entries: the first entry with that key.
pub open spec fn lookup(entries: Seq<(Seq<char>, Value)>, key: Seq<char>) -> Option<Value>
    decreases entries.len(),
{
    if entries.len() == 0 {
        None
    } else if entries[0].0 == key {
        Some(entries[0].1)
    } else {
        lookup(entries.drop_first(), key)
    }
}

/// The keys of a list of entries are pairwise distinct.
pub open spec fn keys_unique(entries: Seq<(Seq<char>, Value)>) -> bool {
    forall|i: int, j: int|
        0 <= i < j < entries.len() ==> #[trigger] entries[i].0 != #[trigger] entries[j].0
}

/// A borrowed optional value, seen as the value itself.
pub open spec fn deref_opt<T>(r: Option<&T>) -> Option<T> {
    match r {
        Some(v) => Some(*v),
        None => None,
    }
}

proof fn lemma_lookup_tail(entries: Seq<(Seq<char>, Value)>, key: Seq<char>, i: int)
    requires
        0 <= i < entries.len(),
        entries[i].0 != key,
    ensures
        lookup(entries.subrange(i, entries.len() as int), key) == lookup(
            entries.subrange(i + 1, entries.len() as int),
            key,
        ),
{
    assert(entries.subrange(i, entries.len() as int).drop_first() =~= entries.subrange(
        i + 1,
        entries.len() as int,
    ));
}

proof fn lemma_lookup_push(entries: Seq<(Seq<char>, Value)>, e: (Seq<char>, Value), key: Seq<char>)
    ensures
        lookup(entries.push(e), key) == (if lookup(entries, key) is Some {
            lookup(entries, key)
        } else if e.0 == key {
            Some(e.1)
        } else {
            None
        }),
    decreases entries.len(),
{
    if entries.len() > 0 {
        assert(entries.push(e).drop_first() =~= entries.drop_first().push(e));
        assert(entries.push(e)[0] == entries[0]);
        lemma_lookup_push(entries.drop_first(), e, key);
    } else {
        let empty = Seq::<(Seq<char>, Value)>::empty();
        assert(entries.push(e).drop_first() =~= empty);
        assert(lookup(empty, key) is None);
        assert(lookup(entries, key) is None);
    }
}

proof fn lemma_lookup_update(
    entries: Seq<(Seq<char>, Value)>,
    i: int,
    v: Value,
    key: Seq<char>,
)
    requires
        0 <= i < entries.len(),
        forall|j: int| 0 <= j < i ==> #[trigger] entries[j].0 != entries[i].0,
    ensures
        lookup(entries.update(i, (entries[i].0, v)), key) == (if key == entries[i].0 {
            Some(v)
        } else {
            lookup(entries, key)
        }),
    decreases entries.len(),
{
    let u = entries.update(i, (entries[i].0, v));
    if i == 0 {
        assert(u.drop_first() =~= entries.drop_first());
    } else {
        let t = entries.drop_first();
        assert(t[i - 1] == entries[i]);
        assert(entries.update(i, (entries[i].0, v)).drop_first() =~= t.update(
            i - 1,
            (t[i - 1].0, v),
        ));
        assert forall|j: int| 0 <= j < i - 1 implies #[trigger] t[j].0 != t[i - 1].0 by {
            assert(entries[j + 1].0 != entries[i].0);
        }
        lemma_lookup_update(t, i - 1, v, key);
        assert(entries[0].0 != entries[i].0);
    }
}

impl View for Mapping {
    type V = Seq<(Seq<char>, Value)>;

    closed spec fn view(&self) -> Seq<(Seq<char>, Value)> {
        self.entries@.map_values(|e: (String, Value)| (e.0@, e.1))
    }
}

impl Mapping {
    /// The keys are pairwise distinct.
    pub open spec fn wf(&self) -> bool {
        keys_unique(self@)
    }

    /// The value stored under `key`.
    pub open spec fn spec_get(&self, key: Seq<char>) -> Option<Value> {
        lookup(self@, key)
    }

    /// An empty mapping.
    pub fn new() -> (r: Mapping)
        ensures
            r@ == Seq::<(Seq<char>, Value)>::empty(),
            r.wf(),
    {
        let r = Mapping { entries: Vec::new() };
        assert(r@ =~= Seq::<(Seq<char>, Value)>::empty());
        r
    }

    /// The number of entries.
    pub fn len(&self) -> (r: usize)
        ensures
            r == self@.len(),
    {
        self.entries.len()
    }

    /// Looks up the value stored under `key`.
    pub fn get(&self, key: &str) -> (r: Option<&Value>)
        ensures
            deref_opt(r) == self.spec_get(key@),
    {
        let k = key.to_owned();
        let n = self.entries.len();
        let mut i: usize = 0;
        assert(self@.subrange(0, n as int) =~= self@);
        while i < n
            invariant
                n == self.entries@.len(),
                n == self@.len(),
                i <= n,
                k@ == key@,
                lookup(self@, key@) == lookup(self@.subrange(i as int, n as int), key@),
            decreases n - i,
        {
            assert(self@[i as int] == (self.entries@[i as int].0@, self.entries@[i as int].1));
            if self.entries[i].0 == k {
                assert(self@.subrange(i as int, n as int)[0] == self@[i as int]);
                return Some(&self.entries[i].1);
            }
            proof {
                lemma_lookup_tail(self@, key@, i as int);
            }
            i = i + 1;
        }
        None
    }

    /// Stores `value` under `key`: an entry with that key keeps its place and takes the new
    /// value, otherwise the entry is appended.
    pub fn insert(&mut self, key: String, value: Value)
        requires
            old(self).wf(),
        ensures
            final(self).wf(),
            final(self).spec_get(key@) == Some(value),
            forall|k: Seq<char>| k != key@ ==> #[trigger] final(self).spec_get(k) == old(self).spec_get(k),
            forall|i: int|
                0 <= i < old(self)@.len() && (#[trigger] old(self)@[i]).0 == key@ ==> final(self)@
                    == old(self)@.update(i, (key@, value)),
            (forall|i: int| 0 <= i < old(self)@.len() ==> (#[trigger] old(self)@[i]).0 != key@)
                ==> final(self)@ == old(self)@.push((key@, value)),
    {
        let n = self.entries.len();
        let mut i: usize = 0;
        while i < n
            invariant
                n == self.entries@.len(),
                n == self@.len(),
                *self == *old(self),
                old(self).wf(),
                i <= n,
                forall|j: int| 0 <= j < i ==> (#[trigger] self@[j]).0 != key@,
            decreases n - i,
        {
            assert(self@[i as int] == (self.entries@[i as int].0@, self.entries@[i as int].1));
            if self.entries[i].0 == key {
                let ghost before = self@;
                self.entries.set(i, (key, value));
                proof {
                    assert(self@ =~= before.update(i as int, (before[i as int].0, value)));
                    assert forall|k: Seq<char>| true implies #[trigger] lookup(self@, k) == (if k
                        == key@ {
                        Some(value)
                    } else {
                        lookup(before, k)
                    }) by {
                        lemma_lookup_update(before, i as int, value, k);
                    }
                    assert forall|a: int, b: int| 0 <= a < b < self@.len() implies #[trigger] self@[a].0
                        != #[trigger] self@[b].0 by {
                        assert(before[a].0 != before[b].0);
                    }
                    assert forall|j: int|
                        0 <= j < before.len() && (#[trigger] before[j]).0 == key@ implies self@
                        == before.update(j, (key@, value)) by {
                        if j != i {
                            if j < i {
                                assert(before[j].0 != before[i as int].0);
                            } else {
                                assert(before[i as int].0 != before[j].0);
                            }
                        }
                    }
                }
                return ;
            }
            i = i + 1;
        }
        let ghost before = self@;
        self.entries.push((key, value));
        proof {
            assert(self@ =~= before.push((key@, value)));
            assert forall|k: Seq<char>| true implies lookup(self@, k) == (if lookup(before, k) is Some {
                lookup(before, k)
            } else if key@ == k {
                Some(value)
            } else {
                None
            }) by {
                lemma_lookup_push(before, (key@, value), k);
            }
            assert(lookup(before, key@) is None) by {
                lemma_lookup_absent(before, key@);
            }
            assert forall|k: Seq<char>| k != key@ implies #[trigger] lookup(self@, k) == lookup(before, k) by {
                lemma_lookup_push(before, (key@, value), k);
            }
        }
    }
}

proof fn lemma_lookup_absent(entries: Seq<(Seq<char>, Value)>, key: Seq<char>)
    requires
        forall|j: int| 0 <= j < entries.len() ==> (#[trigger] entries[j]).0 != key,
    ensures
        lookup(entries, key) is None,
    decreases entries.len(),
{
    if entries.len() > 0 {
        assert forall|j: int| 0 <= j < entries.drop_first().len() implies (#[trigger] entries.drop_first()[j]).0
            != key by {
            assert(entries[j + 1].0 != key);
        }
        lemma_lookup_absent(entries.drop_first(), key);
    }
}

} // verus!
