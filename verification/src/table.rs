//! A table from byte strings to byte strings, last write wins.
use crate::text::bytes_eq;
use vstd::prelude::*;

verus! {

/// One write: a key and the value stored under it.
pub struct Slot {
    pub key: Vec<u8>,
    pub value: Vec<u8>,
}

/// A table from keys to values. Its view is the map that the writes made so
/// far add up to; a later write to a key replaces an earlier one.
pub struct Table {
    slots: Vec<Slot>,
}

/// The map that the writes `slots` add up to, the last one applied last.
pub open spec fn model(slots: Seq<Slot>) -> Map<Seq<u8>, Seq<u8>>
    decreases slots.len(),
{
    if slots.len() == 0 {
        Map::empty()
    } else {
        model(slots.drop_last()).insert(slots.last().key@, slots.last().value@)
    }
}

proof fn lemma_model_found(slots: Seq<Slot>, key: Seq<u8>, i: int)
    requires
        0 <= i < slots.len(),
        slots[i].key@ == key,
        forall|j: int| i < j < slots.len() ==> slots[j].key@ != key,
    ensures
        model(slots).contains_key(key),
        model(slots)[key] == slots[i].value@,
    decreases slots.len(),
{
    if i < slots.len() - 1 {
        lemma_model_found(slots.drop_last(), key, i);
    }
}

proof fn lemma_model_absent(slots: Seq<Slot>, key: Seq<u8>)
    requires
        forall|j: int| 0 <= j < slots.len() ==> slots[j].key@ != key,
    ensures
        !model(slots).contains_key(key),
    decreases slots.len(),
{
    if slots.len() > 0 {
        lemma_model_absent(slots.drop_last(), key);
    }
}

/// A prefix of a prefix is a prefix.
pub proof fn lemma_prefix_of_prefix(a: Seq<Slot>, b: Seq<Slot>, c: Seq<Slot>)
    requires
        a.is_prefix_of(b),
        b.is_prefix_of(c),
    ensures
        a.is_prefix_of(c),
{
    assert(a =~= c.subrange(0, a.len() as int)) by {
        assert forall|i: int| 0 <= i < a.len() implies a[i] == c[i] by {
            assert(a[i] == b.subrange(0, a.len() as int)[i]);
            assert(b[i] == c.subrange(0, b.len() as int)[i]);
        }
    }
}

impl View for Table {
    type V = Map<Seq<u8>, Seq<u8>>;

    closed spec fn view(&self) -> Map<Seq<u8>, Seq<u8>> {
        model(self.slots@)
    }
}

impl Table {
    /// The writes kept, oldest first.
    pub closed spec fn slots(&self) -> Seq<Slot> {
        self.slots@
    }

    /// A table without entries.
    pub fn new() -> (r: Table)
        ensures
            r@ == Map::<Seq<u8>, Seq<u8>>::empty(),
            r.slots().len() == 0,
    {
        Table { slots: Vec::new() }
    }

    /// The value under `key`, if there is one.
    pub fn lookup(&self, key: &[u8]) -> (r: Option<&Vec<u8>>)
        ensures
            match r {
                Some(v) => self@.contains_key(key@) && self@[key@] == v@,
                None => !self@.contains_key(key@),
            },
    {
        let mut i: usize = self.slots.len();
        while i > 0
            invariant
                i <= self.slots@.len(),
                forall|j: int| i <= j < self.slots@.len() ==> self.slots@[j].key@ != key@,
            decreases i,
        {
            i -= 1;
            if bytes_eq(self.slots[i].key.as_slice(), key) {
                proof {
                    lemma_model_found(self.slots@, key@, i as int);
                }
                return Some(&self.slots[i].value);
            }
        }
        proof {
            lemma_model_absent(self.slots@, key@);
        }
        None
    }

    /// Whether there is a value under `key`.
    pub fn contains(&self, key: &[u8]) -> (r: bool)
        ensures
            r == self@.contains_key(key@),
    {
        self.lookup(key).is_some()
    }

    /// Stores `value` under `key`, in place of what was there. A write that
    /// would change nothing is not kept.
    pub fn insert(&mut self, key: Vec<u8>, value: Vec<u8>)
        ensures
            final(self)@ == old(self)@.insert(key@, value@),
            final(self).slots() == if old(self)@.contains_key(key@) && old(self)@[key@] == value@ {
                old(self).slots()
            } else {
                old(self).slots().push((Slot { key, value }))
            },
            old(self).slots().is_prefix_of(final(self).slots()),
    {
        let same = match self.lookup(key.as_slice()) {
            Some(v) => bytes_eq(v.as_slice(), value.as_slice()),
            None => false,
        };
        if same {
            assert(self@ =~= self@.insert(key@, value@));
        } else {
            let ghost before = self.slots@;
            let slot = Slot { key, value };
            self.slots.push(slot);
            assert(self.slots@.drop_last() =~= before);
        }
    }

    /// The number of writes kept.
    pub fn len(&self) -> (r: usize)
        ensures
            r == self.slots().len(),
    {
        self.slots.len()
    }

    /// The `i`-th write kept, oldest first.
    pub fn slot(&self, i: usize) -> (r: &Slot)
        requires
            i < self.slots().len(),
        ensures
            *r == self.slots()[i as int],
    {
        &self.slots[i]
    }
}

} // verus!
