use vstd::prelude::*;

verus! {

/// The key stored in a slot: its upper 56 bits.
pub open spec fn slot_key(slot: u64) -> u64 {
    slot >> 8u64
}

/// The value stored in a slot: its lowest byte.
pub open spec fn slot_value(slot: u64) -> u8 {
    (slot & 0xff) as u8
}

/// A slot holding `key` (its lower 56 bits) and `value`.
pub open spec fn pack(key: u64, value: u8) -> u64 {
    (key << 8u64) | (value as u64)
}

/// One slot: key in the upper 56 bits, value in the lowest byte.
#[derive(Clone, Copy)]
struct Entry(u64);

impl Entry {
    fn key(self) -> (r: u64)
        ensures
            r == slot_key(self.0),
    {
        self.0 >> 8u64
    }

    fn value(self) -> (r: u8)
        ensures
            r == slot_value(self.0),
    {
        (self.0 & 0xff) as u8
    }

    fn new(key: u64, value: u8) -> (r: Self)
        ensures
            r.0 == pack(key, value),
    {
        Entry((key << 8u64) | value as u64)
    }
}

/// A fixed-size lossy cache from position keys to one byte, one slot per
/// `key % size`, every write replacing what the slot held. An all-zero slot
/// is empty.
pub struct TranspositionTable {
    table: Vec<Entry>,
}

impl TranspositionTable {
    /// The slots.
    pub closed spec fn spec_slots(&self) -> Seq<u64> {
        self.table@.map_values(|e: Entry| e.0)
    }

    /// What a lookup of `key` finds: the value of the key's slot when the
    /// slot is not empty and holds that key.
    pub open spec fn spec_get(&self, key: u64) -> Option<u8> {
        let slot = self.spec_slots()[(key % (self.spec_slots().len() as u64)) as int];
        if slot != 0 && slot_key(slot) == key {
            Some(slot_value(slot))
        } else {
            None
        }
    }

    /// A table of `size` empty slots.
    pub fn new(size: usize) -> (r: Self)
        requires
            size > 0,
        ensures
            r.spec_slots() == Seq::new(size as nat, |i: int| 0u64),
    {
        let mut table: Vec<Entry> = Vec::with_capacity(size);
        let mut i: usize = 0;
        while i < size
            invariant
                i <= size,
                table@.len() == i,
                forall|j: int| 0 <= j < i ==> table@[j].0 == 0,
            decreases size - i,
        {
            table.push(Entry(0));
            i = i + 1;
        }
        let r = TranspositionTable { table };
        proof {
            assert(r.spec_slots() =~= Seq::new(size as nat, |i: int| 0u64));
        }
        r
    }

    /// Number of slots.
    pub fn size(&self) -> (r: usize)
        ensures
            r == self.spec_slots().len(),
    {
        self.table.len()
    }

    fn index(&self, key: u64) -> (r: usize)
        requires
            self.spec_slots().len() > 0,
        ensures
            r == key % (self.spec_slots().len() as u64),
            r < self.spec_slots().len(),
    {
        (key % (self.table.len() as u64)) as usize
    }

    /// The value stored for `key`, if its slot holds it.
    pub fn get(&self, key: u64) -> (r: Option<u8>)
        requires
            self.spec_slots().len() > 0,
        ensures
            r == self.spec_get(key),
    {
        let ind = self.index(key);
        let entry = self.table[ind];
        if entry.0 != 0 && entry.key() == key {
            Some(entry.value())
        } else {
            None
        }
    }

    /// Stores `value` for `key` in the key's slot, replacing what it held.
    /// The value 0 is kept for empty slots.
    pub fn put(&mut self, key: u64, value: u8)
        requires
            old(self).spec_slots().len() > 0,
            value != 0,
        ensures
            final(self).spec_slots() == old(self).spec_slots().update(
                (key % (old(self).spec_slots().len() as u64)) as int,
                pack(key, value),
            ),
    {
        let ind = self.index(key);
        let entry = Entry::new(key, value);
        self.table.set(ind, entry);
        proof {
            assert(self.spec_slots() =~= old(self).spec_slots().update(ind as int, pack(key, value)));
        }
    }
}

/// A nonzero value stored for a key below 2^56 is found by the next lookup
/// of that key.
pub proof fn lemma_put_then_get(t: TranspositionTable, u: TranspositionTable, key: u64, value: u8)
    requires
        0 < t.spec_slots().len() <= usize::MAX,
        key < 0x100_0000_0000_0000,
        value != 0,
        u.spec_slots() == t.spec_slots().update(
            (key % (t.spec_slots().len() as u64)) as int,
            pack(key, value),
        ),
    ensures
        u.spec_get(key) == Some(value),
{
    lemma_pack(key, value);
    let i = (key % (t.spec_slots().len() as u64)) as int;
    assert(u.spec_slots()[i] == pack(key, value));
}

/// After a write of a nonzero `value` for a key below 2^56, a lookup of any
/// key finds what it found before, nothing, or, for that key, the value.
pub proof fn lemma_put_effect(t: TranspositionTable, u: TranspositionTable, key: u64, value: u8, k: u64)
    requires
        0 < t.spec_slots().len() <= usize::MAX,
        key < 0x100_0000_0000_0000,
        value != 0,
        u.spec_slots() == t.spec_slots().update(
            (key % (t.spec_slots().len() as u64)) as int,
            pack(key, value),
        ),
    ensures
        u.spec_get(k) == t.spec_get(k) || u.spec_get(k) is None || (k == key && u.spec_get(k)
            == Some(value)),
{
    lemma_pack(key, value);
}

/// A table of empty slots finds nothing.
pub proof fn lemma_empty_table(t: TranspositionTable, k: u64)
    requires
        0 < t.spec_slots().len() <= usize::MAX,
        forall|i: int| 0 <= i < t.spec_slots().len() ==> t.spec_slots()[i] == 0,
    ensures
        t.spec_get(k) is None,
{
    let i = (k % (t.spec_slots().len() as u64)) as int;
    assert(0 <= i < t.spec_slots().len());
    assert(t.spec_slots()[i] == 0);
}

/// A slot packed from a key below 2^56 gives back the key and the value,
/// and is not empty unless both are zero.
pub proof fn lemma_pack(key: u64, value: u8)
    by (bit_vector)
    requires
        key < 0x100_0000_0000_0000,
    ensures
        (key != 0 || value != 0) ==> pack(key, value) != 0,
        slot_key(pack(key, value)) == key,
        slot_value(pack(key, value)) == value,
{
}

} // verus!
