//! The key index: where the most recent record of each live key lies.
use vstd::prelude::*;
use vstd::hash_map::StringHashMap;

verus! {

/// The place of a record: the generation of its segment and the offset of its
/// first byte in it.
#[derive(Debug, Clone, Copy, PartialEq, Eq, Structural)]
pub struct RecordPointer {
    pub generation: u64,
    pub offset: u64,
}

/// The walk after `key` was pointed somewhere: a key that is new goes to the
/// end.
pub open spec fn with_key(keys: Seq<Seq<char>>, key: Seq<char>) -> Seq<Seq<char>> {
    if keys.contains(key) {
        keys
    } else {
        keys.push(key)
    }
}

/// The walk after `key` was taken out: the last key takes its position.
pub open spec fn without_key(keys: Seq<Seq<char>>, key: Seq<char>) -> Seq<Seq<char>> {
    if keys.contains(key) {
        keys.update(keys.index_of(key), keys.last()).drop_last()
    } else {
        keys
    }
}

/// In a walk without duplicates a key's position is the only place where it
/// stands.
pub proof fn lemma_position(keys: Seq<Seq<char>>, i: int)
    requires
        keys.no_duplicates(),
        0 <= i < keys.len(),
    ensures
        keys.contains(keys[i]),
        keys.index_of(keys[i]) == i,
{
    assert(keys.contains(keys[i]));
    let j = keys.index_of(keys[i]);
    assert(0 <= j < keys.len() && keys[j] == keys[i]);
}

/// A walk stays without duplicates when a key is pointed somewhere, and
/// holds that key and the keys it held.
pub proof fn lemma_with_key(keys: Seq<Seq<char>>, key: Seq<char>)
    requires
        keys.no_duplicates(),
    ensures
        with_key(keys, key).no_duplicates(),
        forall|k: Seq<char>| with_key(keys, key).contains(k) <==> (k == key || keys.contains(k)),
        with_key(keys, key).len() <= keys.len() + 1,
{
    let longer = with_key(keys, key);
    if !keys.contains(key) {
        assert forall|k: Seq<char>| longer.contains(k) implies (k == key || keys.contains(k)) by {
            let i = choose|i: int| 0 <= i < longer.len() && longer[i] == k;
            if i < keys.len() {
                assert(keys[i] == k);
            }
        }
        assert forall|k: Seq<char>| (k == key || keys.contains(k)) implies longer.contains(k) by {
            if k == key {
                assert(longer[keys.len() as int] == k);
            } else {
                let i = choose|i: int| 0 <= i < keys.len() && keys[i] == k;
                assert(longer[i] == k);
            }
        }
    }
}

/// A walk stays without duplicates when a key is taken out, and holds the
/// keys it held but that key.
pub proof fn lemma_without_key(keys: Seq<Seq<char>>, key: Seq<char>)
    requires
        keys.no_duplicates(),
    ensures
        without_key(keys, key).no_duplicates(),
        forall|k: Seq<char>| without_key(keys, key).contains(k) <==> (k != key && keys.contains(k)),
        without_key(keys, key).len() <= keys.len(),
{
    let shorter = without_key(keys, key);
    if keys.contains(key) {
        let at = keys.index_of(key);
        let last = keys.len() - 1;
        assert(0 <= at < keys.len() && keys[at] == key);
        assert forall|k: Seq<char>| shorter.contains(k) implies (k != key && keys.contains(k)) by {
            let i = choose|i: int| 0 <= i < shorter.len() && shorter[i] == k;
            if i == at {
                assert(keys[last] == k);
            } else {
                assert(keys[i] == k);
            }
        }
        assert forall|k: Seq<char>| (k != key && keys.contains(k)) implies shorter.contains(k) by {
            let i = choose|i: int| 0 <= i < keys.len() && keys[i] == k;
            if i == last {
                assert(shorter[at] == k);
            } else {
                assert(shorter[i] == k);
            }
        }
    }
}

/// A map from keys to record pointers that can also be walked in a fixed
/// order.
///
/// The keys stand in a vector, each with its pointer at the same position of
/// a second vector; a hash map gives the position of each key.
pub struct KeyIndex {
    slots: StringHashMap<usize>,
    keys: Vec<String>,
    pointers: Vec<RecordPointer>,
}

impl View for KeyIndex {
    type V = Map<Seq<char>, RecordPointer>;

    closed spec fn view(&self) -> Map<Seq<char>, RecordPointer> {
        Map::new(
            |key: Seq<char>| self.slots@.contains_key(key),
            |key: Seq<char>| self.pointers@[self.slots@[key] as int],
        )
    }
}

impl KeyIndex {
    /// The keys in the order in which the index is walked.
    pub closed spec fn keys(&self) -> Seq<Seq<char>> {
        self.keys@.map_values(|key: String| key@)
    }

    /// The three parts of the index agree.
    pub closed spec fn wf(&self) -> bool {
        &&& self.keys@.len() == self.pointers@.len()
        &&& forall|i: int|
            0 <= i < self.keys@.len() ==> self.slots@.contains_key(#[trigger] self.keys@[i]@)
                && self.slots@[self.keys@[i]@] == i
        &&& forall|key: Seq<char>| #[trigger]
            self.slots@.contains_key(key) ==> self.slots@[key] < self.keys@.len()
                && self.keys@[self.slots@[key] as int]@ == key
    }

    /// In a well-formed index no key stands twice, and the keys that are
    /// walked are the keys of the map.
    pub proof fn lemma_keys(&self)
        requires
            self.wf(),
        ensures
            self.keys().no_duplicates(),
            forall|key: Seq<char>| self@.contains_key(key) <==> self.keys().contains(key),
            forall|i: int| 0 <= i < self.keys().len() ==> self@.contains_key(#[trigger] self.keys()[i]),
    {
        assert forall|i: int, j: int|
            0 <= i < self.keys().len() && 0 <= j < self.keys().len() && i != j implies self.keys()[i]
            != self.keys()[j] by {
            assert(self.slots@[self.keys@[i]@] == i);
            assert(self.slots@[self.keys@[j]@] == j);
        }
        assert forall|key: Seq<char>| self@.contains_key(key) <==> self.keys().contains(key) by {
            if self@.contains_key(key) {
                assert(self.slots@.contains_key(key));
                assert(self.keys()[self.slots@[key] as int] == key);
            }
            if self.keys().contains(key) {
                let i = choose|i: int| 0 <= i < self.keys().len() && self.keys()[i] == key;
                assert(self.slots@.contains_key(self.keys@[i]@));
            }
        }
        assert forall|i: int| 0 <= i < self.keys().len() implies self@.contains_key(
            #[trigger] self.keys()[i],
        ) by {
            assert(self.slots@.contains_key(self.keys@[i]@));
        }
    }

    /// An index without keys.
    pub fn new() -> (r: KeyIndex)
        ensures
            r.wf(),
            r@ == Map::<Seq<char>, RecordPointer>::empty(),
            r.keys() == Seq::<Seq<char>>::empty(),
    {
        let r = KeyIndex { slots: StringHashMap::new(), keys: Vec::new(), pointers: Vec::new() };
        assert(r@ =~= Map::<Seq<char>, RecordPointer>::empty());
        assert(r.keys() =~= Seq::<Seq<char>>::empty());
        r
    }

    /// The number of keys.
    pub fn len(&self) -> (r: usize)
        requires
            self.wf(),
        ensures
            r == self.keys().len(),
    {
        self.keys.len()
    }

    /// The pointer of `key`, if the index holds the key.
    pub fn get(&self, key: &str) -> (r: Option<RecordPointer>)
        requires
            self.wf(),
        ensures
            r == if self@.contains_key(key@) {
                Some(self@[key@])
            } else {
                None
            },
    {
        match self.slots.get(key) {
            Some(slot) => Some(self.pointers[*slot]),
            None => None,
        }
    }

    /// The key at position `i` of the walk.
    pub fn key_at(&self, i: usize) -> (r: &String)
        requires
            self.wf(),
            i < self.keys().len(),
        ensures
            r@ == self.keys()[i as int],
    {
        &self.keys[i]
    }

    /// The pointer of the key at position `i` of the walk.
    pub fn pointer_at(&self, i: usize) -> (r: RecordPointer)
        requires
            self.wf(),
            i < self.keys().len(),
        ensures
            self@.contains_key(self.keys()[i as int]),
            r == self@[self.keys()[i as int]],
    {
        assert(self.slots@.contains_key(self.keys@[i as int]@));
        self.pointers[i]
    }

    /// Points `key` at `pointer`. A key that the index does not hold yet
    /// goes to the end of the walk; one that it holds keeps its position.
    pub fn insert(&mut self, key: String, pointer: RecordPointer)
        requires
            old(self).wf(),
        ensures
            final(self).wf(),
            final(self)@ == old(self)@.insert(key@, pointer),
            final(self).keys() == with_key(old(self).keys(), key@),
    {
        proof {
            old(self).lemma_keys();
        }
        let found = match self.slots.get(key.as_str()) {
            Some(slot) => Some(*slot),
            None => None,
        };
        match found {
            Some(slot) => {
                self.pointers[slot] = pointer;
            },
            None => {
                let slot = self.keys.len();
                self.slots.insert(key.clone(), slot);
                self.keys.push(key);
                self.pointers.push(pointer);
                assert(final(self).keys() =~= old(self).keys().push(key@));
            },
        }
        assert(final(self)@ =~= old(self)@.insert(key@, pointer));
    }

    /// Takes `key` out of the index and returns the pointer it had. The last
    /// key of the walk takes the position of the key that left.
    pub fn remove(&mut self, key: &str) -> (r: Option<RecordPointer>)
        requires
            old(self).wf(),
        ensures
            final(self).wf(),
            final(self)@ == old(self)@.remove(key@),
            r == if old(self)@.contains_key(key@) {
                Some(old(self)@[key@])
            } else {
                None
            },
            final(self).keys() == without_key(old(self).keys(), key@),
    {
        proof {
            old(self).lemma_keys();
        }
        let slot = match self.slots.get(key) {
            Some(slot) => *slot,
            None => {
                assert(final(self)@ =~= old(self)@.remove(key@));
                return None;
            },
        };
        let pointer = self.pointers[slot];
        self.slots.remove(key);
        self.keys.swap_remove(slot);
        self.pointers.swap_remove(slot);
        if slot < self.keys.len() {
            let moved = self.keys[slot].clone();
            self.slots.insert(moved, slot);
        }
        assert(final(self).keys() =~= old(self).keys().update(
            slot as int,
            old(self).keys().last(),
        ).drop_last());
        assert(final(self)@ =~= old(self)@.remove(key@));
        assert(old(self).keys()[slot as int] == key@);
        proof {
            lemma_position(old(self).keys(), slot as int);
        }
        Some(pointer)
    }
}

} // verus!
