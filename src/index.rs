//! The in-memory index: for each key, the offset of its latest frame.
use vstd::prelude::*;

verus! {

/// Whether two byte strings are equal.
pub fn bytes_eq(a: &[u8], b: &[u8]) -> (r: bool)
    ensures
        r == (a@ == b@),
{
    if a.len() != b.len() {
        return false;
    }
    let mut i: usize = 0;
    while i < a.len()
        invariant
            a@.len() == b@.len(),
            i <= a@.len(),
            forall|j: int| 0 <= j < i ==> a@[j] == b@[j],
        decreases a@.len() - i,
    {
        if a[i] != b[i] {
            return false;
        }
        i += 1;
    }
    assert(a@ =~= b@);
    true
}

/// A map from keys to log offsets, one entry per distinct key.
pub struct Index {
    keys: Vec<Vec<u8>>,
    offsets: Vec<u64>,
    map: Ghost<Map<Seq<u8>, u64>>,
}

impl View for Index {
    type V = Map<Seq<u8>, u64>;

    closed spec fn view(&self) -> Map<Seq<u8>, u64> {
        self.map@
    }
}

impl Index {
    /// The entries are those of the map, each key once.
    pub closed spec fn wf(&self) -> bool {
        &&& self.keys@.len() == self.offsets@.len()
        &&& forall|i: int, j: int|
            0 <= i < j < self.keys@.len() ==> self.keys@[i]@ != self.keys@[j]@
        &&& forall|i: int|
            0 <= i < self.keys@.len() ==> #[trigger] self.map@.contains_key(self.keys@[i]@)
                && self.map@[self.keys@[i]@] == self.offsets@[i]
        &&& forall|k: Seq<u8>|
            #[trigger] self.map@.contains_key(k) ==> exists|i: int|
                0 <= i < self.keys@.len() && self.keys@[i]@ == k
    }

    /// An index with no entry.
    pub fn new() -> (r: Index)
        ensures
            r.wf(),
            r@ == Map::<Seq<u8>, u64>::empty(),
    {
        Index { keys: Vec::new(), offsets: Vec::new(), map: Ghost(Map::empty()) }
    }

    /// Where `key` stands among the entries, if it has one.
    fn find(&self, key: &[u8]) -> (r: Option<usize>)
        requires
            self.wf(),
        ensures
            match r {
                Some(i) => i < self.keys@.len() && self.keys@[i as int]@ == key@,
                None => !self@.contains_key(key@),
            },
    {
        let mut i: usize = 0;
        while i < self.keys.len()
            invariant
                self.wf(),
                i <= self.keys@.len(),
                forall|j: int| 0 <= j < i ==> self.keys@[j]@ != key@,
            decreases self.keys@.len() - i,
        {
            if bytes_eq(self.keys[i].as_slice(), key) {
                return Some(i);
            }
            i += 1;
        }
        None
    }

    /// The offset recorded for `key`.
    pub fn get(&self, key: &[u8]) -> (r: Option<u64>)
        requires
            self.wf(),
        ensures
            r == (if self@.contains_key(key@) {
                Some(self@[key@])
            } else {
                None::<u64>
            }),
    {
        match self.find(key) {
            Some(i) => Some(self.offsets[i]),
            None => None,
        }
    }

    /// Records `offset` for `key`, replacing what was recorded before.
    pub fn insert(&mut self, key: Vec<u8>, offset: u64)
        requires
            old(self).wf(),
        ensures
            final(self).wf(),
            final(self)@ == old(self)@.insert(key@, offset),
    {
        let ghost k = key@;
        match self.find(key.as_slice()) {
            Some(i) => {
                self.offsets.set(i, offset);
            },
            None => {
                self.keys.push(key);
                self.offsets.push(offset);
            },
        }
        self.map = Ghost(old(self).map@.insert(k, offset));
        assert forall|j: int| 0 <= j < self.keys@.len() implies #[trigger] self.map@.contains_key(
            self.keys@[j]@,
        ) && self.map@[self.keys@[j]@] == self.offsets@[j] by {
            if j < old(self).keys@.len() && self.keys@[j]@ != k {
                assert(self.keys@[j] == old(self).keys@[j]);
            }
        }
        assert forall|q: Seq<u8>| #[trigger] self.map@.contains_key(q) implies exists|i: int|
            0 <= i < self.keys@.len() && self.keys@[i]@ == q by {
            if q == k {
                if self.keys@.len() > old(self).keys@.len() {
                    assert(self.keys@[old(self).keys@.len() as int]@ == q);
                }
            } else {
                let i = choose|i: int| 0 <= i < old(self).keys@.len() && old(self).keys@[i]@ == q;
                assert(self.keys@[i] == old(self).keys@[i]);
            }
        }
    }
}

} // verus!
