//! Tables keyed by file hash: the registry of source texts and the comment map.
use crate::hash::FileHash;
use vstd::prelude::*;

verus! {

/// A table from file hash to a value, holding at most one entry per hash.
/// Inserting under a hash that is already present replaces its value.
pub struct FileTable<V> {
    entries: Vec<(FileHash, V)>,
    contents: Ghost<Map<Seq<u8>, V>>,
}

impl<V> View for FileTable<V> {
    type V = Map<Seq<u8>, V>;

    closed spec fn view(&self) -> Map<Seq<u8>, V> {
        self.contents@
    }
}

impl<V> FileTable<V> {
    /// The entries hold distinct hashes, and they are exactly the map.
    pub closed spec fn wf(&self) -> bool {
        &&& forall|i: int, j: int|
            0 <= i < j < self.entries@.len() ==> (#[trigger] self.entries@[i]).0@ != (
            #[trigger] self.entries@[j]).0@
        &&& forall|i: int|
            0 <= i < self.entries@.len() ==> self.contents@.contains_key(
                (#[trigger] self.entries@[i]).0@,
            ) && self.contents@[self.entries@[i].0@] == self.entries@[i].1
        &&& forall|k: Seq<u8>|
            #[trigger] self.contents@.contains_key(k) ==> exists|i: int|
                0 <= i < self.entries@.len() && (#[trigger] self.entries@[i]).0@ == k
    }

    /// An empty table.
    pub fn new() -> (r: FileTable<V>)
        ensures
            r.wf(),
            r@ == Map::<Seq<u8>, V>::empty(),
    {
        FileTable { entries: Vec::new(), contents: Ghost(Map::empty()) }
    }

    /// The position of the entry for `h`, if there is one.
    fn find(&self, h: &FileHash) -> (r: Option<usize>)
        requires
            self.wf(),
        ensures
            r is None ==> !self@.contains_key(h@),
            r matches Some(i) ==> i < self.entries@.len() && self.entries@[i as int].0@ == h@,
    {
        let mut i: usize = 0;
        while i < self.entries.len()
            invariant
                self.wf(),
                0 <= i <= self.entries@.len(),
                forall|j: int| 0 <= j < i ==> (#[trigger] self.entries@[j]).0@ != h@,
            decreases self.entries@.len() - i,
        {
            if self.entries[i].0.same_as(h) {
                return Some(i);
            }
            i = i + 1;
        }
        None
    }

    /// The value held for `h`.
    pub fn get(&self, h: &FileHash) -> (r: Option<&V>)
        requires
            self.wf(),
        ensures
            r is Some <==> self@.contains_key(h@),
            r matches Some(v) ==> *v == self@[h@],
    {
        match self.find(h) {
            Some(i) => Some(&self.entries[i].1),
            None => None,
        }
    }

    /// Whether a value is held for `h`.
    pub fn contains(&self, h: &FileHash) -> (r: bool)
        requires
            self.wf(),
        ensures
            r == self@.contains_key(h@),
    {
        self.find(h).is_some()
    }

    /// Holds `v` for `h`, replacing any value held before.
    pub fn insert(&mut self, h: FileHash, v: V)
        requires
            old(self).wf(),
        ensures
            final(self).wf(),
            final(self)@ == old(self)@.insert(h@, v),
    {
        let ghost old_map = self.contents@;
        let ghost old_entries = self.entries@;
        match self.find(&h) {
            Some(i) => {
                self.entries.set(i, (h, v));
                self.contents = Ghost(old_map.insert(h@, v));
                proof {
                    assert forall|k: Seq<u8>| #[trigger] self.contents@.contains_key(k) implies exists|j: int|
                        0 <= j < self.entries@.len() && (#[trigger] self.entries@[j]).0@ == k by {
                        if k == h@ {
                            assert(self.entries@[i as int].0@ == k);
                        } else {
                            assert(old_map.contains_key(k));
                            let j = choose|j: int| 0 <= j < old_entries.len() && (#[trigger] old_entries[j]).0@ == k;
                            assert(self.entries@[j].0@ == k);
                        }
                    }
                }
            },
            None => {
                self.entries.push((h, v));
                self.contents = Ghost(old_map.insert(h@, v));
                proof {
                    let n = old_entries.len() as int;
                    assert(self.entries@[n].0@ == h@);
                    assert forall|k: Seq<u8>| #[trigger] self.contents@.contains_key(k) implies exists|j: int|
                        0 <= j < self.entries@.len() && (#[trigger] self.entries@[j]).0@ == k by {
                        if k == h@ {
                            assert(self.entries@[n].0@ == k);
                        } else {
                            assert(old_map.contains_key(k));
                            let j = choose|j: int| 0 <= j < old_entries.len() && (#[trigger] old_entries[j]).0@ == k;
                            assert(self.entries@[j].0@ == k);
                        }
                    }
                    assert forall|j: int| 0 <= j < n implies (#[trigger] old_entries[j]).0@ != h@ by {
                        assert(old_map.contains_key(old_entries[j].0@));
                    }
                }
            },
        }
    }

    /// The entries, in the order their hashes were first inserted.
    pub fn entries(&self) -> (r: &Vec<(FileHash, V)>)
        requires
            self.wf(),
        ensures
            forall|i: int|
                0 <= i < r@.len() ==> self@.contains_key((#[trigger] r@[i]).0@) && self@[r@[i].0@]
                    == r@[i].1,
            forall|k: Seq<u8>|
                #[trigger] self@.contains_key(k) ==> exists|i: int| 0 <= i < r@.len() && (#[trigger] r@[i]).0@ == k,
    {
        &self.entries
    }
}

} // verus!
