use vstd::prelude::*;
use crate::record::{Record, RecordView};

verus! {

/// An index's contents: keys with their canonical records, in the order in
/// which each key was first established.
pub type Entries = Seq<(Seq<char>, RecordView)>;

pub open spec fn keys_unique(s: Entries) -> bool {
    forall|i: int, j: int| 0 <= i < j < s.len() ==> s[i].0 != s[j].0
}

pub open spec fn has_key(s: Entries, k: Seq<char>) -> bool {
    exists|i: int| 0 <= i < s.len() && s[i].0 == k
}

/// Where `k` stands in `s`, or -1.
pub open spec fn position(s: Entries, k: Seq<char>) -> int {
    if has_key(s, k) {
        choose|i: int| 0 <= i < s.len() && s[i].0 == k
    } else {
        -1
    }
}

pub open spec fn lookup(s: Entries, k: Seq<char>) -> Option<RecordView> {
    if has_key(s, k) {
        Some(s[position(s, k)].1)
    } else {
        None
    }
}

/// `s` after establishing or overwriting the record of `k`: an overwrite
/// keeps the key's place, a new key goes last.
pub open spec fn inserted(s: Entries, k: Seq<char>, v: RecordView) -> Entries {
    if has_key(s, k) {
        s.update(position(s, k), (k, v))
    } else {
        s.push((k, v))
    }
}

/// `s` without the entry of `k`.
pub open spec fn removed(s: Entries, k: Seq<char>) -> Entries {
    if has_key(s, k) {
        s.remove(position(s, k))
    } else {
        s
    }
}

pub proof fn lemma_position_unique(s: Entries, k: Seq<char>, i: int)
    requires
        keys_unique(s),
        0 <= i < s.len(),
        s[i].0 == k,
    ensures
        has_key(s, k),
        position(s, k) == i,
{
    let p = position(s, k);
    assert(0 <= p < s.len() && s[p].0 == k);
}

pub proof fn lemma_inserted_unique(s: Entries, k: Seq<char>, v: RecordView)
    requires
        keys_unique(s),
    ensures
        keys_unique(inserted(s, k, v)),
        has_key(inserted(s, k, v), k),
{
    let t = inserted(s, k, v);
    if has_key(s, k) {
        let p = position(s, k);
        assert(t[p].0 == k);
    } else {
        assert forall|i: int, j: int| 0 <= i < j < t.len() implies t[i].0 != t[j].0 by {
            if j == s.len() {
                assert(s[i].0 != k);
            }
        }
        assert(t[s.len() as int].0 == k);
    }
}

pub proof fn lemma_removed_unique(s: Entries, k: Seq<char>)
    requires
        keys_unique(s),
    ensures
        keys_unique(removed(s, k)),
        !has_key(removed(s, k), k),
{
    let t = removed(s, k);
    if has_key(s, k) {
        let p = position(s, k);
        assert forall|i: int, j: int| 0 <= i < j < t.len() implies t[i].0 != t[j].0 by {
            let si = if i < p { i } else { i + 1 };
            let sj = if j < p { j } else { j + 1 };
            assert(t[i] == s[si] && t[j] == s[sj]);
        }
        assert forall|i: int| 0 <= i < t.len() implies t[i].0 != k by {
            let si = if i < p { i } else { i + 1 };
            assert(t[i] == s[si]);
        }
    }
}

pub struct Entry {
    pub key: String,
    pub record: Record,
}

/// Logical keys mapped to their canonical records, in first-insertion order.
/// Entries are held in that order, so a lookup scans them: its cost grows with
/// the number of distinct keys, which also bounds the memory held.
pub struct RecordIndex {
    entries: Vec<Entry>,
}

impl View for RecordIndex {
    type V = Entries;

    closed spec fn view(&self) -> Entries {
        self.entries@.map_values(|e: Entry| (e.key@, e.record@))
    }
}

impl RecordIndex {
    pub open spec fn wf(&self) -> bool {
        keys_unique(self@)
    }

    pub fn new() -> (r: RecordIndex)
        ensures
            r.wf(),
            r@ == Seq::<(Seq<char>, RecordView)>::empty(),
    {
        let r = RecordIndex { entries: Vec::new() };
        assert(r@ =~= Seq::<(Seq<char>, RecordView)>::empty());
        r
    }

    pub fn len(&self) -> (r: usize)
        ensures
            r == self@.len(),
    {
        self.entries.len()
    }

    /// Where `key` stands in the order of the index.
    pub fn find(&self, key: &String) -> (r: Option<usize>)
        requires
            self.wf(),
        ensures
            match r {
                Some(i) => has_key(self@, key@) && i == position(self@, key@),
                None => !has_key(self@, key@),
            },
    {
        let mut i: usize = 0;
        while i < self.entries.len()
            invariant
                i <= self@.len(),
                self.wf(),
                forall|j: int| 0 <= j < i ==> self@[j].0 != key@,
            decreases self@.len() - i,
        {
            assert(self@[i as int].0 == self.entries@[i as int].key@);
            if self.entries[i].key == *key {
                proof {
                    lemma_position_unique(self@, key@, i as int);
                }
                return Some(i);
            }
            i = i + 1;
        }
        None
    }

    /// The canonical record of `key`, if it has one.
    pub fn lookup(&self, key: &String) -> (r: Option<&Record>)
        requires
            self.wf(),
        ensures
            match r {
                Some(rec) => lookup(self@, key@) == Some(rec@),
                None => lookup(self@, key@).is_none(),
            },
    {
        match self.find(key) {
            Some(i) => Some(&self.entries[i].record),
            None => None,
        }
    }

    /// Establishes or overwrites the canonical record of `key`. An overwrite
    /// leaves the key where it was in the order.
    pub fn insert(&mut self, key: String, record: Record)
        requires
            old(self).wf(),
        ensures
            final(self).wf(),
            final(self)@ == inserted(old(self)@, key@, record@),
    {
        let ghost s = self@;
        let ghost e = (key@, record@);
        proof {
            lemma_inserted_unique(s, key@, record@);
        }
        match self.find(&key) {
            Some(i) => {
                self.entries.set(i, Entry { key, record });
                assert(self@ =~= s.update(i as int, e));
            },
            None => {
                self.entries.push(Entry { key, record });
                assert(self@ =~= s.push(e));
            },
        }
    }

    /// Drops the entry of `key`, returning its record; a later insert of the
    /// same key starts it afresh at the end of the order.
    pub fn remove(&mut self, key: &String) -> (r: Option<Record>)
        requires
            old(self).wf(),
        ensures
            final(self).wf(),
            final(self)@ == removed(old(self)@, key@),
            match r {
                Some(rec) => lookup(old(self)@, key@) == Some(rec@),
                None => lookup(old(self)@, key@).is_none(),
            },
    {
        let ghost s = self@;
        proof {
            lemma_removed_unique(s, key@);
        }
        match self.find(key) {
            Some(i) => {
                let e = self.entries.remove(i);
                assert(self@ =~= s.remove(i as int));
                Some(e.record)
            },
            None => None,
        }
    }

    /// The canonical records in first-insertion order.
    pub fn emit(&self) -> (r: Vec<Record>)
        ensures
            r@.len() == self@.len(),
            forall|i: int| 0 <= i < r@.len() ==> #[trigger] r@[i]@ == self@[i].1,
    {
        let mut r: Vec<Record> = Vec::new();
        let mut i: usize = 0;
        while i < self.entries.len()
            invariant
                i <= self@.len(),
                r@.len() == i,
                forall|j: int| 0 <= j < i ==> #[trigger] r@[j]@ == self@[j].1,
            decreases self@.len() - i,
        {
            r.push(self.entries[i].record.duplicate());
            i = i + 1;
        }
        r
    }
}

} // verus!
