//! The offset index: for each live key, the log offset of its current entry.
use vstd::prelude::*;
use vstd::string::StringSliceAdditionalSpecFns;
use vstd::utf8::encode_utf8_decode_utf8;

verus! {

/// Whether two texts are equal, compared byte by byte.
fn same_text(a: &str, b: &str) -> (r: bool)
    ensures
        r == (a@ == b@),
{
    broadcast use encode_utf8_decode_utf8;

    let x = a.as_bytes();
    let y = b.as_bytes();
    if x.len() != y.len() {
        return false;
    }
    let mut i: usize = 0;
    while i < x.len()
        invariant
            x@ == a.spec_bytes(),
            y@ == b.spec_bytes(),
            x@.len() == y@.len(),
            0 <= i <= x@.len(),
            forall|j: int| 0 <= j < i ==> x@[j] == y@[j],
        decreases x@.len() - i,
    {
        if x[i] != y[i] {
            return false;
        }
        i = i + 1;
    }
    assert(x@ =~= y@);
    assert(a@ == vstd::utf8::decode_utf8(a.spec_bytes()));
    assert(b@ == vstd::utf8::decode_utf8(b.spec_bytes()));
    true
}

/// A map from keys to log offsets, kept as a list of distinct keys.
///
/// A `std::collections::HashMap<String, u64>` would give faster lookups, but
/// vstd's specification of `HashMap` holds only for key types that obey its
/// key model, and it establishes that for integer keys, not for `String`:
/// nothing could be proved of such a map here. Lookups are therefore linear
/// in the number of live keys.
pub struct OffsetIndex {
    entries: Vec<(String, u64)>,
    model: Ghost<Map<Seq<char>, nat>>,
}

impl View for OffsetIndex {
    type V = Map<Seq<char>, nat>;

    closed spec fn view(&self) -> Map<Seq<char>, nat> {
        self.model@
    }
}

impl OffsetIndex {
    /// The list behind the index matches the map: every entry is in the map
    /// with its offset, keys are distinct, and every key of the map has an
    /// entry.
    pub closed spec fn wf(&self) -> bool {
        &&& forall|i: int|
            0 <= i < self.entries@.len() ==> #[trigger] self.model@.contains_key(
                self.entries@[i].0@,
            ) && self.model@[self.entries@[i].0@] == self.entries@[i].1 as nat
        &&& forall|i: int, j: int|
            0 <= i < self.entries@.len() && 0 <= j < self.entries@.len() && i != j
                ==> #[trigger] self.entries@[i].0@ != #[trigger] self.entries@[j].0@
        &&& forall|k: Seq<char>|
            #[trigger] self.model@.contains_key(k) ==> exists|i: int|
                0 <= i < self.entries@.len() && #[trigger] self.entries@[i].0@ == k
    }

    /// The keys in the order in which `key_at` hands them out.
    pub closed spec fn key_seq(&self) -> Seq<Seq<char>> {
        self.entries@.map_values(|e: (String, u64)| e.0@)
    }

    /// The number of keys.
    pub closed spec fn spec_len(&self) -> nat {
        self.entries@.len()
    }

    /// Listing the keys: each once, and exactly those of the map.
    pub proof fn lemma_keys(&self)
        requires
            self.wf(),
        ensures
            self.key_seq().len() == self.spec_len(),
            self.key_seq().no_duplicates(),
            forall|i: int| 0 <= i < self.spec_len() ==> self@.contains_key(#[trigger] self.key_seq()[i]),
            forall|k: Seq<char>| #[trigger] self@.contains_key(k) ==> self.key_seq().contains(k),
            self@.dom().finite(),
            self@.dom().len() == self.spec_len(),
    {
        let ks = self.key_seq();
        assert forall|k: Seq<char>| #[trigger] self@.contains_key(k) implies ks.contains(k) by {
            let i = choose|i: int| 0 <= i < self.entries@.len() && #[trigger] self.entries@[i].0@ == k;
            assert(ks[i] == k);
        }
        assert forall|i: int, j: int| 0 <= i < ks.len() && 0 <= j < ks.len() && i != j implies ks[i] != ks[j] by {
            assert(ks[i] == self.entries@[i].0@);
            assert(ks[j] == self.entries@[j].0@);
        }
        assert forall|i: int| 0 <= i < self.spec_len() implies self@.contains_key(#[trigger] ks[i]) by {
            assert(ks[i] == self.entries@[i].0@);
        }
        assert(self@.dom() =~= ks.to_set());
        ks.unique_seq_to_set();
    }

    /// An empty index.
    pub fn new() -> (r: Self)
        ensures
            r.wf(),
            r@ == Map::<Seq<char>, nat>::empty(),
    {
        OffsetIndex { entries: Vec::new(), model: Ghost(Map::empty()) }
    }

    /// The number of keys.
    pub fn len(&self) -> (r: usize)
        requires
            self.wf(),
        ensures
            r == self.spec_len(),
    {
        self.entries.len()
    }

    /// The key at position `i` of the listing, with its offset.
    pub fn entry_at(&self, i: usize) -> (r: (&String, u64))
        requires
            self.wf(),
            i < self.spec_len(),
        ensures
            r.0@ == self.key_seq()[i as int],
            self@.contains_key(r.0@),
            self@[r.0@] == r.1 as nat,
    {
        let e = &self.entries[i];
        assert(self.model@.contains_key(self.entries@[i as int].0@));
        (&e.0, e.1)
    }

    fn find(&self, key: &str) -> (r: Option<usize>)
        requires
            self.wf(),
        ensures
            match r {
                Some(i) => i < self.entries@.len() && self.entries@[i as int].0@ == key@,
                None => !self@.contains_key(key@),
            },
    {
        let mut i: usize = 0;
        while i < self.entries.len()
            invariant
                self.wf(),
                0 <= i <= self.entries@.len(),
                forall|j: int| 0 <= j < i ==> self.entries@[j].0@ != key@,
            decreases self.entries@.len() - i,
        {
            if same_text(self.entries[i].0.as_str(), key) {
                return Some(i);
            }
            i = i + 1;
        }
        None
    }

    /// The offset recorded for `key`, if any.
    pub fn get(&self, key: &str) -> (r: Option<u64>)
        requires
            self.wf(),
        ensures
            match r {
                Some(off) => self@.contains_key(key@) && self@[key@] == off as nat,
                None => !self@.contains_key(key@),
            },
    {
        match self.find(key) {
            Some(i) => {
                assert(self.model@.contains_key(self.entries@[i as int].0@));
                Some(self.entries[i].1)
            },
            None => None,
        }
    }

    /// Records `off` as the offset of `key`, replacing any earlier one.
    pub fn insert(&mut self, key: &str, off: u64)
        requires
            old(self).wf(),
        ensures
            final(self).wf(),
            final(self)@ == old(self)@.insert(key@, off as nat),
    {
        let ghost m = self.model@.insert(key@, off as nat);
        let ghost before = self.entries@;
        match self.find(key) {
            Some(i) => {
                let owned = self.entries[i].0.clone();
                self.entries.set(i, (owned, off));
                self.model = Ghost(m);
                proof {
                    assert(self.entries@[i as int].0@ == key@);
                    assert forall|k: Seq<char>| #[trigger] self.model@.contains_key(k) implies exists|j: int|
                        0 <= j < self.entries@.len() && #[trigger] self.entries@[j].0@ == k by {
                        if k != key@ {
                            assert(old(self).model@.contains_key(k));
                            let j = choose|j: int| 0 <= j < before.len() && #[trigger] before[j].0@ == k;
                            assert(self.entries@[j].0@ == k);
                        }
                    }
                    assert forall|a: int| 0 <= a < self.entries@.len() implies #[trigger] self.model@.contains_key(
                        self.entries@[a].0@) && self.model@[self.entries@[a].0@] == self.entries@[a].1 as nat by {
                        if a != i {
                            assert(old(self).model@.contains_key(before[a].0@));
                            assert(before[a].0@ != before[i as int].0@);
                        }
                    }
                    assert forall|a: int, b: int|
                        0 <= a < self.entries@.len() && 0 <= b < self.entries@.len() && a != b
                        implies #[trigger] self.entries@[a].0@ != #[trigger] self.entries@[b].0@ by {
                        assert(self.entries@[a].0@ == before[a].0@);
                        assert(self.entries@[b].0@ == before[b].0@);
                    }
                }
            },
            None => {
                self.entries.push((key.to_owned(), off));
                self.model = Ghost(m);
                proof {
                    let n = before.len() as int;
                    assert(self.entries@[n].0@ == key@);
                    assert forall|k: Seq<char>| #[trigger] self.model@.contains_key(k) implies exists|j: int|
                        0 <= j < self.entries@.len() && #[trigger] self.entries@[j].0@ == k by {
                        if k != key@ {
                            assert(old(self).model@.contains_key(k));
                            let j = choose|j: int| 0 <= j < before.len() && #[trigger] before[j].0@ == k;
                            assert(self.entries@[j].0@ == k);
                        }
                    }
                    assert forall|a: int| 0 <= a < self.entries@.len() implies #[trigger] self.model@.contains_key(
                        self.entries@[a].0@) && self.model@[self.entries@[a].0@] == self.entries@[a].1 as nat by {
                        if a != n {
                            assert(self.entries@[a] == before[a]);
                            assert(old(self).model@.contains_key(before[a].0@));
                        }
                    }
                    assert forall|a: int, b: int|
                        0 <= a < self.entries@.len() && 0 <= b < self.entries@.len() && a != b
                        implies #[trigger] self.entries@[a].0@ != #[trigger] self.entries@[b].0@ by {
                        if a != n && b != n {
                            assert(self.entries@[a] == before[a]);
                            assert(self.entries@[b] == before[b]);
                        } else if a == n {
                            assert(self.entries@[b] == before[b]);
                            assert(old(self).model@.contains_key(before[b].0@));
                        } else {
                            assert(self.entries@[a] == before[a]);
                            assert(old(self).model@.contains_key(before[a].0@));
                        }
                    }
                }
            },
        }
    }

    /// Forgets `key`; nothing changes when it is absent.
    pub fn remove(&mut self, key: &str)
        requires
            old(self).wf(),
        ensures
            final(self).wf(),
            final(self)@ == old(self)@.remove(key@),
    {
        let ghost m = self.model@.remove(key@);
        match self.find(key) {
            Some(i) => {
                let ghost before = self.entries@;
                self.entries.remove(i);
                self.model = Ghost(m);
                proof {
                    assert(before[i as int].0@ == key@);
                    assert forall|k: Seq<char>| #[trigger] self.model@.contains_key(k) implies exists|j: int|
                        0 <= j < self.entries@.len() && #[trigger] self.entries@[j].0@ == k by {
                        assert(old(self).model@.contains_key(k));
                        let j = choose|j: int| 0 <= j < before.len() && #[trigger] before[j].0@ == k;
                        if j < i {
                            assert(self.entries@[j].0@ == k);
                        } else {
                            assert(j != i);
                            assert(self.entries@[j - 1].0@ == k);
                        }
                    }
                    assert forall|a: int| 0 <= a < self.entries@.len() implies #[trigger] self.model@.contains_key(
                        self.entries@[a].0@) && self.model@[self.entries@[a].0@] == self.entries@[a].1 as nat by {
                        let a0 = if a < i { a } else { a + 1 };
                        assert(self.entries@[a] == before[a0]);
                        assert(before[a0].0@ != before[i as int].0@);
                        assert(old(self).model@.contains_key(before[a0].0@));
                    }
                    assert forall|a: int, b: int|
                        0 <= a < self.entries@.len() && 0 <= b < self.entries@.len() && a != b
                        implies #[trigger] self.entries@[a].0@ != #[trigger] self.entries@[b].0@ by {
                        let a0 = if a < i { a } else { a + 1 };
                        let b0 = if b < i { b } else { b + 1 };
                        assert(self.entries@[a] == before[a0]);
                        assert(self.entries@[b] == before[b0]);
                    }
                }
            },
            None => {
                proof {
                    assert(m =~= self.model@);
                }
            },
        }
    }
}

} // verus!
