//! The index that a folder is loaded into: identifiers to content handles.

use vstd::prelude::*;

use crate::ident::AssetId;

verus! {

/// The contents of a loaded folder: for each identifier, the handle of the
/// content that was loaded for it. Each identifier has at most one entry.
pub struct AssetFolder<H> {
    entries: Vec<(AssetId, H)>,
}

impl<H> View for AssetFolder<H> {
    type V = Map<Seq<char>, H>;

    closed spec fn view(&self) -> Map<Seq<char>, H> {
        Map::new(
            |k: Seq<char>| self.has_key(k),
            |k: Seq<char>| self.entries@[self.position(k)].1,
        )
    }
}

impl<H> Default for AssetFolder<H> {
    fn default() -> (r: AssetFolder<H>)
        ensures
            r.wf(),
            r@ == Map::<Seq<char>, H>::empty(),
    {
        AssetFolder::new()
    }
}

impl<H> AssetFolder<H> {
    spec fn key_at(&self, i: int) -> Seq<char> {
        self.entries@[i].0@
    }

    spec fn has_key(&self, k: Seq<char>) -> bool {
        exists|i: int| 0 <= i < self.entries.len() && self.key_at(i) == k
    }

    spec fn position(&self, k: Seq<char>) -> int {
        choose|i: int| 0 <= i < self.entries.len() && self.key_at(i) == k
    }

    spec fn key_seq(&self) -> Seq<Seq<char>> {
        self.entries@.map_values(|e: (AssetId, H)| e.0@)
    }

    /// No two entries share an identifier.
    pub closed spec fn wf(&self) -> bool {
        forall|i: int, j: int|
            0 <= i < j < self.entries.len() ==> self.key_at(i) != self.key_at(j)
    }

    proof fn lemma_view(&self)
        requires
            self.wf(),
        ensures
            self@.dom().finite(),
            self@.len() == self.entries.len(),
            forall|k: Seq<char>| #[trigger] self@.contains_key(k) <==> self.has_key(k),
            forall|i: int|
                0 <= i < self.entries.len() ==> #[trigger] self@.contains_key(self.key_at(i))
                    && self@[self.key_at(i)] == self.entries@[i].1,
    {
        let ks = self.key_seq();
        assert forall|k: Seq<char>| self@.dom().contains(k) <==> ks.to_set().contains(k) by {
            if self.has_key(k) {
                let i = choose|i: int| 0 <= i < self.entries.len() && self.key_at(i) == k;
                assert(ks[i] == k);
            }
            if ks.contains(k) {
                let i = choose|i: int| 0 <= i < ks.len() && ks[i] == k;
                assert(self.key_at(i) == k);
            }
        }
        assert(self@.dom() =~= ks.to_set());
        assert(ks.no_duplicates()) by {
            assert forall|i: int, j: int|
                0 <= i < ks.len() && 0 <= j < ks.len() && i != j implies ks[i] != ks[j] by {
                if i < j {
                    assert(self.key_at(i) != self.key_at(j));
                } else {
                    assert(self.key_at(j) != self.key_at(i));
                }
            }
        }
        ks.unique_seq_to_set();
        assert forall|i: int| 0 <= i < self.entries.len() implies #[trigger] self@.contains_key(
            self.key_at(i),
        ) && self@[self.key_at(i)] == self.entries@[i].1 by {
            assert(self.has_key(self.key_at(i)));
            let p = self.position(self.key_at(i));
            if p < i {
                assert(self.key_at(p) != self.key_at(i));
            } else if i < p {
                assert(self.key_at(i) != self.key_at(p));
            }
        }
    }

    /// The entry for `id`, if any.
    fn find(&self, id: &AssetId) -> (r: Option<usize>)
        ensures
            match r {
                Some(i) => i < self.entries.len() && self.key_at(i as int) == id@,
                None => !self.has_key(id@),
            },
    {
        let mut i: usize = 0;
        while i < self.entries.len()
            invariant
                i <= self.entries.len(),
                forall|j: int| 0 <= j < i ==> self.key_at(j) != id@,
            decreases self.entries.len() - i,
        {
            if self.entries[i].0 == *id {
                return Some(i);
            }
            i = i + 1;
        }
        None
    }

    /// An empty index.
    pub fn new() -> (r: AssetFolder<H>)
        ensures
            r.wf(),
            r@ == Map::<Seq<char>, H>::empty(),
    {
        let r = AssetFolder { entries: Vec::new() };
        assert(r@ =~= Map::<Seq<char>, H>::empty());
        r
    }

    /// The handle stored for `id`, if any.
    pub fn get(&self, id: &AssetId) -> (r: Option<&H>)
        requires
            self.wf(),
        ensures
            match r {
                Some(h) => self@.contains_key(id@) && *h == self@[id@],
                None => !self@.contains_key(id@),
            },
    {
        proof {
            self.lemma_view();
        }
        match self.find(id) {
            Some(i) => Some(&self.entries[i].1),
            None => None,
        }
    }

    /// Whether the index has an entry for `id`.
    pub fn contains(&self, id: &AssetId) -> (r: bool)
        requires
            self.wf(),
        ensures
            r == self@.contains_key(id@),
    {
        proof {
            self.lemma_view();
        }
        self.find(id).is_some()
    }

    /// Stores `handle` under `id`, replacing and returning the handle that
    /// was stored there before, if any.
    pub fn insert(&mut self, id: AssetId, handle: H) -> (r: Option<H>)
        requires
            old(self).wf(),
        ensures
            final(self).wf(),
            final(self)@ == old(self)@.insert(id@, handle),
            r == if old(self)@.contains_key(id@) {
                Some(old(self)@[id@])
            } else {
                None
            },
    {
        proof {
            self.lemma_view();
        }
        let ghost k = id@;
        let ghost before = *self;
        match self.find(&id) {
            Some(i) => {
                let prev = self.entries.remove(i);
                self.entries.push((id, handle));
                proof {
                    assert(before.key_at(i as int) == k);
                    assert forall|a: int, b: int|
                        0 <= a < b < self.entries.len() implies self.key_at(a) != self.key_at(b) by {
                        if b == self.entries.len() - 1 {
                            if a < i {
                                assert(before.key_at(a) != before.key_at(i as int));
                            } else {
                                assert(before.key_at(i as int) != before.key_at(a + 1));
                            }
                        } else {
                            let a0 = if a < i { a } else { a + 1 };
                            let b0 = if b < i { b } else { b + 1 };
                            assert(before.key_at(a0) != before.key_at(b0));
                        }
                    }
                    self.lemma_view();
                    assert(self.key_at(self.entries.len() - 1) == k);
                    assert forall|x: Seq<char>| #[trigger]
                        self@.contains_key(x) == before@.insert(k, handle).contains_key(x) by {
                        if before.has_key(x) {
                            let j = choose|j: int|
                                0 <= j < before.entries.len() && before.key_at(j) == x;
                            if j < i {
                                assert(self.key_at(j) == x);
                            } else if j > i {
                                assert(self.key_at(j - 1) == x);
                            }
                        }
                        if self.has_key(x) {
                            let j = choose|j: int|
                                0 <= j < self.entries.len() && self.key_at(j) == x;
                            if j < i {
                                assert(before.key_at(j) == x);
                            } else if j < self.entries.len() - 1 {
                                assert(before.key_at(j + 1) == x);
                            }
                        }
                    }
                    assert forall|x: Seq<char>| #[trigger]
                        self@.contains_key(x) implies self@[x] == before@.insert(k, handle)[x] by {
                        let j = choose|j: int|
                            0 <= j < self.entries.len() && self.key_at(j) == x;
                        if j < i {
                            assert(before.key_at(j) == x);
                            assert(self.entries@[j] == before.entries@[j]);
                        } else if j < self.entries.len() - 1 {
                            assert(before.key_at(j + 1) == x);
                            assert(self.entries@[j] == before.entries@[j + 1]);
                        }
                    }
                    assert(self@ =~= before@.insert(k, handle));
                }
                Some(prev.1)
            },
            None => {
                self.entries.push((id, handle));
                proof {
                    assert forall|a: int, b: int|
                        0 <= a < b < self.entries.len() implies self.key_at(a) != self.key_at(b) by {
                        if b == self.entries.len() - 1 {
                            assert(before.key_at(a) != k);
                        } else {
                            assert(before.key_at(a) != before.key_at(b));
                        }
                    }
                    self.lemma_view();
                    assert(self.key_at(self.entries.len() - 1) == k);
                    assert forall|x: Seq<char>| #[trigger]
                        self@.contains_key(x) == before@.insert(k, handle).contains_key(x) by {
                        if before.has_key(x) {
                            let j = choose|j: int|
                                0 <= j < before.entries.len() && before.key_at(j) == x;
                            assert(self.key_at(j) == x);
                        }
                        if self.has_key(x) {
                            let j = choose|j: int|
                                0 <= j < self.entries.len() && self.key_at(j) == x;
                            if j < self.entries.len() - 1 {
                                assert(before.key_at(j) == x);
                            }
                        }
                    }
                    assert forall|x: Seq<char>| #[trigger]
                        self@.contains_key(x) implies self@[x] == before@.insert(k, handle)[x] by {
                        let j = choose|j: int|
                            0 <= j < self.entries.len() && self.key_at(j) == x;
                        if j < self.entries.len() - 1 {
                            assert(before.key_at(j) == x);
                            assert(self.entries@[j] == before.entries@[j]);
                        }
                    }
                    assert(self@ =~= before@.insert(k, handle));
                }
                None
            },
        }
    }

    /// The identifiers of the index, each once, in no particular order.
    pub fn keys(&self) -> (r: Vec<AssetId>)
        requires
            self.wf(),
        ensures
            r@.len() == self@.len(),
            forall|i: int| 0 <= i < r@.len() ==> self@.contains_key(#[trigger] r@[i]@),
            forall|k: Seq<char>|
                #[trigger] self@.contains_key(k) ==> exists|i: int| 0 <= i < r@.len() && r@[i]@ == k,
    {
        proof {
            self.lemma_view();
        }
        let mut r: Vec<AssetId> = Vec::new();
        let mut i: usize = 0;
        while i < self.entries.len()
            invariant
                i <= self.entries.len(),
                r@.len() == i,
                forall|j: int| 0 <= j < i ==> #[trigger] r@[j]@ == self.key_at(j),
            decreases self.entries.len() - i,
        {
            r.push(self.entries[i].0.duplicate());
            i = i + 1;
        }
        proof {
            assert forall|j: int| 0 <= j < r@.len() implies self@.contains_key(#[trigger] r@[j]@) by {
                assert(self@.contains_key(self.key_at(j)));
            }
            assert forall|k: Seq<char>| #[trigger] self@.contains_key(k) implies exists|j: int|
                0 <= j < r@.len() && r@[j]@ == k by {
                let j = choose|j: int| 0 <= j < self.entries.len() && self.key_at(j) == k;
                assert(r@[j]@ == k);
            }
        }
        r
    }

    /// The entries of the index, each once, in no particular order.
    pub fn iter(&self) -> (r: Vec<(AssetId, &H)>)
        requires
            self.wf(),
        ensures
            r@.len() == self@.len(),
            forall|i: int|
                0 <= i < r@.len() ==> self@.contains_key(#[trigger] r@[i].0@) && *r@[i].1
                    == self@[r@[i].0@],
            forall|k: Seq<char>|
                #[trigger] self@.contains_key(k) ==> exists|i: int| 0 <= i < r@.len() && r@[i].0@ == k,
    {
        proof {
            self.lemma_view();
        }
        let mut r: Vec<(AssetId, &H)> = Vec::new();
        let mut i: usize = 0;
        while i < self.entries.len()
            invariant
                i <= self.entries.len(),
                r@.len() == i,
                forall|j: int|
                    0 <= j < i ==> #[trigger] r@[j].0@ == self.key_at(j) && *r@[j].1
                        == self.entries@[j].1,
            decreases self.entries.len() - i,
        {
            r.push((self.entries[i].0.duplicate(), &self.entries[i].1));
            i = i + 1;
        }
        proof {
            assert forall|j: int| 0 <= j < r@.len() implies self@.contains_key(#[trigger] r@[j].0@)
                && *r@[j].1 == self@[r@[j].0@] by {
                assert(self@.contains_key(self.key_at(j)));
            }
            assert forall|k: Seq<char>| #[trigger] self@.contains_key(k) implies exists|j: int|
                0 <= j < r@.len() && r@[j].0@ == k by {
                let j = choose|j: int| 0 <= j < self.entries.len() && self.key_at(j) == k;
                assert(r@[j].0@ == k);
            }
        }
        r
    }

    /// Read access to the stored entries, each identifier once, in no
    /// particular order.
    pub fn assets(&self) -> (r: &Vec<(AssetId, H)>)
        requires
            self.wf(),
        ensures
            r@.len() == self@.len(),
            forall|i: int|
                0 <= i < r@.len() ==> self@.contains_key(#[trigger] r@[i].0@) && r@[i].1
                    == self@[r@[i].0@],
            forall|i: int, j: int| 0 <= i < j < r@.len() ==> r@[i].0@ != r@[j].0@,
            forall|k: Seq<char>|
                #[trigger] self@.contains_key(k) ==> exists|i: int| 0 <= i < r@.len() && r@[i].0@ == k,
    {
        proof {
            self.lemma_view();
            assert forall|i: int| 0 <= i < self.entries@.len() implies self@.contains_key(
                #[trigger] self.entries@[i].0@,
            ) && self.entries@[i].1 == self@[self.entries@[i].0@] by {
                assert(self@.contains_key(self.key_at(i)));
            }
            assert forall|i: int, j: int| 0 <= i < j < self.entries@.len() implies self.entries@[i].0@
                != self.entries@[j].0@ by {
                assert(self.key_at(i) != self.key_at(j));
            }
            assert forall|k: Seq<char>| #[trigger] self@.contains_key(k) implies exists|j: int|
                0 <= j < self.entries@.len() && self.entries@[j].0@ == k by {
                let j = choose|j: int| 0 <= j < self.entries.len() && self.key_at(j) == k;
                assert(self.entries@[j].0@ == k);
            }
        }
        &self.entries
    }

    /// Whether anything has been loaded.
    pub fn is_ready(&self) -> (r: bool)
        requires
            self.wf(),
        ensures
            r == (self@.len() > 0),
    {
        proof {
            self.lemma_view();
        }
        self.entries.len() > 0
    }

    /// The number of entries.
    pub fn len(&self) -> (r: usize)
        requires
            self.wf(),
        ensures
            r == self@.len(),
    {
        proof {
            self.lemma_view();
        }
        self.entries.len()
    }

    /// Whether the index has no entry.
    pub fn is_empty(&self) -> (r: bool)
        requires
            self.wf(),
        ensures
            r == (self@.len() == 0),
    {
        proof {
            self.lemma_view();
        }
        self.entries.len() == 0
    }
}

} // verus!
