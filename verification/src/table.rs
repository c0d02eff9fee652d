//! The link-count table: a process-wide map from inode id to the number of
//! directory names currently resolving to that inode. Absence of an entry
//! means exactly one link (the common, untracked case); an entry whose
//! count would reach zero is removed entirely, so the default-one reading
//! is restored rather than a zero being left behind.
//!
//! Underflow policy: the count is clamped. Decrementing an id that is
//! untracked (counted as one) leaves it untracked; no stored count ever
//! drops below one.

use vstd::prelude::*;

verus! {

/// The table itself: inode id / count pairs with pairwise distinct ids.
pub struct LinkCountTable {
    pub pairs: Vec<(u32, u32)>,
}

impl LinkCountTable {
    /// Well-formedness: ids are pairwise distinct and no stored count is
    /// below one.
    pub open spec fn wf(self) -> bool {
        &&& (forall|i: int, j: int|
            0 <= i < j < self.pairs.len() ==> (#[trigger] self.pairs[i]).0 != (
            #[trigger] self.pairs[j]).0)
        &&& (forall|i: int| 0 <= i < self.pairs.len() ==> (#[trigger] self.pairs[i]).1 >= 1)
    }

    /// Whether `i` indexes the pair for inode `id`.
    pub open spec fn pair_at(self, i: int, id: u32) -> bool {
        0 <= i < self.pairs.len() && self.pairs[i].0 == id
    }

    /// Whether the table tracks inode `id`.
    pub open spec fn has_key(self, id: u32) -> bool {
        exists|i: int| self.pair_at(i, id)
    }

    /// The index of the pair for `id` (unique when `wf`).
    pub open spec fn key_index(self, id: u32) -> int {
        choose|i: int| self.pair_at(i, id)
    }

    /// The link count the table reports for `id`: the stored count, or one
    /// when the id is untracked.
    pub open spec fn count_of(self, id: u32) -> u32 {
        if self.has_key(id) {
            self.pairs[self.key_index(id)].1
        } else {
            1
        }
    }

    /// Two pairs carrying one id sit at one index.
    pub proof fn lemma_key_unique(self, id: u32, i: int, j: int)
        requires
            self.wf(),
            self.pair_at(i, id),
            self.pair_at(j, id),
        ensures
            i == j,
    {
    }

    /// A fresh table: nothing tracked, every count reads as one.
    pub fn new() -> (r: LinkCountTable)
        ensures
            r.wf(),
            forall|id: u32| !r.has_key(id),
            forall|id: u32| r.count_of(id) == 1,
    {
        LinkCountTable { pairs: Vec::new() }
    }

    /// The count recorded for inode `id` (one when untracked).
    pub fn count(&self, id: u32) -> (r: u32)
        requires
            self.wf(),
        ensures
            r == self.count_of(id),
    {
        let n = self.pairs.len();
        let mut i: usize = 0;
        while i < n
            invariant
                n == self.pairs.len(),
                0 <= i <= n,
                self.wf(),
                forall|j: int| 0 <= j < i ==> !self.pair_at(j, id),
            decreases n - i,
        {
            if self.pairs[i].0 == id {
                proof {
                    assert(self.pair_at(i as int, id));
                    self.lemma_key_unique(id, i as int, self.key_index(id));
                }
                return self.pairs[i].1;
            }
            i += 1;
        }
        1
    }

    /// Record one more link to inode `id`: the reported count grows by one
    /// (an untracked id, counted as one, is stored as two); every other id
    /// is untouched.
    pub fn increment(&mut self, id: u32)
        requires
            old(self).wf(),
            old(self).count_of(id) < u32::MAX,
        ensures
            final(self).wf(),
            final(self).has_key(id),
            final(self).count_of(id) == old(self).count_of(id) + 1,
            forall|id2: u32|
                id2 != id ==> final(self).count_of(id2) == old(self).count_of(id2) && final(self).has_key(id2) == old(self).has_key(id2),
    {
        let n = self.pairs.len();
        let mut i: usize = 0;
        while i < n
            invariant
                n == self.pairs.len(),
                0 <= i <= n,
                self.wf(),
                *self == *old(self),
                old(self).count_of(id) < u32::MAX,
                forall|j: int| 0 <= j < i ==> !self.pair_at(j, id),
            decreases n - i,
        {
            if self.pairs[i].0 == id {
                let c = self.pairs[i].1;
                proof {
                    assert(self.pair_at(i as int, id));
                    old(self).lemma_key_unique(id, i as int, old(self).key_index(id));
                }
                self.pairs[i] = (id, c + 1);
                proof {
                    let pre = *old(self);
                    let ii = i as int;
                    assert(self.pairs@ =~= pre.pairs@.update(ii, (id, (c + 1) as u32)));
                    assert forall|a: int, b: int| 0 <= a < b < self.pairs@.len() implies (
                    #[trigger] self.pairs@[a]).0 != (#[trigger] self.pairs@[b]).0 by {
                        if a == ii && self.pairs@[b].0 == id {
                            assert(pre.pair_at(b, id));
                            pre.lemma_key_unique(id, b, ii);
                        }
                        if b == ii && self.pairs@[a].0 == id {
                            assert(pre.pair_at(a, id));
                            pre.lemma_key_unique(id, a, ii);
                        }
                    }
                    assert(self.wf());
                    assert(self.pair_at(ii, id));
                    self.lemma_key_unique(id, ii, self.key_index(id));
                    assert forall|id2: u32| id2 != id implies self.count_of(id2) == pre.count_of(
                        id2,
                    ) && self.has_key(id2) == pre.has_key(id2) by {
                        if pre.has_key(id2) {
                            let w = pre.key_index(id2);
                            assert(pre.pair_at(w, id2));
                            assert(w != ii);
                            assert(self.pair_at(w, id2));
                            self.lemma_key_unique(id2, w, self.key_index(id2));
                        }
                        if self.has_key(id2) {
                            let w = self.key_index(id2);
                            assert(self.pair_at(w, id2));
                            assert(w != ii);
                            assert(pre.pair_at(w, id2));
                        }
                    }
                }
                return ;
            }
            i += 1;
        }
        self.pairs.push((id, 2));
        proof {
            let pre = *old(self);
            let ii = pre.pairs@.len() as int;
            assert forall|a: int, b: int| 0 <= a < b < self.pairs@.len() implies (
            #[trigger] self.pairs@[a]).0 != (#[trigger] self.pairs@[b]).0 by {
                if b == ii {
                    assert(!pre.pair_at(a, id));
                }
            }
            assert(self.wf());
            assert(self.pair_at(ii, id));
            self.lemma_key_unique(id, ii, self.key_index(id));
            assert forall|id2: u32| id2 != id implies self.count_of(id2) == pre.count_of(id2)
                && self.has_key(id2) == pre.has_key(id2) by {
                if pre.has_key(id2) {
                    let w = pre.key_index(id2);
                    assert(pre.pair_at(w, id2));
                    assert(self.pair_at(w, id2));
                    self.lemma_key_unique(id2, w, self.key_index(id2));
                }
                if self.has_key(id2) {
                    let w = self.key_index(id2);
                    assert(self.pair_at(w, id2));
                    assert(w != ii);
                    assert(pre.pair_at(w, id2));
                }
            }
        }
    }

    /// Record one link to inode `id` gone. A stored count above one drops by
    /// one; a count that would reach zero has its entry removed outright, so
    /// the id reads as the default one again; an untracked id stays
    /// untracked (the clamping policy). Every other id is untouched.
    pub fn decrement(&mut self, id: u32)
        requires
            old(self).wf(),
        ensures
            final(self).wf(),
            old(self).count_of(id) <= 1 ==> !final(self).has_key(id) && final(self).count_of(id)
                == 1,
            old(self).count_of(id) > 1 ==> final(self).has_key(id) && final(self).count_of(id)
                == old(self).count_of(id) - 1,
            forall|id2: u32|
                id2 != id ==> final(self).count_of(id2) == old(self).count_of(id2) && final(self).has_key(id2) == old(self).has_key(id2),
    {
        let n = self.pairs.len();
        let mut i: usize = 0;
        while i < n
            invariant
                n == self.pairs.len(),
                0 <= i <= n,
                self.wf(),
                *self == *old(self),
                forall|j: int| 0 <= j < i ==> !self.pair_at(j, id),
            decreases n - i,
        {
            if self.pairs[i].0 == id {
                let c = self.pairs[i].1;
                proof {
                    assert(self.pair_at(i as int, id));
                    old(self).lemma_key_unique(id, i as int, old(self).key_index(id));
                }
                if c <= 1 {
                    self.pairs.remove(i);
                    proof {
                        let pre = *old(self);
                        let ii = i as int;
                        assert(self.pairs@ =~= pre.pairs@.remove(ii));
                        assert forall|j: int| true implies !self.pair_at(j, id) by {
                            if self.pair_at(j, id) {
                                if j < ii {
                                    assert(pre.pair_at(j, id));
                                    pre.lemma_key_unique(id, j, ii);
                                } else {
                                    assert(pre.pair_at(j + 1, id));
                                    pre.lemma_key_unique(id, j + 1, ii);
                                }
                            }
                        }
                        assert forall|id2: u32| id2 != id implies self.count_of(id2)
                            == pre.count_of(id2) && self.has_key(id2) == pre.has_key(id2) by {
                            if pre.has_key(id2) {
                                let w = pre.key_index(id2);
                                assert(pre.pair_at(w, id2));
                                assert(w != ii);
                                if w < ii {
                                    assert(self.pair_at(w, id2));
                                    self.lemma_key_unique(id2, w, self.key_index(id2));
                                } else {
                                    assert(self.pair_at(w - 1, id2));
                                    self.lemma_key_unique(id2, w - 1, self.key_index(id2));
                                }
                            }
                            if self.has_key(id2) {
                                let w = self.key_index(id2);
                                assert(self.pair_at(w, id2));
                                if w < ii {
                                    assert(pre.pair_at(w, id2));
                                } else {
                                    assert(pre.pair_at(w + 1, id2));
                                }
                            }
                        }
                    }
                } else {
                    self.pairs[i] = (id, c - 1);
                    proof {
                        let pre = *old(self);
                        let ii = i as int;
                        assert(self.pairs@ =~= pre.pairs@.update(ii, (id, (c - 1) as u32)));
                        assert(self.pair_at(ii, id));
                        self.lemma_key_unique(id, ii, self.key_index(id));
                        assert forall|id2: u32| id2 != id implies self.count_of(id2)
                            == pre.count_of(id2) && self.has_key(id2) == pre.has_key(id2) by {
                            if pre.has_key(id2) {
                                let w = pre.key_index(id2);
                                assert(pre.pair_at(w, id2));
                                assert(w != ii);
                                assert(self.pair_at(w, id2));
                                self.lemma_key_unique(id2, w, self.key_index(id2));
                            }
                            if self.has_key(id2) {
                                let w = self.key_index(id2);
                                assert(self.pair_at(w, id2));
                                assert(w != ii);
                                assert(pre.pair_at(w, id2));
                            }
                        }
                    }
                }
                return ;
            }
            i += 1;
        }
    }
}

} // verus!
