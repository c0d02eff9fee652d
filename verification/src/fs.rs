//! The filesystem engine: a flat root directory mapping names to inodes,
//! each inode holding a byte sequence. Directory entries can be flagged
//! removed while the inode itself persists (deferred deletion), so several
//! names — and several open handles — may refer to one inode at once.

use vstd::prelude::*;

verus! {

/// One inode: its byte contents, and whether it is a directory.
pub struct FileNode {
    pub data: Vec<u8>,
    pub is_dir: bool,
}

/// One directory entry under the root: a name, the inode it resolves to,
/// and a deferred-deletion flag. A removed entry no longer resolves, but
/// stays in place as a tombstone.
pub struct DirEntry {
    pub name: String,
    pub inode_id: u32,
    pub removed: bool,
}

/// The whole filesystem state: inode `0` is the root directory, every
/// other inode is a regular file; `entries` is the root's entry list.
pub struct Filesystem {
    pub nodes: Vec<FileNode>,
    pub entries: Vec<DirEntry>,
}

/// What one entry contributes to the link count of inode `id`.
pub open spec fn live_contrib(e: DirEntry, id: u32) -> nat {
    if !e.removed && e.inode_id == id {
        1nat
    } else {
        0nat
    }
}

/// How many live (not removed) entries of `s` resolve to inode `id`.
pub open spec fn count_live(s: Seq<DirEntry>, id: u32) -> nat
    decreases s.len(),
{
    if s.len() == 0 {
        0
    } else {
        count_live(s.drop_last(), id) + live_contrib(s.last(), id)
    }
}

/// Appending an entry adds exactly its own contribution to each count.
pub proof fn lemma_count_live_push(s: Seq<DirEntry>, e: DirEntry, id: u32)
    ensures
        count_live(s.push(e), id) == count_live(s, id) + live_contrib(e, id),
{
    assert(s.push(e).drop_last() =~= s);
}

/// Replacing the entry at `i` adjusts each count by the difference of the
/// two entries' contributions.
pub proof fn lemma_count_live_update(s: Seq<DirEntry>, i: int, e: DirEntry, id: u32)
    requires
        0 <= i < s.len(),
    ensures
        count_live(s.update(i, e), id) + live_contrib(s[i], id) == count_live(s, id)
            + live_contrib(e, id),
    decreases s.len(),
{
    if i == s.len() - 1 {
        assert(s.update(i, e).drop_last() =~= s.drop_last());
        assert(s.update(i, e).last() == e);
    } else {
        assert(s.update(i, e).drop_last() =~= s.drop_last().update(i, e));
        assert(s.update(i, e).last() == s.last());
        lemma_count_live_update(s.drop_last(), i, e, id);
    }
}

/// A live entry at `i` resolving to `id` makes the count at least one.
pub proof fn lemma_count_live_ge_one(s: Seq<DirEntry>, i: int, id: u32)
    requires
        0 <= i < s.len(),
        live_contrib(s[i], id) == 1,
    ensures
        count_live(s, id) >= 1,
    decreases s.len(),
{
    if i < s.len() - 1 {
        lemma_count_live_ge_one(s.drop_last(), i, id);
    }
}

/// Two distinct live entries resolving to `id` make the count at least two.
pub proof fn lemma_count_live_ge_two(s: Seq<DirEntry>, i: int, j: int, id: u32)
    requires
        0 <= i < j < s.len(),
        live_contrib(s[i], id) == 1,
        live_contrib(s[j], id) == 1,
    ensures
        count_live(s, id) >= 2,
    decreases s.len(),
{
    if j == s.len() - 1 {
        lemma_count_live_ge_one(s.drop_last(), i, id);
    } else {
        lemma_count_live_ge_two(s.drop_last(), i, j, id);
    }
}

/// When no entry of `s` resolves to `id`, its count is zero.
pub proof fn lemma_count_live_zero(s: Seq<DirEntry>, id: u32)
    requires
        forall|i: int| 0 <= i < s.len() ==> live_contrib(#[trigger] s[i], id) == 0,
    ensures
        count_live(s, id) == 0,
    decreases s.len(),
{
    if s.len() > 0 {
        lemma_count_live_zero(s.drop_last(), id);
    }
}

/// The names of the live entries of `s`, in entry order.
pub open spec fn live_names(s: Seq<DirEntry>) -> Seq<Seq<char>>
    decreases s.len(),
{
    if s.len() == 0 {
        Seq::empty()
    } else {
        live_names(s.drop_last()) + (if !s.last().removed {
            seq![s.last().name@]
        } else {
            Seq::<Seq<char>>::empty()
        })
    }
}

/// How many bytes a read of at most `cap` bytes at `offset` returns:
/// whatever of the file lies at or after `offset`, capped at `cap`.
pub open spec fn chunk_len(data: Seq<u8>, offset: int, cap: int) -> int {
    if offset >= data.len() {
        0
    } else if data.len() - offset < cap {
        data.len() - offset
    } else {
        cap
    }
}

/// The bytes a read of at most `cap` bytes at `offset` returns.
pub open spec fn chunk_read(data: Seq<u8>, offset: int, cap: int) -> Seq<u8> {
    if offset >= data.len() {
        Seq::empty()
    } else {
        data.subrange(offset, offset + chunk_len(data, offset, cap))
    }
}

/// The file contents after writing `src` at `offset`: the write lands at
/// `offset..offset + src.len()`, the file grows as needed (any gap between
/// the old end and `offset` reads as zero bytes), and bytes outside the
/// written range keep their old values.
pub open spec fn write_at_spec(data: Seq<u8>, offset: int, src: Seq<u8>) -> Seq<u8> {
    let n = if data.len() >= offset + src.len() {
        data.len() as int
    } else {
        offset + src.len()
    };
    Seq::new(n as nat, |k: int|
        if offset <= k && k < offset + src.len() {
            src[k - offset]
        } else if k < data.len() {
            data[k]
        } else {
            0u8
        })
}

impl Filesystem {
    /// Well-formedness: the root directory exists as inode `0`, every other
    /// inode is a regular file, every entry points at a regular file, and no
    /// two live entries share a name.
    pub open spec fn wf(self) -> bool {
        &&& self.nodes.len() >= 1
        &&& self.nodes[0].is_dir
        &&& (forall|i: int| 1 <= i < self.nodes.len() ==> !(#[trigger] self.nodes[i]).is_dir)
        &&& (forall|i: int|
            0 <= i < self.entries.len() ==> 1 <= (#[trigger] self.entries[i]).inode_id
                < self.nodes.len())
        &&& (forall|i: int, j: int|
            0 <= i < j < self.entries.len() && !(#[trigger] self.entries[i]).removed
                && !(#[trigger] self.entries[j]).removed ==> self.entries[i].name@
                != self.entries[j].name@)
    }

    /// Whether `i` indexes a live entry named `name`.
    pub open spec fn live_at(self, i: int, name: Seq<char>) -> bool {
        &&& 0 <= i < self.entries.len()
        &&& !self.entries[i].removed
        &&& self.entries[i].name@ == name
    }

    /// Whether some live entry carries `name`, i.e. the name resolves.
    pub open spec fn has_live(self, name: Seq<char>) -> bool {
        exists|i: int| self.live_at(i, name)
    }

    /// The index of the live entry named `name` (unique when `wf`).
    pub open spec fn live_index(self, name: Seq<char>) -> int {
        choose|i: int| self.live_at(i, name)
    }

    /// The inode a name resolves to.
    pub open spec fn resolve(self, name: Seq<char>) -> u32
        recommends
            self.has_live(name),
    {
        self.entries[self.live_index(name)].inode_id
    }

    /// How many live names resolve to inode `id`.
    pub open spec fn live_links(self, id: u32) -> nat {
        count_live(self.entries@, id)
    }

    /// Whether some entry named `name` is flagged removed.
    pub open spec fn removed_spec(self, name: Seq<char>) -> bool {
        exists|i: int|
            0 <= i < self.entries.len() && (#[trigger] self.entries[i]).removed
                && self.entries[i].name@ == name
    }

    /// Two live entries with one name sit at one index.
    pub proof fn lemma_live_unique(self, name: Seq<char>, i: int, j: int)
        requires
            self.wf(),
            self.live_at(i, name),
            self.live_at(j, name),
        ensures
            i == j,
    {
    }

    /// A fresh filesystem: only the root directory, no entries.
    pub fn new() -> (r: Filesystem)
        ensures
            r.wf(),
            r.nodes@.len() == 1,
            r.entries@.len() == 0,
            forall|name: Seq<char>| !r.has_live(name),
            forall|name: Seq<char>| !r.removed_spec(name),
    {
        let mut nodes: Vec<FileNode> = Vec::new();
        nodes.push(FileNode { data: Vec::new(), is_dir: true });
        Filesystem { nodes, entries: Vec::new() }
    }

    /// Look a name up under the root: the inode of the live entry carrying
    /// it, if any.
    pub fn find(&self, name: &str) -> (r: Option<u32>)
        requires
            self.wf(),
        ensures
            match r {
                Some(id) => self.has_live(name@) && id == self.resolve(name@),
                None => !self.has_live(name@),
            },
    {
        let wanted: String = name.to_owned();
        let n = self.entries.len();
        let mut i: usize = 0;
        while i < n
            invariant
                n == self.entries.len(),
                0 <= i <= n,
                self.wf(),
                wanted@ == name@,
                forall|j: int| 0 <= j < i ==> !self.live_at(j, name@),
            decreases n - i,
        {
            if !self.entries[i].removed && self.entries[i].name == wanted {
                let id = self.entries[i].inode_id;
                proof {
                    assert(self.live_at(i as int, name@));
                    self.lemma_live_unique(name@, i as int, self.live_index(name@));
                }
                return Some(id);
            }
            i += 1;
        }
        None
    }

    /// Create a fresh, empty regular file under `name`. Fails (returning
    /// nothing and leaving the filesystem unchanged) exactly when the name
    /// already resolves; otherwise returns the new inode's id.
    pub fn create(&mut self, name: &str) -> (r: Option<u32>)
        requires
            old(self).wf(),
            old(self).nodes@.len() < u32::MAX,
        ensures
            final(self).wf(),
            old(self).has_live(name@) ==> r is None && *final(self) == *old(self),
            !old(self).has_live(name@) ==> {
                &&& r == Some(old(self).nodes@.len() as u32)
                &&& old(self).live_links(old(self).nodes@.len() as u32) == 0
                &&& final(self).nodes@.len() == old(self).nodes@.len() + 1
                &&& (forall|j: int|
                    0 <= j < old(self).nodes@.len() ==> final(self).nodes@[j] == old(
                        self,
                    ).nodes@[j])
                &&& final(self).nodes@.last().data@ == Seq::<u8>::empty()
                &&& !final(self).nodes@.last().is_dir
                &&& final(self).entries@.len() == old(self).entries@.len() + 1
                &&& (forall|j: int|
                    0 <= j < old(self).entries@.len() ==> final(self).entries@[j] == old(
                        self,
                    ).entries@[j])
                &&& final(self).entries@.last().name@ == name@
                &&& final(self).entries@.last().inode_id == old(self).nodes@.len() as u32
                &&& !final(self).entries@.last().removed
                &&& final(self).has_live(name@)
                &&& final(self).resolve(name@) == old(self).nodes@.len() as u32
                &&& final(self).live_links(old(self).nodes@.len() as u32) == 1
                &&& (forall|id2: u32|
                    id2 != old(self).nodes@.len() as u32 ==> final(self).live_links(id2) == old(
                        self,
                    ).live_links(id2))
                &&& (forall|other: Seq<char>|
                    other != name@ ==> final(self).has_live(other) == old(self).has_live(other))
                &&& (forall|other: Seq<char>|
                    other != name@ && old(self).has_live(other) ==> final(self).resolve(other)
                        == old(self).resolve(other))
            },
    {
        if self.find(name).is_some() {
            return None;
        }
        let id: u32 = self.nodes.len() as u32;
        self.nodes.push(FileNode { data: Vec::new(), is_dir: false });
        self.entries.push(DirEntry { name: name.to_owned(), inode_id: id, removed: false });
        proof {
            let pre = *old(self);
            let e = self.entries@.last();
            assert forall|a: int, b: int|
                0 <= a < b < self.entries@.len() && !(#[trigger] self.entries@[a]).removed && !(
                #[trigger] self.entries@[b]).removed implies self.entries@[a].name@
                != self.entries@[b].name@ by {
                if b == pre.entries@.len() {
                    assert(!pre.live_at(a, name@));
                }
            }
            assert(self.wf());
            assert(self.live_at(pre.entries@.len() as int, name@));
            self.lemma_live_unique(name@, pre.entries@.len() as int, self.live_index(name@));
            assert forall|i: int| 0 <= i < pre.entries@.len() implies live_contrib(
                #[trigger] pre.entries@[i],
                id,
            ) == 0 by {}
            lemma_count_live_zero(pre.entries@, id);
            assert(self.entries@ =~= pre.entries@.push(e));
            lemma_count_live_push(pre.entries@, e, id);
            assert forall|id2: u32| id2 != id implies final(self).live_links(id2) == pre.live_links(
                id2,
            ) by {
                lemma_count_live_push(pre.entries@, e, id2);
            }
            assert forall|other: Seq<char>| other != name@ implies final(self).has_live(other)
                == pre.has_live(other) && (pre.has_live(other) ==> final(self).resolve(other)
                == pre.resolve(other)) by {
                if pre.has_live(other) {
                    let w = pre.live_index(other);
                    assert(self.live_at(w, other));
                    self.lemma_live_unique(other, w, self.live_index(other));
                    pre.lemma_live_unique(other, w, pre.live_index(other));
                }
                if self.has_live(other) {
                    let w = self.live_index(other);
                    assert(pre.live_at(w, other));
                }
            }
        }
        Some(id)
    }

    /// Create a second directory entry `name` for the existing inode
    /// `target`. Fails exactly when `name` already resolves; on success the
    /// new name resolves to `target` and `target`'s live-name count grows by
    /// one, while everything else is untouched.
    pub fn create_link(&mut self, name: &str, target: u32) -> (r: Option<u32>)
        requires
            old(self).wf(),
            1 <= target < old(self).nodes@.len(),
        ensures
            final(self).wf(),
            old(self).has_live(name@) ==> r is None && *final(self) == *old(self),
            !old(self).has_live(name@) ==> {
                &&& r == Some(target)
                &&& final(self).nodes@ == old(self).nodes@
                &&& final(self).entries@.len() == old(self).entries@.len() + 1
                &&& (forall|j: int|
                    0 <= j < old(self).entries@.len() ==> final(self).entries@[j] == old(
                        self,
                    ).entries@[j])
                &&& final(self).entries@.last().name@ == name@
                &&& final(self).entries@.last().inode_id == target
                &&& !final(self).entries@.last().removed
                &&& final(self).has_live(name@)
                &&& final(self).resolve(name@) == target
                &&& final(self).live_links(target) == old(self).live_links(target) + 1
                &&& (forall|id2: u32|
                    id2 != target ==> final(self).live_links(id2) == old(self).live_links(id2))
                &&& (forall|other: Seq<char>|
                    other != name@ ==> final(self).has_live(other) == old(self).has_live(other))
                &&& (forall|other: Seq<char>|
                    other != name@ && old(self).has_live(other) ==> final(self).resolve(other)
                        == old(self).resolve(other))
            },
    {
        if self.find(name).is_some() {
            return None;
        }
        self.entries.push(DirEntry { name: name.to_owned(), inode_id: target, removed: false });
        proof {
            let pre = *old(self);
            let e = self.entries@.last();
            assert forall|a: int, b: int|
                0 <= a < b < self.entries@.len() && !(#[trigger] self.entries@[a]).removed && !(
                #[trigger] self.entries@[b]).removed implies self.entries@[a].name@
                != self.entries@[b].name@ by {
                if b == pre.entries@.len() {
                    assert(!pre.live_at(a, name@));
                }
            }
            assert(self.wf());
            assert(self.live_at(pre.entries@.len() as int, name@));
            self.lemma_live_unique(name@, pre.entries@.len() as int, self.live_index(name@));
            assert(self.entries@ =~= pre.entries@.push(e));
            lemma_count_live_push(pre.entries@, e, target);
            assert forall|id2: u32| id2 != target implies final(self).live_links(id2)
                == pre.live_links(id2) by {
                lemma_count_live_push(pre.entries@, e, id2);
            }
            assert forall|other: Seq<char>| other != name@ implies final(self).has_live(other)
                == pre.has_live(other) && (pre.has_live(other) ==> final(self).resolve(other)
                == pre.resolve(other)) by {
                if pre.has_live(other) {
                    let w = pre.live_index(other);
                    assert(self.live_at(w, other));
                    self.lemma_live_unique(other, w, self.live_index(other));
                    pre.lemma_live_unique(other, w, pre.live_index(other));
                }
                if self.has_live(other) {
                    let w = self.live_index(other);
                    assert(pre.live_at(w, other));
                }
            }
        }
        Some(target)
    }

    /// Flag the live entry carrying `name` as removed (deferred deletion):
    /// the name stops resolving, every other name is untouched, and the
    /// inode's live-name count drops by one. The inode itself stays.
    pub fn mark_removed(&mut self, name: &str)
        requires
            old(self).wf(),
            old(self).has_live(name@),
        ensures
            final(self).wf(),
            final(self).nodes@ == old(self).nodes@,
            final(self).entries@.len() == old(self).entries@.len(),
            !final(self).has_live(name@),
            final(self).removed_spec(name@),
            final(self).live_links(old(self).resolve(name@)) == old(self).live_links(
                old(self).resolve(name@),
            ) - 1,
            forall|id2: u32|
                id2 != old(self).resolve(name@) ==> final(self).live_links(id2) == old(
                    self,
                ).live_links(id2),
            forall|other: Seq<char>|
                other != name@ ==> final(self).has_live(other) == old(self).has_live(other),
            forall|other: Seq<char>|
                other != name@ && old(self).has_live(other) ==> final(self).resolve(other) == old(
                    self,
                ).resolve(other),
            forall|other: Seq<char>|
                other != name@ ==> final(self).removed_spec(other) == old(self).removed_spec(
                    other,
                ),
    {
        let wanted: String = name.to_owned();
        let n = self.entries.len();
        let mut i: usize = 0;
        while i < n
            invariant
                n == self.entries.len(),
                0 <= i <= n,
                self.wf(),
                *self == *old(self),
                wanted@ == name@,
                self.has_live(name@),
                forall|j: int| 0 <= j < i ==> !self.live_at(j, name@),
            decreases n - i,
        {
            if !self.entries[i].removed && self.entries[i].name == wanted {
                let id = self.entries[i].inode_id;
                let fresh_name = self.entries[i].name.clone();
                proof {
                    let pre = *old(self);
                    assert(pre.live_at(i as int, name@));
                    pre.lemma_live_unique(name@, i as int, pre.live_index(name@));
                }
                self.entries[i] = DirEntry { name: fresh_name, inode_id: id, removed: true };
                proof {
                    let pre = *old(self);
                    let ii = i as int;
                    assert(self.entries@ =~= pre.entries@.update(
                        ii,
                        (DirEntry { name: pre.entries@[ii].name, inode_id: id, removed: true }),
                    ));
                    assert forall|id2: u32| true implies final(self).live_links(id2) + live_contrib(
                        pre.entries@[ii],
                        id2,
                    ) == pre.live_links(id2) + live_contrib(self.entries@[ii], id2) by {
                        lemma_count_live_update(pre.entries@, ii, self.entries@[ii], id2);
                    }
                    assert(live_contrib(pre.entries@[ii], id) == 1);
                    assert forall|j: int| true implies !self.live_at(j, name@) by {
                        if self.live_at(j, name@) {
                            assert(j != ii);
                            assert(pre.live_at(j, name@));
                            pre.lemma_live_unique(name@, j, ii);
                        }
                    }
                    assert forall|other: Seq<char>| other != name@ implies final(self).has_live(
                        other,
                    ) == pre.has_live(other) && (pre.has_live(other) ==> final(self).resolve(other)
                        == pre.resolve(other)) && final(self).removed_spec(other)
                        == pre.removed_spec(other) by {
                        if pre.has_live(other) {
                            let w = pre.live_index(other);
                            assert(pre.live_at(w, other));
                            assert(w != ii);
                            assert(self.live_at(w, other));
                            self.lemma_live_unique(other, w, self.live_index(other));
                            pre.lemma_live_unique(other, w, pre.live_index(other));
                        }
                        if self.has_live(other) {
                            let w = self.live_index(other);
                            assert(self.live_at(w, other));
                            assert(w != ii);
                            assert(pre.live_at(w, other));
                        }
                        if pre.removed_spec(other) {
                            let w = choose|k: int|
                                0 <= k < pre.entries@.len() && (#[trigger] pre.entries@[k]).removed
                                    && pre.entries@[k].name@ == other;
                            assert(w != ii);
                            assert(0 <= w < self.entries@.len() && self.entries@[w].removed
                                && self.entries@[w].name@ == other);
                        }
                        if self.removed_spec(other) {
                            let w = choose|k: int|
                                0 <= k < self.entries@.len() && (#[trigger] self.entries@[k]).removed
                                    && self.entries@[k].name@ == other;
                            assert(w != ii);
                            assert(0 <= w < pre.entries@.len() && pre.entries@[w].removed
                                && pre.entries@[w].name@ == other);
                        }
                    }
                    assert(self.entries@[ii].removed && self.entries@[ii].name@ == name@);
                }
                return ;
            }
            i += 1;
        }
        proof {
            let w = old(self).live_index(name@);
            assert(old(self).live_at(w, name@));
        }
    }

    /// Whether an entry named `name` has been flagged removed.
    pub fn is_removed(&self, name: &str) -> (r: bool)
        ensures
            r == self.removed_spec(name@),
    {
        let wanted: String = name.to_owned();
        let n = self.entries.len();
        let mut i: usize = 0;
        while i < n
            invariant
                n == self.entries.len(),
                0 <= i <= n,
                wanted@ == name@,
                forall|j: int|
                    0 <= j < i ==> !((#[trigger] self.entries@[j]).removed && self.entries@[j].name@
                        == name@),
            decreases n - i,
        {
            if self.entries[i].removed && self.entries[i].name == wanted {
                return true;
            }
            i += 1;
        }
        false
    }

    /// Whether more than one live name currently resolves to inode `id`.
    pub fn is_link_inode(&self, id: u32) -> (r: bool)
        ensures
            r == (self.live_links(id) >= 2),
    {
        let n = self.entries.len();
        let mut i: usize = 0;
        let mut cnt: usize = 0;
        while i < n
            invariant
                n == self.entries.len(),
                0 <= i <= n,
                cnt <= i,
                cnt == count_live(self.entries@.take(i as int), id),
            decreases n - i,
        {
            proof {
                assert(self.entries@.take(i + 1).drop_last() =~= self.entries@.take(i as int));
                assert(self.entries@.take(i + 1).last() == self.entries@[i as int]);
            }
            if !self.entries[i].removed && self.entries[i].inode_id == id {
                cnt += 1;
            }
            i += 1;
        }
        proof {
            assert(self.entries@.take(n as int) =~= self.entries@);
        }
        cnt >= 2
    }

    /// Reset the contents of inode `id` to empty; nothing else changes.
    pub fn clear(&mut self, id: u32)
        requires
            old(self).wf(),
            1 <= id < old(self).nodes@.len(),
        ensures
            final(self).wf(),
            final(self).entries@ == old(self).entries@,
            final(self).nodes@.len() == old(self).nodes@.len(),
            final(self).nodes@[id as int].data@ == Seq::<u8>::empty(),
            final(self).nodes@[id as int].is_dir == old(self).nodes@[id as int].is_dir,
            forall|j: int|
                0 <= j < old(self).nodes@.len() && j != id ==> final(self).nodes@[j] == old(
                    self,
                ).nodes@[j],
    {
        let idx = id as usize;
        let dir = self.nodes[idx].is_dir;
        self.nodes[idx] = FileNode { data: Vec::new(), is_dir: dir };
    }

    /// Read up to `cap` bytes of inode `id` starting at byte `offset`:
    /// returns exactly the bytes of the file that lie there, which is fewer
    /// than `cap` only at end of data.
    pub fn read_at(&self, id: u32, offset: usize, cap: usize) -> (r: Vec<u8>)
        requires
            self.wf(),
            id < self.nodes@.len(),
        ensures
            r@ == chunk_read(self.nodes@[id as int].data@, offset as int, cap as int),
            r@.len() == chunk_len(self.nodes@[id as int].data@, offset as int, cap as int),
            r@.len() != 0 ==> offset + r@.len() <= self.nodes@[id as int].data@.len()
                <= usize::MAX,
    {
        let idx = id as usize;
        let len = self.nodes[idx].data.len();
        let n: usize = if offset >= len {
            0
        } else if len - offset < cap {
            len - offset
        } else {
            cap
        };
        if n == 0 {
            proof {
                if offset < self.nodes@[id as int].data@.len() {
                    assert(chunk_read(self.nodes@[id as int].data@, offset as int, cap as int)
                        =~= Seq::<u8>::empty());
                }
            }
            return Vec::new();
        }
        let mut out: Vec<u8> = Vec::new();
        let mut k: usize = 0;
        while k < n
            invariant
                n == chunk_len(self.nodes@[id as int].data@, offset as int, cap as int),
                n >= 1,
                offset + n <= self.nodes@[id as int].data@.len(),
                offset + n <= usize::MAX,
                idx == id as usize,
                id < self.nodes@.len(),
                0 <= k <= n,
                out@ =~= self.nodes@[id as int].data@.subrange(
                    offset as int,
                    offset as int + k as int,
                ),
            decreases n - k,
        {
            let b = self.nodes[idx].data[offset + k];
            out.push(b);
            proof {
                assert(out@ =~= self.nodes@[id as int].data@.subrange(
                    offset as int,
                    offset as int + k as int + 1,
                ));
            }
            k += 1;
        }
        out
    }

    /// Write all of `src` into inode `id` at byte `offset`, growing the file
    /// as needed (a gap beyond the old end reads as zero bytes). The engine
    /// always transfers the full source; the byte count returned equals
    /// `src.len()`.
    pub fn write_at(&mut self, id: u32, offset: usize, src: &Vec<u8>) -> (r: usize)
        requires
            old(self).wf(),
            1 <= id < old(self).nodes@.len(),
            offset + src@.len() <= usize::MAX,
        ensures
            r == src@.len(),
            final(self).wf(),
            final(self).entries@ == old(self).entries@,
            final(self).nodes@.len() == old(self).nodes@.len(),
            final(self).nodes@[id as int].data@ == write_at_spec(
                old(self).nodes@[id as int].data@,
                offset as int,
                src@,
            ),
            final(self).nodes@[id as int].is_dir == old(self).nodes@[id as int].is_dir,
            forall|j: int|
                0 <= j < old(self).nodes@.len() && j != id ==> final(self).nodes@[j] == old(
                    self,
                ).nodes@[j],
    {
        let idx = id as usize;
        let dir = self.nodes[idx].is_dir;
        let old_len = self.nodes[idx].data.len();
        let end = offset + src.len();
        let new_len: usize = if old_len >= end {
            old_len
        } else {
            end
        };
        let ghost target = write_at_spec(self.nodes@[id as int].data@, offset as int, src@);
        let mut out: Vec<u8> = Vec::new();
        let mut k: usize = 0;
        while k < new_len
            invariant
                idx == id as usize,
                id < self.nodes@.len(),
                end == offset + src@.len(),
                new_len == target.len(),
                old_len == self.nodes@[id as int].data@.len(),
                target == write_at_spec(self.nodes@[id as int].data@, offset as int, src@),
                0 <= k <= new_len,
                out@.len() == k,
                forall|m: int| 0 <= m < k ==> out@[m] == target[m],
            decreases new_len - k,
        {
            let b: u8 = if offset <= k && k < end {
                src[k - offset]
            } else if k < old_len {
                self.nodes[idx].data[k]
            } else {
                0
            };
            out.push(b);
            k += 1;
        }
        proof {
            assert(out@ =~= target);
        }
        self.nodes[idx] = FileNode { data: out, is_dir: dir };
        src.len()
    }

    /// The names of all live entries under the root, in entry order.
    pub fn ls(&self) -> (r: Vec<String>)
        ensures
            r.deep_view() == live_names(self.entries@),
    {
        let n = self.entries.len();
        let mut out: Vec<String> = Vec::new();
        let mut i: usize = 0;
        while i < n
            invariant
                n == self.entries.len(),
                0 <= i <= n,
                out.deep_view() == live_names(self.entries@.take(i as int)),
            decreases n - i,
        {
            proof {
                assert(self.entries@.take(i + 1).drop_last() =~= self.entries@.take(i as int));
                assert(self.entries@.take(i + 1).last() == self.entries@[i as int]);
            }
            if !self.entries[i].removed {
                let name = self.entries[i].name.clone();
                out.push(name);
                proof {
                    assert(out.deep_view() =~= live_names(self.entries@.take(i + 1)));
                }
            } else {
                proof {
                    assert(out.deep_view() =~= live_names(self.entries@.take(i + 1)));
                }
            }
            i += 1;
        }
        proof {
            assert(self.entries@.take(n as int) =~= self.entries@);
        }
        out
    }
}

} // verus!
