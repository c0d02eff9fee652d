//! Open-file objects and the name-based operations of the layer: opening
//! (with create/truncate flags), hard-linking, unlinking, and listing.
//!
//! An open-file object is one kernel-side open instance of a file: fixed
//! readable/writable flags decided at open time, a private byte cursor
//! starting at zero, and the inode it targets. Two objects on one inode
//! keep independent cursors.

use vstd::prelude::*;
use crate::fs::{Filesystem, chunk_len, chunk_read, write_at_spec};
use crate::table::LinkCountTable;
use crate::laws::consistent;

verus! {

/// Open-flag bit: write-only access.
pub const WRONLY: u32 = 1;

/// Open-flag bit: read-write access.
pub const RDWR: u32 = 2;

/// Open-flag bit: create the file if the name is missing (and truncate it
/// if it exists).
pub const CREATE: u32 = 512;

/// Open-flag bit: truncate the file to length zero on open.
pub const TRUNC: u32 = 1024;

/// The flag set handed to an open request. Read-only is the default
/// (no bits set).
#[derive(Clone, Copy, PartialEq, Eq, Structural, Debug)]
pub struct OpenFlags {
    pub bits: u32,
}

impl OpenFlags {
    /// Whether every bit of `mask` is set.
    pub open spec fn spec_contains(self, mask: u32) -> bool {
        self.bits & mask == mask
    }

    /// The (readable, writable) pair the flag set decodes to: no
    /// access-mode bit means read-only; the write-only bit wins over
    /// read-write; anything else with an access-mode bit is read-write.
    /// Malformed combinations resolve by this precedence, never fail.
    pub open spec fn read_write_spec(self) -> (bool, bool) {
        if self.bits & WRONLY == 0 && self.bits & RDWR == 0 {
            (true, false)
        } else if self.bits & WRONLY == WRONLY {
            (false, true)
        } else {
            (true, true)
        }
    }

    /// A flag set from raw bits.
    pub fn from_bits(bits: u32) -> (r: OpenFlags)
        ensures
            r.bits == bits,
    {
        OpenFlags { bits }
    }

    /// The empty (read-only) flag set.
    pub fn empty() -> (r: OpenFlags)
        ensures
            r.bits == 0,
    {
        OpenFlags { bits: 0 }
    }

    /// Whether every bit of `mask` is set.
    pub fn contains(&self, mask: u32) -> (r: bool)
        ensures
            r == self.spec_contains(mask),
    {
        self.bits & mask == mask
    }

    /// Decode the flag set to its (readable, writable) pair.
    pub fn read_write(&self) -> (r: (bool, bool))
        ensures
            r == self.read_write_spec(),
    {
        if self.bits & WRONLY == 0 && self.bits & RDWR == 0 {
            (true, false)
        } else if self.bits & WRONLY == WRONLY {
            (false, true)
        } else {
            (true, true)
        }
    }
}

/// A scatter/gather buffer: an ordered sequence of independent byte
/// ranges used by one read or write call.
pub struct UserBuffer {
    pub buffers: Vec<Vec<u8>>,
}

impl View for UserBuffer {
    type V = Seq<Seq<u8>>;

    open spec fn view(&self) -> Seq<Seq<u8>> {
        Seq::new(self.buffers@.len(), |i: int| self.buffers@[i]@)
    }
}

/// The total length of a gather buffer's ranges.
pub open spec fn total_len(bufs: Seq<Seq<u8>>) -> int
    decreases bufs.len(),
{
    if bufs.len() == 0 {
        0
    } else {
        bufs[0].len() + total_len(bufs.skip(1))
    }
}

pub proof fn lemma_total_len_nonneg(bufs: Seq<Seq<u8>>)
    ensures
        total_len(bufs) >= 0,
    decreases bufs.len(),
{
    if bufs.len() > 0 {
        lemma_total_len_nonneg(bufs.skip(1));
    }
}

/// What one scatter read does: each range in order is filled from the
/// cursor, which advances by the bytes actually found there; the first
/// range that gets nothing stops the call, leaving it and every later
/// range untouched. Yields the ranges after the call and the final cursor.
pub open spec fn scatter_read(data: Seq<u8>, offset: int, bufs: Seq<Seq<u8>>) -> (Seq<Seq<u8>>, int)
    decreases bufs.len(),
{
    if bufs.len() == 0 {
        (bufs, offset)
    } else {
        let n = chunk_len(data, offset, bufs[0].len() as int);
        if n == 0 {
            (bufs, offset)
        } else {
            let b0 = chunk_read(data, offset, bufs[0].len() as int) + bufs[0].skip(n);
            let rest = scatter_read(data, offset + n, bufs.skip(1));
            (seq![b0] + rest.0, rest.1)
        }
    }
}

/// What one gather write does: each range in order is written in full at
/// the cursor, which advances by that range's length. Yields the file
/// contents after the call and the final cursor.
pub open spec fn gather_write(data: Seq<u8>, offset: int, bufs: Seq<Seq<u8>>) -> (Seq<u8>, int)
    decreases bufs.len(),
{
    if bufs.len() == 0 {
        (data, offset)
    } else {
        gather_write(write_at_spec(data, offset, bufs[0]), offset + bufs[0].len(), bufs.skip(1))
    }
}

/// A gather write moves the cursor by exactly the total gathered length.
pub proof fn lemma_gather_write_offset(data: Seq<u8>, offset: int, bufs: Seq<Seq<u8>>)
    ensures
        gather_write(data, offset, bufs).1 == offset + total_len(bufs),
    decreases bufs.len(),
{
    if bufs.len() > 0 {
        lemma_gather_write_offset(
            write_at_spec(data, offset, bufs[0]),
            offset + bufs[0].len(),
            bufs.skip(1),
        );
    }
}

/// The mode a status record reports: directory or regular file.
#[derive(Clone, Copy, PartialEq, Eq, Structural, Debug)]
pub enum StatMode {
    Dir,
    File,
}

/// A file status record: device id (always zero on this single-device
/// system), inode id, mode, link count, and reserved padding.
pub struct Stat {
    pub dev: u64,
    pub ino: u64,
    pub mode: StatMode,
    pub nlink: u32,
    pub pad: [u64; 7],
}

/// The mutable half of an open-file object: the byte cursor and the inode
/// the handle targets. Accessed under exclusive access (`&mut`).
pub struct OSInodeInner {
    pub offset: usize,
    pub inode: u32,
}

/// One open instance of a file: fixed access flags and a private cursor
/// over a shared inode.
pub struct OSInode {
    pub readable: bool,
    pub writable: bool,
    pub inner: OSInodeInner,
}

impl OSInode {
    /// Wrap inode `inode` with cursor zero and the given fixed access
    /// flags. No I/O is performed.
    pub fn new(readable: bool, writable: bool, inode: u32) -> (r: OSInode)
        ensures
            r.readable == readable,
            r.writable == writable,
            r.inner.offset == 0,
            r.inner.inode == inode,
    {
        OSInode { readable, writable, inner: OSInodeInner { offset: 0, inode } }
    }

    /// Whether this handle was opened readable.
    pub fn readable(&self) -> (r: bool)
        ensures
            r == self.readable,
    {
        self.readable
    }

    /// Whether this handle was opened writable.
    pub fn writable(&self) -> (r: bool)
        ensures
            r == self.writable,
    {
        self.writable
    }

    /// Whether the given name has been flagged removed (deferred deletion).
    pub fn is_deleted(&self, fs: &Filesystem, name: &str) -> (r: bool)
        ensures
            r == fs.removed_spec(name@),
    {
        fs.is_removed(name)
    }

    /// Whether more than one live name currently resolves to this handle's
    /// inode (independent of the link-count table).
    pub fn is_link(&self, fs: &Filesystem) -> (r: bool)
        ensures
            r == (fs.live_links(self.inner.inode) >= 2),
    {
        fs.is_link_inode(self.inner.inode)
    }

    /// Build the status record for this handle: device zero, the inode's
    /// id, its directory/regular-file mode, and the link count the table
    /// reports (the default one when untracked).
    pub fn stat(&self, fs: &Filesystem, table: &LinkCountTable) -> (r: Option<Stat>)
        requires
            fs.wf(),
            table.wf(),
            self.inner.inode < fs.nodes@.len(),
        ensures
            r is Some,
            (r matches Some(st) ==> {
                &&& st.dev == 0
                &&& st.ino == self.inner.inode as u64
                &&& st.mode == (if fs.nodes@[self.inner.inode as int].is_dir {
                    StatMode::Dir
                } else {
                    StatMode::File
                })
                &&& st.nlink == table.count_of(self.inner.inode)
                &&& (forall|k: int| 0 <= k < 7 ==> st.pad@[k] == 0)
            }),
    {
        let mode = if fs.nodes[self.inner.inode as usize].is_dir {
            StatMode::Dir
        } else {
            StatMode::File
        };
        let nlink = table.count(self.inner.inode);
        Some(
            Stat {
                dev: 0,
                ino: self.inner.inode as u64,
                mode,
                nlink,
                pad: [0u64, 0u64, 0u64, 0u64, 0u64, 0u64, 0u64],
            },
        )
    }

    /// Read the whole rest of the file from the current cursor, in
    /// fixed-size rounds, advancing the cursor by the bytes each round
    /// actually returns, until a round returns nothing: yields everything
    /// from the cursor to the end of data and parks the cursor there. A
    /// cursor already past the end (after a concurrent truncation) reads
    /// nothing and stays put.
    #[verifier::loop_isolation(false)]
    pub fn read_all(&mut self, fs: &Filesystem) -> (r: Vec<u8>)
        requires
            fs.wf(),
            old(self).inner.inode < fs.nodes@.len(),
        ensures
            final(self).readable == old(self).readable,
            final(self).writable == old(self).writable,
            final(self).inner.inode == old(self).inner.inode,
            old(self).inner.offset <= fs.nodes@[old(self).inner.inode as int].data@.len() ==> {
                &&& r@ == fs.nodes@[old(self).inner.inode as int].data@.skip(
                    old(self).inner.offset as int,
                )
                &&& final(self).inner.offset == fs.nodes@[old(self).inner.inode as int].data@.len()
            },
            old(self).inner.offset > fs.nodes@[old(self).inner.inode as int].data@.len() ==> {
                &&& r@ == Seq::<u8>::empty()
                &&& final(self).inner.offset == old(self).inner.offset
            },
    {
        let id = self.inner.inode;
        let ghost data = fs.nodes@[id as int].data@;
        let ghost off0 = old(self).inner.offset as int;
        let mut v: Vec<u8> = Vec::new();
        loop
            invariant
                fs.wf(),
                id < fs.nodes@.len(),
                id == self.inner.inode,
                data == fs.nodes@[id as int].data@,
                off0 == old(self).inner.offset as int,
                self.readable == old(self).readable,
                self.writable == old(self).writable,
                off0 <= data.len() ==> off0 <= self.inner.offset <= data.len() && v@
                    == data.subrange(off0, self.inner.offset as int),
                off0 > data.len() ==> self.inner.offset as int == off0 && v@ == Seq::<u8>::empty(),
            decreases data.len() - self.inner.offset,
        {
            let chunk = fs.read_at(id, self.inner.offset, 512);
            let n = chunk.len();
            if n == 0 {
                proof {
                    if off0 <= data.len() {
                        assert(self.inner.offset as int == data.len() as int);
                        assert(v@ =~= data.skip(off0));
                    }
                }
                return v;
            }
            let mut chunk2 = chunk;
            v.append(&mut chunk2);
            proof {
                assert(data.subrange(off0, self.inner.offset as int) + chunk_read(
                    data,
                    self.inner.offset as int,
                    512,
                ) =~= data.subrange(off0, self.inner.offset + n as int));
            }
            self.inner.offset = self.inner.offset + n;
        }
    }

    /// Scatter read: fill each destination range in order from the cursor,
    /// advancing it by the bytes each round actually returns; stop at the
    /// first range that gets nothing, leaving it and the rest untouched.
    /// Returns the bytes transferred — exactly how far the cursor moved.
    #[verifier::loop_isolation(false)]
    pub fn read(&mut self, fs: &Filesystem, buf: &mut UserBuffer) -> (r: usize)
        requires
            fs.wf(),
            old(self).inner.inode < fs.nodes@.len(),
        ensures
            final(self).readable == old(self).readable,
            final(self).writable == old(self).writable,
            final(self).inner.inode == old(self).inner.inode,
            ({
                let res = scatter_read(
                    fs.nodes@[old(self).inner.inode as int].data@,
                    old(self).inner.offset as int,
                    old(buf)@,
                );
                &&& final(buf)@ == res.0
                &&& final(self).inner.offset == res.1
                &&& r == res.1 - old(self).inner.offset
            }),
    {
        let id = self.inner.inode;
        let ghost data = fs.nodes@[id as int].data@;
        let ghost off0 = old(self).inner.offset as int;
        let ghost bufs0 = old(buf)@;
        let ghost target = scatter_read(data, off0, bufs0);
        let count = buf.buffers.len();
        let mut total: usize = 0;
        let mut i: usize = 0;
        proof {
            assert(bufs0.skip(0) =~= bufs0);
            assert(buf@.take(0) =~= Seq::<Seq<u8>>::empty());
            assert(buf@.take(0) + scatter_read(data, off0, bufs0).0 =~= scatter_read(
                data,
                off0,
                bufs0,
            ).0);
        }
        while i < count
            invariant
                fs.wf(),
                id < fs.nodes@.len(),
                id == self.inner.inode,
                data == fs.nodes@[id as int].data@,
                off0 == old(self).inner.offset as int,
                bufs0 == old(buf)@,
                target == scatter_read(data, off0, bufs0),
                self.readable == old(self).readable,
                self.writable == old(self).writable,
                count == buf.buffers.len(),
                bufs0.len() == count,
                0 <= i <= count,
                forall|j: int| i <= j < count ==> buf@[j] == bufs0[j],
                off0 <= self.inner.offset,
                total == self.inner.offset - off0,
                target == ({
                    let rest = scatter_read(data, self.inner.offset as int, bufs0.skip(i as int));
                    (buf@.take(i as int) + rest.0, rest.1)
                }),
            decreases count - i,
        {
            let ghost buf_pre = buf@;
            let ghost off_pre = self.inner.offset as int;
            let cap = buf.buffers[i].len();
            let chunk = fs.read_at(id, self.inner.offset, cap);
            let n = chunk.len();
            proof {
                assert(bufs0.skip(i as int)[0] == bufs0[i as int]);
                assert(bufs0[i as int].len() == cap);
            }
            if n == 0 {
                proof {
                    assert(scatter_read(data, off_pre, bufs0.skip(i as int)) == (
                        bufs0.skip(i as int),
                        off_pre,
                    ));
                    assert(buf@.take(i as int) + bufs0.skip(i as int) =~= buf@);
                }
                return total;
            }
            let mut new_b = chunk;
            let mut j = n;
            while j < cap
                invariant
                    n <= j <= cap,
                    0 <= i < count,
                    count == buf.buffers.len(),
                    cap == buf.buffers@[i as int]@.len(),
                    n == chunk_len(data, off_pre, cap as int),
                    new_b@ == chunk_read(data, off_pre, cap as int) + buf.buffers@[
                        i as int
                    ]@.subrange(n as int, j as int),
                decreases cap - j,
            {
                let b = buf.buffers[i][j];
                new_b.push(b);
                proof {
                    assert(new_b@ =~= chunk_read(data, off_pre, cap as int) + buf.buffers@[
                        i as int
                    ]@.subrange(n as int, j + 1));
                }
                j += 1;
            }
            let ghost b0 = new_b@;
            buf.buffers[i] = new_b;
            self.inner.offset = self.inner.offset + n;
            total = total + n;
            proof {
                let ii = i as int;
                assert(buf_pre[ii].skip(n as int) =~= buf_pre[ii].subrange(n as int, cap as int));
                assert(b0 == chunk_read(data, off_pre, cap as int) + buf_pre[ii].skip(n as int));
                assert(bufs0.skip(ii).skip(1) =~= bufs0.skip(ii + 1));
                assert(scatter_read(data, off_pre, bufs0.skip(ii)) == (
                    seq![b0] + scatter_read(data, off_pre + n, bufs0.skip(ii + 1)).0,
                    scatter_read(data, off_pre + n, bufs0.skip(ii + 1)).1,
                ));
                assert(buf@ =~= buf_pre.update(ii, b0));
                assert(buf@.take(ii + 1) =~= buf_pre.take(ii) + seq![b0]);
                assert(buf_pre.take(ii) + (seq![b0] + scatter_read(
                    data,
                    off_pre + n,
                    bufs0.skip(ii + 1),
                ).0) =~= buf@.take(ii + 1) + scatter_read(data, off_pre + n, bufs0.skip(ii + 1)).0);
            }
            i += 1;
        }
        proof {
            assert(bufs0.skip(count as int) =~= Seq::<Seq<u8>>::empty());
            assert(buf@.take(count as int) + scatter_read(
                data,
                self.inner.offset as int,
                bufs0.skip(count as int),
            ).0 =~= buf@);
        }
        total
    }

    /// Gather write: write each source range in full at the cursor,
    /// advancing it by that range's length; the engine always transfers
    /// each range completely. Returns the bytes transferred — exactly how
    /// far the cursor moved, the total gathered length.
    #[verifier::loop_isolation(false)]
    pub fn write(&mut self, fs: &mut Filesystem, buf: &UserBuffer) -> (r: usize)
        requires
            old(fs).wf(),
            1 <= old(self).inner.inode < old(fs).nodes@.len(),
            old(self).inner.offset + total_len(buf@) <= usize::MAX,
        ensures
            final(fs).wf(),
            final(self).readable == old(self).readable,
            final(self).writable == old(self).writable,
            final(self).inner.inode == old(self).inner.inode,
            final(fs).entries@ == old(fs).entries@,
            final(fs).nodes@.len() == old(fs).nodes@.len(),
            forall|j: int|
                0 <= j < old(fs).nodes@.len() && j != old(self).inner.inode
                    ==> final(fs).nodes@[j] == old(fs).nodes@[j],
            final(fs).nodes@[old(self).inner.inode as int].is_dir == old(fs).nodes@[old(
                self,
            ).inner.inode as int].is_dir,
            ({
                let res = gather_write(
                    old(fs).nodes@[old(self).inner.inode as int].data@,
                    old(self).inner.offset as int,
                    buf@,
                );
                &&& final(fs).nodes@[old(self).inner.inode as int].data@ == res.0
                &&& final(self).inner.offset == res.1
                &&& r == res.1 - old(self).inner.offset
                &&& r == total_len(buf@)
            }),
    {
        let id = self.inner.inode;
        let ghost data0 = fs.nodes@[id as int].data@;
        let ghost off0 = old(self).inner.offset as int;
        let ghost bufs = buf@;
        let ghost target = gather_write(data0, off0, bufs);
        let count = buf.buffers.len();
        let mut total: usize = 0;
        let mut i: usize = 0;
        proof {
            lemma_gather_write_offset(data0, off0, bufs);
            assert(bufs.skip(0) =~= bufs);
        }
        while i < count
            invariant
                fs.wf(),
                1 <= id < fs.nodes@.len(),
                id == self.inner.inode,
                off0 == old(self).inner.offset as int,
                bufs == buf@,
                count == buf.buffers.len(),
                bufs.len() == count,
                0 <= i <= count,
                self.readable == old(self).readable,
                self.writable == old(self).writable,
                fs.nodes@.len() == old(fs).nodes@.len(),
                fs.entries@ == old(fs).entries@,
                forall|j: int|
                    0 <= j < old(fs).nodes@.len() && j != id ==> fs.nodes@[j] == old(fs).nodes@[j],
                fs.nodes@[id as int].is_dir == old(fs).nodes@[id as int].is_dir,
                off0 <= self.inner.offset,
                total == self.inner.offset - off0,
                self.inner.offset + total_len(bufs.skip(i as int)) <= usize::MAX,
                target == gather_write(
                    fs.nodes@[id as int].data@,
                    self.inner.offset as int,
                    bufs.skip(i as int),
                ),
            decreases count - i,
        {
            let ghost off_pre = self.inner.offset as int;
            let ghost data_pre = fs.nodes@[id as int].data@;
            proof {
                assert(bufs.skip(i as int)[0] == bufs[i as int]);
                lemma_total_len_nonneg(bufs.skip(i as int + 1));
                assert(bufs.skip(i as int).skip(1) =~= bufs.skip(i as int + 1));
            }
            let len_i = buf.buffers[i].len();
            let n = fs.write_at(id, self.inner.offset, &buf.buffers[i]);
            self.inner.offset = self.inner.offset + n;
            total = total + n;
            proof {
                assert(gather_write(data_pre, off_pre, bufs.skip(i as int)) == gather_write(
                    write_at_spec(data_pre, off_pre, bufs[i as int]),
                    off_pre + len_i,
                    bufs.skip(i as int + 1),
                ));
            }
            i += 1;
        }
        proof {
            assert(bufs.skip(count as int) =~= Seq::<Seq<u8>>::empty());
        }
        total
    }
}

/// Open a file under `name` as the flags ask: with the create bit, an
/// existing file is truncated in place (same inode, same links) and a
/// missing one is created fresh; without it, a missing name yields nothing
/// and the truncate bit empties an existing file. A produced handle always
/// carries the decoded access flags, cursor zero, and the resolved inode.
/// A failed open leaves no state behind. Any well-formed link-count table
/// consistent with the directory before stays consistent after.
pub fn open_file(fs: &mut Filesystem, name: &str, flags: OpenFlags) -> (r: Option<OSInode>)
    requires
        old(fs).wf(),
        flags.spec_contains(CREATE) && !old(fs).has_live(name@) ==> old(fs).nodes@.len()
            < u32::MAX,
    ensures
        final(fs).wf(),
        (r matches Some(o) ==> o.readable == flags.read_write_spec().0 && o.writable
            == flags.read_write_spec().1 && o.inner.offset == 0 && o.inner.inode
            < final(fs).nodes@.len()),
        flags.spec_contains(CREATE) && old(fs).has_live(name@) ==> {
            &&& r is Some
            &&& (r matches Some(o) ==> o.inner.inode == old(fs).resolve(name@))
            &&& final(fs).entries@ == old(fs).entries@
            &&& final(fs).nodes@.len() == old(fs).nodes@.len()
            &&& final(fs).nodes@[old(fs).resolve(name@) as int].data@ == Seq::<u8>::empty()
            &&& (forall|j: int|
                0 <= j < old(fs).nodes@.len() && j != old(fs).resolve(name@) ==> final(fs).nodes@[j] == old(fs).nodes@[j])
        },
        flags.spec_contains(CREATE) && !old(fs).has_live(name@) ==> {
            &&& r is Some
            &&& (r matches Some(o) ==> o.inner.inode == old(fs).nodes@.len() as u32)
            &&& final(fs).has_live(name@)
            &&& final(fs).resolve(name@) == old(fs).nodes@.len() as u32
            &&& final(fs).nodes@.len() == old(fs).nodes@.len() + 1
            &&& final(fs).nodes@.last().data@ == Seq::<u8>::empty()
            &&& (forall|j: int|
                0 <= j < old(fs).nodes@.len() ==> final(fs).nodes@[j] == old(fs).nodes@[j])
            &&& final(fs).live_links(old(fs).nodes@.len() as u32) == 1
            &&& (forall|id2: u32|
                id2 != old(fs).nodes@.len() as u32 ==> final(fs).live_links(id2) == old(
                    fs,
                ).live_links(id2))
            &&& (forall|other: Seq<char>|
                other != name@ ==> final(fs).has_live(other) == old(fs).has_live(other))
            &&& (forall|other: Seq<char>|
                other != name@ && old(fs).has_live(other) ==> final(fs).resolve(other) == old(
                    fs,
                ).resolve(other))
        },
        !flags.spec_contains(CREATE) && old(fs).has_live(name@) ==> {
            &&& r is Some
            &&& (r matches Some(o) ==> o.inner.inode == old(fs).resolve(name@))
            &&& final(fs).entries@ == old(fs).entries@
            &&& final(fs).nodes@.len() == old(fs).nodes@.len()
            &&& (flags.spec_contains(TRUNC) ==> final(fs).nodes@[old(fs).resolve(
                name@,
            ) as int].data@ == Seq::<u8>::empty() && (forall|j: int|
                0 <= j < old(fs).nodes@.len() && j != old(fs).resolve(name@) ==> final(fs).nodes@[j] == old(fs).nodes@[j]))
            &&& (!flags.spec_contains(TRUNC) ==> *final(fs) == *old(fs))
        },
        !flags.spec_contains(CREATE) && !old(fs).has_live(name@) ==> r is None && *final(fs)
            == *old(fs),
        forall|t: LinkCountTable|
            t.wf() && #[trigger] consistent(*old(fs), t) ==> consistent(*final(fs), t),
{
    let rw = flags.read_write();
    let readable = rw.0;
    let writable = rw.1;
    if flags.contains(CREATE) {
        match fs.find(name) {
            Some(id) => {
                proof {
                    assert(old(fs).live_at(old(fs).live_index(name@), name@));
                }
                fs.clear(id);
                proof {
                    assert(forall|id2: u32| final(fs).live_links(id2) == old(fs).live_links(id2));
                }
                Some(OSInode::new(readable, writable, id))
            },
            None => {
                let created = fs.create(name);
                match created {
                    Some(id) => {
                        proof {
                            let fresh = old(fs).nodes@.len() as u32;
                            assert forall|t: LinkCountTable|
                                t.wf() && #[trigger] consistent(*old(fs), t) implies consistent(
                                *fs,
                                t,
                            ) by {
                                assert forall|id2: u32|
                                    (t.has_key(id2) ==> t.count_of(id2) == fs.live_links(id2)) && (
                                    !t.has_key(id2) ==> #[trigger] fs.live_links(id2) <= 1) by {
                                    if id2 == fresh {
                                        if t.has_key(id2) {
                                            assert(t.count_of(id2) == old(fs).live_links(id2));
                                            let w = t.key_index(id2);
                                            assert(t.pair_at(w, id2));
                                            assert(t.pairs[w].1 >= 1);
                                        }
                                    } else {
                                        assert(fs.live_links(id2) == old(fs).live_links(id2));
                                    }
                                }
                            }
                        }
                        Some(OSInode::new(readable, writable, id))
                    },
                    None => {
                        proof {
                            assert(false);
                        }
                        None
                    },
                }
            },
        }
    } else {
        match fs.find(name) {
            Some(id) => {
                proof {
                    assert(old(fs).live_at(old(fs).live_index(name@), name@));
                }
                if flags.contains(TRUNC) {
                    fs.clear(id);
                    proof {
                        assert(forall|id2: u32|
                            final(fs).live_links(id2) == old(fs).live_links(id2));
                    }
                }
                Some(OSInode::new(readable, writable, id))
            },
            None => None,
        }
    }
}

/// Create a hard link `new_name` to the file already named `old_name`:
/// zero on success, minus one (with nothing changed) when the two names
/// are equal, when `old_name` does not resolve, or when `new_name` already
/// exists. On success both names resolve to the one inode and its recorded
/// link count grows by one, to at least two; nothing else moves. A
/// consistent directory/table pair stays consistent.
pub fn link_file(
    fs: &mut Filesystem,
    table: &mut LinkCountTable,
    old_name: &str,
    new_name: &str,
) -> (r: isize)
    requires
        old(fs).wf(),
        old(table).wf(),
        old_name@ != new_name@ && old(fs).has_live(old_name@) && !old(fs).has_live(new_name@)
            ==> old(table).count_of(old(fs).resolve(old_name@)) < u32::MAX,
    ensures
        final(fs).wf(),
        final(table).wf(),
        old_name@ == new_name@ ==> r == -1 && *final(fs) == *old(fs) && *final(table) == *old(
            table,
        ),
        old_name@ != new_name@ && !old(fs).has_live(old_name@) ==> r == -1 && *final(fs) == *old(
            fs,
        ) && *final(table) == *old(table),
        old_name@ != new_name@ && old(fs).has_live(old_name@) && old(fs).has_live(new_name@) ==> r
            == -1 && *final(fs) == *old(fs) && *final(table) == *old(table),
        old_name@ != new_name@ && old(fs).has_live(old_name@) && !old(fs).has_live(new_name@)
            ==> {
            let id = old(fs).resolve(old_name@);
            &&& r == 0
            &&& final(fs).nodes@ == old(fs).nodes@
            &&& final(fs).has_live(old_name@) && final(fs).resolve(old_name@) == id
            &&& final(fs).has_live(new_name@) && final(fs).resolve(new_name@) == id
            &&& final(fs).live_links(id) == old(fs).live_links(id) + 1
            &&& (forall|id2: u32|
                id2 != id ==> final(fs).live_links(id2) == old(fs).live_links(id2))
            &&& final(table).count_of(id) == old(table).count_of(id) + 1
            &&& final(table).has_key(id) && final(table).count_of(id) >= 2
            &&& (forall|id2: u32|
                id2 != id ==> final(table).count_of(id2) == old(table).count_of(id2) && final(table).has_key(id2) == old(table).has_key(id2))
            &&& (forall|other: Seq<char>|
                other != new_name@ ==> final(fs).has_live(other) == old(fs).has_live(other))
            &&& (forall|other: Seq<char>|
                other != new_name@ && old(fs).has_live(other) ==> final(fs).resolve(other) == old(
                    fs,
                ).resolve(other))
        },
        consistent(*old(fs), *old(table)) ==> consistent(*final(fs), *final(table)),
{
    let old_o: String = old_name.to_owned();
    let new_o: String = new_name.to_owned();
    if old_o == new_o {
        return -1;
    }
    match fs.find(old_name) {
        Some(id) => {
            proof {
                assert(old(fs).live_at(old(fs).live_index(old_name@), old_name@));
            }
            let linked = fs.create_link(new_name, id);
            match linked {
                Some(nid) => {
                    proof {
                        assert(old(table).count_of(id) >= 1);
                    }
                    table.increment(nid);
                    proof {
                        if consistent(*old(fs), *old(table)) {
                            assert forall|id2: u32|
                                (table.has_key(id2) ==> table.count_of(id2) == fs.live_links(id2))
                                    && (!table.has_key(id2) ==> #[trigger] fs.live_links(id2)
                                    <= 1) by {
                                if id2 == id {
                                    if old(table).has_key(id) {
                                        assert(old(table).count_of(id) == old(fs).live_links(id));
                                    } else {
                                        assert(old(fs).live_links(id) <= 1);
                                        crate::fs::lemma_count_live_ge_one(
                                            old(fs).entries@,
                                            old(fs).live_index(old_name@),
                                            id,
                                        );
                                    }
                                }
                            }
                        }
                    }
                    0
                },
                None => -1,
            }
        },
        None => -1,
    }
}

/// Unlink `name`: zero on success, minus one (with nothing changed) when
/// the name does not resolve. On success the name is flagged removed and
/// stops resolving while the inode and every other name stay put, and the
/// recorded count drops by one — an entry whose count would reach zero is
/// removed outright, so the inode reads as the default count of one again.
/// A consistent directory/table pair stays consistent.
pub fn unlink_file(fs: &mut Filesystem, table: &mut LinkCountTable, name: &str) -> (r: isize)
    requires
        old(fs).wf(),
        old(table).wf(),
    ensures
        final(fs).wf(),
        final(table).wf(),
        !old(fs).has_live(name@) ==> r == -1 && *final(fs) == *old(fs) && *final(table) == *old(
            table,
        ),
        old(fs).has_live(name@) ==> {
            let id = old(fs).resolve(name@);
            &&& r == 0
            &&& final(fs).nodes@ == old(fs).nodes@
            &&& !final(fs).has_live(name@)
            &&& final(fs).removed_spec(name@)
            &&& final(fs).live_links(id) == old(fs).live_links(id) - 1
            &&& (forall|id2: u32|
                id2 != id ==> final(fs).live_links(id2) == old(fs).live_links(id2))
            &&& (forall|other: Seq<char>|
                other != name@ ==> final(fs).has_live(other) == old(fs).has_live(other))
            &&& (forall|other: Seq<char>|
                other != name@ && old(fs).has_live(other) ==> final(fs).resolve(other) == old(
                    fs,
                ).resolve(other))
            &&& (old(table).count_of(id) <= 1 ==> !final(table).has_key(id) && final(table).count_of(id) == 1)
            &&& (old(table).count_of(id) > 1 ==> final(table).has_key(id) && final(table).count_of(
                id,
            ) == old(table).count_of(id) - 1)
            &&& (forall|id2: u32|
                id2 != id ==> final(table).count_of(id2) == old(table).count_of(id2) && final(table).has_key(id2) == old(table).has_key(id2))
        },
        consistent(*old(fs), *old(table)) ==> consistent(*final(fs), *final(table)),
{
    match fs.find(name) {
        Some(id) => {
            proof {
                assert(old(fs).live_at(old(fs).live_index(name@), name@));
            }
            fs.mark_removed(name);
            table.decrement(id);
            proof {
                if consistent(*old(fs), *old(table)) {
                    assert forall|id2: u32|
                        (table.has_key(id2) ==> table.count_of(id2) == fs.live_links(id2)) && (
                        !table.has_key(id2) ==> #[trigger] fs.live_links(id2) <= 1) by {
                        if id2 == id {
                            crate::fs::lemma_count_live_ge_one(
                                old(fs).entries@,
                                old(fs).live_index(name@),
                                id,
                            );
                            if old(table).has_key(id) {
                                assert(old(table).count_of(id) == old(fs).live_links(id));
                                assert(old(table).count_of(id) >= 1);
                            } else {
                                assert(old(fs).live_links(id) <= 1);
                                assert(old(fs).live_links(id) == 1);
                                assert(old(table).count_of(id) == 1);
                            }
                        }
                    }
                }
            }
            0
        },
        None => -1,
    }
}

/// The names of all live entries under the root, in entry order. Printing
/// them is the caller's concern.
pub fn list_apps(fs: &Filesystem) -> (r: Vec<String>)
    ensures
        r.deep_view() == crate::fs::live_names(fs.entries@),
{
    fs.ls()
}

} // verus!
