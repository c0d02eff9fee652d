//! Cross-cutting invariants of the layer: agreement between the directory
//! and the link-count table, and the write/read round trip.

use vstd::prelude::*;
use crate::fs::{Filesystem, chunk_read, write_at_spec, lemma_count_live_ge_two};
use crate::inode::{scatter_read, total_len, lemma_total_len_nonneg};
use crate::table::LinkCountTable;

verus! {

/// The cursor reflects actual transfer, never the request: across any
/// scatter read it moves forward, by at most the total requested length,
/// and never past the end of data it started inside.
pub proof fn lemma_scatter_read_cursor(data: Seq<u8>, offset: int, bufs: Seq<Seq<u8>>)
    requires
        0 <= offset,
    ensures
        offset <= scatter_read(data, offset, bufs).1,
        scatter_read(data, offset, bufs).1 - offset <= total_len(bufs),
        offset <= data.len() ==> scatter_read(data, offset, bufs).1 <= data.len(),
        offset > data.len() ==> scatter_read(data, offset, bufs).1 == offset,
    decreases bufs.len(),
{
    lemma_total_len_nonneg(bufs);
    if bufs.len() > 0 {
        let n = crate::fs::chunk_len(data, offset, bufs[0].len() as int);
        if n != 0 {
            lemma_total_len_nonneg(bufs.skip(1));
            lemma_scatter_read_cursor(data, offset + n, bufs.skip(1));
        }
    }
}

/// Agreement between the directory and the link-count table: a tracked
/// inode's recorded count equals the number of live names resolving to it,
/// and an untracked inode has at most one live name (absence means one).
pub open spec fn consistent(fs: Filesystem, t: LinkCountTable) -> bool {
    forall|id: u32|
        {
            &&& (#[trigger] t.has_key(id) ==> t.count_of(id) == fs.live_links(id))
            &&& (!t.has_key(id) ==> #[trigger] fs.live_links(id) <= 1)
        }
}

/// Two distinct names resolving to one inode force the table to track that
/// inode with a count of at least two — and that count is exactly the
/// number of live names, which is what a status record reports through
/// either name.
pub proof fn lemma_shared_name_count(
    fs: Filesystem,
    t: LinkCountTable,
    n1: Seq<char>,
    n2: Seq<char>,
)
    requires
        fs.wf(),
        t.wf(),
        consistent(fs, t),
        fs.has_live(n1),
        fs.has_live(n2),
        n1 != n2,
        fs.resolve(n1) == fs.resolve(n2),
    ensures
        t.has_key(fs.resolve(n1)),
        t.count_of(fs.resolve(n1)) == fs.live_links(fs.resolve(n1)),
        t.count_of(fs.resolve(n1)) >= 2,
{
    let id = fs.resolve(n1);
    let i = fs.live_index(n1);
    let j = fs.live_index(n2);
    assert(fs.live_at(i, n1));
    assert(fs.live_at(j, n2));
    assert(i != j);
    if i < j {
        lemma_count_live_ge_two(fs.entries@, i, j, id);
    } else {
        lemma_count_live_ge_two(fs.entries@, j, i, id);
    }
    assert(fs.live_links(id) >= 2);
    if !t.has_key(id) {
        assert(fs.live_links(id) <= 1);
    }
}

/// An inode with no live names at all is untracked, so the table reports
/// the default count of one for it — the "absence means one" reading is
/// restored, never a zero left behind.
pub proof fn lemma_unlinked_defaults_to_one(fs: Filesystem, t: LinkCountTable, id: u32)
    requires
        t.wf(),
        consistent(fs, t),
        fs.live_links(id) == 0,
    ensures
        !t.has_key(id),
        t.count_of(id) == 1,
{
    if t.has_key(id) {
        let w = t.key_index(id);
        assert(t.pair_at(w, id));
        assert(t.pairs[w].1 >= 1);
    }
}

/// Round trip: writing a byte sequence at offset zero and then reading the
/// same number of bytes from offset zero yields the identical sequence.
pub proof fn lemma_write_then_read(data: Seq<u8>, s: Seq<u8>)
    ensures
        chunk_read(write_at_spec(data, 0, s), 0, s.len() as int) == s,
{
    let written = write_at_spec(data, 0, s);
    if s.len() == 0 {
        if written.len() > 0 {
            assert(chunk_read(written, 0, 0) =~= s);
        } else {
            assert(chunk_read(written, 0, 0) =~= s);
        }
    } else {
        assert(written.len() >= s.len());
        assert(chunk_read(written, 0, s.len() as int) =~= s);
    }
}

} // verus!
