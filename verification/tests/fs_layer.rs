use osfs::fs::Filesystem;
use osfs::inode::{open_file, link_file, unlink_file, list_apps};
use osfs::inode::{OSInode, OpenFlags, StatMode, UserBuffer, CREATE, RDWR, TRUNC, WRONLY};
use osfs::table::LinkCountTable;

fn write_bytes(fs: &mut Filesystem, handle: &mut OSInode, bytes: &[u8]) -> usize {
    let buf = UserBuffer { buffers: vec![bytes.to_vec()] };
    handle.write(fs, &buf)
}

#[test]
fn flags_decode() {
    assert_eq!(OpenFlags::empty().read_write(), (true, false));
    assert_eq!(OpenFlags::from_bits(WRONLY).read_write(), (false, true));
    assert_eq!(OpenFlags::from_bits(RDWR).read_write(), (true, true));
    assert_eq!(OpenFlags::from_bits(WRONLY | RDWR).read_write(), (false, true));
    assert_eq!(OpenFlags::from_bits(CREATE).read_write(), (true, false));
    assert_eq!(OpenFlags::from_bits(CREATE | TRUNC).read_write(), (true, false));
    assert_eq!(OpenFlags::from_bits(CREATE | RDWR).read_write(), (true, true));
}

#[test]
fn open_missing_without_create_fails() {
    let mut fs = Filesystem::new();
    assert!(open_file(&mut fs, "absent", OpenFlags::empty()).is_none());
}

#[test]
fn open_create_makes_empty_file() {
    let mut fs = Filesystem::new();
    let table = LinkCountTable::new();
    let mut f = open_file(&mut fs, "a", OpenFlags::from_bits(CREATE | RDWR)).unwrap();
    assert!(f.readable());
    assert!(f.writable());
    assert_eq!(f.inner.offset, 0);
    let st = f.stat(&fs, &table).unwrap();
    assert_eq!(st.dev, 0);
    assert_eq!(st.mode, StatMode::File);
    assert_eq!(st.nlink, 1);
    assert_eq!(st.pad, [0u64; 7]);
    assert!(f.read_all(&fs).is_empty());
}

#[test]
fn create_on_existing_name_truncates_same_inode() {
    let mut fs = Filesystem::new();
    let mut table = LinkCountTable::new();
    let mut f = open_file(&mut fs, "a", OpenFlags::from_bits(CREATE | RDWR)).unwrap();
    assert_eq!(write_bytes(&mut fs, &mut f, b"hello"), 5);
    assert_eq!(link_file(&mut fs, &mut table, "a", "b"), 0);

    // Re-opening with the create bit empties the file but keeps the inode,
    // so the accumulated link count still applies.
    let g = open_file(&mut fs, "a", OpenFlags::from_bits(CREATE | RDWR)).unwrap();
    assert_eq!(g.inner.inode, f.inner.inode);
    let mut g2 = g;
    assert!(g2.read_all(&fs).is_empty());
    let st = g2.stat(&fs, &table).unwrap();
    assert_eq!(st.nlink, 2);
}

#[test]
fn trunc_flag_empties_existing_file() {
    let mut fs = Filesystem::new();
    let mut f = open_file(&mut fs, "a", OpenFlags::from_bits(CREATE | RDWR)).unwrap();
    assert_eq!(write_bytes(&mut fs, &mut f, b"data"), 4);
    let mut g = open_file(&mut fs, "a", OpenFlags::from_bits(TRUNC | RDWR)).unwrap();
    assert!(g.read_all(&fs).is_empty());
}

#[test]
fn cursor_advances_by_actual_transfer() {
    let mut fs = Filesystem::new();
    let mut w = open_file(&mut fs, "a", OpenFlags::from_bits(CREATE | RDWR)).unwrap();
    assert_eq!(write_bytes(&mut fs, &mut w, b"abcde"), 5);
    assert_eq!(w.inner.offset, 5);

    let mut r = open_file(&mut fs, "a", OpenFlags::empty()).unwrap();
    // Two destination ranges of three bytes: the first is filled, the
    // second gets only the two remaining bytes. The cursor lands on the
    // actual total (5), never the requested amount (6).
    let mut buf = UserBuffer { buffers: vec![vec![0u8; 3], vec![0u8; 3]] };
    let got = r.read(&fs, &mut buf);
    assert_eq!(got, 5);
    assert_eq!(r.inner.offset, 5);
    assert_eq!(buf.buffers[0], b"abc".to_vec());
    assert_eq!(buf.buffers[1], vec![b'd', b'e', 0u8]);

    // At end of data a further read transfers nothing and leaves every
    // destination range untouched.
    let mut buf2 = UserBuffer { buffers: vec![vec![9u8; 2]] };
    assert_eq!(r.read(&fs, &mut buf2), 0);
    assert_eq!(r.inner.offset, 5);
    assert_eq!(buf2.buffers[0], vec![9u8, 9u8]);
}

#[test]
fn gather_write_spans_ranges() {
    let mut fs = Filesystem::new();
    let mut w = open_file(&mut fs, "a", OpenFlags::from_bits(CREATE | WRONLY)).unwrap();
    let buf = UserBuffer { buffers: vec![b"ab".to_vec(), b"cd".to_vec(), b"e".to_vec()] };
    assert_eq!(w.write(&mut fs, &buf), 5);
    assert_eq!(w.inner.offset, 5);
    let mut r = open_file(&mut fs, "a", OpenFlags::empty()).unwrap();
    assert_eq!(r.read_all(&fs), b"abcde".to_vec());
}

#[test]
fn write_round_trip_through_second_handle() {
    let mut fs = Filesystem::new();
    let mut w = open_file(&mut fs, "a", OpenFlags::from_bits(CREATE | WRONLY)).unwrap();
    let payload = b"the quick brown fox";
    assert_eq!(write_bytes(&mut fs, &mut w, payload), payload.len());

    let mut r = open_file(&mut fs, "a", OpenFlags::empty()).unwrap();
    let mut buf = UserBuffer { buffers: vec![vec![0u8; payload.len()]] };
    assert_eq!(r.read(&fs, &mut buf), payload.len());
    assert_eq!(buf.buffers[0], payload.to_vec());
}

#[test]
fn concurrent_handles_keep_independent_cursors() {
    let mut fs = Filesystem::new();
    let mut w = open_file(&mut fs, "a", OpenFlags::from_bits(CREATE | WRONLY)).unwrap();
    assert_eq!(write_bytes(&mut fs, &mut w, b"abcdef"), 6);

    let mut h1 = open_file(&mut fs, "a", OpenFlags::empty()).unwrap();
    let mut h2 = open_file(&mut fs, "a", OpenFlags::empty()).unwrap();
    assert_eq!(h1.inner.offset, 0);
    assert_eq!(h2.inner.offset, 0);

    let mut b1 = UserBuffer { buffers: vec![vec![0u8; 2]] };
    assert_eq!(h1.read(&fs, &mut b1), 2);
    assert_eq!(b1.buffers[0], b"ab".to_vec());
    assert_eq!(h1.inner.offset, 2);
    assert_eq!(h2.inner.offset, 0);

    let mut b2 = UserBuffer { buffers: vec![vec![0u8; 3]] };
    assert_eq!(h2.read(&fs, &mut b2), 3);
    assert_eq!(b2.buffers[0], b"abc".to_vec());
    assert_eq!(h2.inner.offset, 3);
    assert_eq!(h1.inner.offset, 2);

    let mut b3 = UserBuffer { buffers: vec![vec![0u8; 2]] };
    assert_eq!(h1.read(&fs, &mut b3), 2);
    assert_eq!(b3.buffers[0], b"cd".to_vec());
}

#[test]
fn truncation_does_not_reset_open_cursor() {
    let mut fs = Filesystem::new();
    let mut w = open_file(&mut fs, "a", OpenFlags::from_bits(CREATE | RDWR)).unwrap();
    assert_eq!(write_bytes(&mut fs, &mut w, b"abcde"), 5);
    // A concurrent truncation empties the file while the first handle's
    // cursor stays at five: its reads now come up short.
    let _t = open_file(&mut fs, "a", OpenFlags::from_bits(TRUNC)).unwrap();
    assert!(w.read_all(&fs).is_empty());
    assert_eq!(w.inner.offset, 5);
    // Writing through the parked cursor zero-fills the gap.
    assert_eq!(write_bytes(&mut fs, &mut w, b"xy"), 2);
    let mut r = open_file(&mut fs, "a", OpenFlags::empty()).unwrap();
    assert_eq!(r.read_all(&fs), vec![0, 0, 0, 0, 0, b'x', b'y']);
}

#[test]
fn link_to_same_name_fails_without_mutation() {
    let mut fs = Filesystem::new();
    let mut table = LinkCountTable::new();
    let f = open_file(&mut fs, "a", OpenFlags::from_bits(CREATE)).unwrap();
    assert_eq!(link_file(&mut fs, &mut table, "a", "a"), -1);
    let st = f.stat(&fs, &table).unwrap();
    assert_eq!(st.nlink, 1);
    assert_eq!(list_apps(&fs), vec!["a".to_string()]);
}

#[test]
fn link_missing_source_fails() {
    let mut fs = Filesystem::new();
    let mut table = LinkCountTable::new();
    assert_eq!(link_file(&mut fs, &mut table, "absent", "b"), -1);
    assert!(list_apps(&fs).is_empty());
}

#[test]
fn link_over_existing_target_fails() {
    let mut fs = Filesystem::new();
    let mut table = LinkCountTable::new();
    let _a = open_file(&mut fs, "a", OpenFlags::from_bits(CREATE)).unwrap();
    let b = open_file(&mut fs, "b", OpenFlags::from_bits(CREATE)).unwrap();
    assert_eq!(link_file(&mut fs, &mut table, "a", "b"), -1);
    let st = b.stat(&fs, &table).unwrap();
    assert_eq!(st.nlink, 1);
}

#[test]
fn link_reports_shared_count_through_both_names() {
    let mut fs = Filesystem::new();
    let mut table = LinkCountTable::new();
    let a = open_file(&mut fs, "a", OpenFlags::from_bits(CREATE)).unwrap();
    assert_eq!(link_file(&mut fs, &mut table, "a", "b"), 0);
    let b = open_file(&mut fs, "b", OpenFlags::empty()).unwrap();
    assert_eq!(a.inner.inode, b.inner.inode);
    assert!(a.is_link(&fs));
    assert!(b.is_link(&fs));
    assert_eq!(a.stat(&fs, &table).unwrap().nlink, 2);
    assert_eq!(b.stat(&fs, &table).unwrap().nlink, 2);
}

#[test]
fn unlink_one_of_two_names_leaves_count_one() {
    let mut fs = Filesystem::new();
    let mut table = LinkCountTable::new();
    let mut w = open_file(&mut fs, "a", OpenFlags::from_bits(CREATE | WRONLY)).unwrap();
    assert_eq!(write_bytes(&mut fs, &mut w, b"keep"), 4);
    assert_eq!(link_file(&mut fs, &mut table, "a", "b"), 0);
    assert_eq!(unlink_file(&mut fs, &mut table, "a"), 0);

    // The remaining name still reads the contents and reports count one.
    let mut b = open_file(&mut fs, "b", OpenFlags::empty()).unwrap();
    assert_eq!(b.read_all(&fs), b"keep".to_vec());
    assert_eq!(b.stat(&fs, &table).unwrap().nlink, 1);
    assert!(!b.is_link(&fs));
    assert!(b.is_deleted(&fs, "a"));
    assert!(open_file(&mut fs, "a", OpenFlags::empty()).is_none());
}

#[test]
fn unlink_last_name_restores_default_count() {
    let mut fs = Filesystem::new();
    let mut table = LinkCountTable::new();
    let f = open_file(&mut fs, "a", OpenFlags::from_bits(CREATE)).unwrap();
    let ino = f.inner.inode;
    assert_eq!(link_file(&mut fs, &mut table, "a", "b"), 0);
    assert_eq!(unlink_file(&mut fs, &mut table, "a"), 0);
    assert_eq!(unlink_file(&mut fs, &mut table, "b"), 0);
    // The count dropped to zero: the table holds no entry for the inode,
    // so it reads as the default one again, not as a leftover zero.
    assert_eq!(table.count(ino), 1);
    // A handle that is still open keeps seeing the default-one convention.
    assert_eq!(f.stat(&fs, &table).unwrap().nlink, 1);
    assert!(list_apps(&fs).is_empty());
}

#[test]
fn unlink_missing_name_fails() {
    let mut fs = Filesystem::new();
    let mut table = LinkCountTable::new();
    assert_eq!(unlink_file(&mut fs, &mut table, "absent"), -1);
}

#[test]
fn decrement_clamps_at_the_default() {
    // The documented underflow policy: decrementing an untracked inode
    // (counted as one) leaves it untracked at the default one; no zero is
    // ever stored and nothing panics.
    let mut table = LinkCountTable::new();
    table.decrement(7);
    assert_eq!(table.count(7), 1);
    table.increment(7);
    assert_eq!(table.count(7), 2);
    table.decrement(7);
    assert_eq!(table.count(7), 1);
    table.decrement(7);
    table.decrement(7);
    assert_eq!(table.count(7), 1);
}

#[test]
fn list_apps_skips_removed_names() {
    let mut fs = Filesystem::new();
    let mut table = LinkCountTable::new();
    let _a = open_file(&mut fs, "one", OpenFlags::from_bits(CREATE)).unwrap();
    let _b = open_file(&mut fs, "two", OpenFlags::from_bits(CREATE)).unwrap();
    assert_eq!(list_apps(&fs), vec!["one".to_string(), "two".to_string()]);
    assert_eq!(unlink_file(&mut fs, &mut table, "one"), 0);
    assert_eq!(list_apps(&fs), vec!["two".to_string()]);
}

#[test]
fn stat_reports_directory_mode_for_the_root() {
    let fs = Filesystem::new();
    let table = LinkCountTable::new();
    let root = OSInode::new(true, false, 0);
    let st = root.stat(&fs, &table).unwrap();
    assert_eq!(st.mode, StatMode::Dir);
    assert_eq!(st.ino, 0);
}

#[test]
fn read_all_resumes_from_cursor() {
    let mut fs = Filesystem::new();
    let mut w = open_file(&mut fs, "a", OpenFlags::from_bits(CREATE | RDWR)).unwrap();
    assert_eq!(write_bytes(&mut fs, &mut w, b"abcdef"), 6);
    let mut r = open_file(&mut fs, "a", OpenFlags::empty()).unwrap();
    let mut buf = UserBuffer { buffers: vec![vec![0u8; 2]] };
    assert_eq!(r.read(&fs, &mut buf), 2);
    assert_eq!(r.read_all(&fs), b"cdef".to_vec());
    assert_eq!(r.inner.offset, 6);
}
