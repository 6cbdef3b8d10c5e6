use winbackup_fuse::engine::{MemStream, OpenedArchive, ReadAction};
use winbackup_fuse::fs::WinbackupFS;
use winbackup_fuse::scan::{timestamp, WinbackupTreeBuilder};
use winbackup_fuse::tree::{split_path, FSEntry};
use winbackup_fuse::types::{bytes_eq, copy_bytes, NodeKind, RawEntry, BLOCK_SIZE};

fn raw(name: &[u8], size: u64, mtime: u64) -> RawEntry {
    RawEntry {
        name_raw: name.to_vec(),
        size,
        mtime,
        is_dir: false,
    }
}

fn raw_dir(name: &[u8]) -> RawEntry {
    RawEntry {
        name_raw: name.to_vec(),
        size: 0,
        mtime: 0,
        is_dir: true,
    }
}

fn build(scans: Vec<Option<Vec<RawEntry>>>) -> (WinbackupFS, u64) {
    let b = WinbackupTreeBuilder {};
    let (root, counter) = b.parse_multiple_archives(&scans);
    match &root {
        FSEntry::Directory { ino, .. } => assert_eq!(*ino, 1),
        _ => panic!("root must be a directory"),
    }
    (WinbackupFS::from_tree(&root, counter), counter)
}

fn lookup_ino(fs: &WinbackupFS, parent: u64, name: &[u8]) -> u64 {
    fs.lookup(parent, name).expect("child must exist").ino
}

#[test]
fn single_archive_single_version() {
    // A path present in exactly one archive keeps exactly that version.
    let scans = vec![Some(vec![raw(b"docs\\note.txt", 10, 100)])];
    let (fs, _) = build(scans);
    let docs = lookup_ino(&fs, 1, b"docs");
    let at = fs.lookup(docs, b"note.txt").expect("file present");
    assert_eq!(at.size, 10);
    assert_eq!(at.time, 100);
    assert_eq!(at.kind, NodeKind::RegularFile);
}

#[test]
fn most_recent_version_wins() {
    // Archive A has the file at time 100 size 10, archive B at time 200
    // size 20: the merged tree holds the more recent version.
    let scans = vec![
        Some(vec![raw(b"docs\\note.txt", 10, 100)]),
        Some(vec![raw(b"docs\\note.txt", 20, 200)]),
    ];
    let (fs, _) = build(scans);
    let docs = lookup_ino(&fs, 1, b"docs");
    let at = fs.lookup(docs, b"note.txt").expect("file present");
    assert_eq!(at.size, 20);
    assert_eq!(at.time, 200);
}

#[test]
fn most_recent_version_wins_either_order() {
    let scans = vec![
        Some(vec![raw(b"docs\\note.txt", 20, 200)]),
        Some(vec![raw(b"docs\\note.txt", 10, 100)]),
    ];
    let (fs, _) = build(scans);
    let docs = lookup_ino(&fs, 1, b"docs");
    let at = fs.lookup(docs, b"note.txt").expect("file present");
    assert_eq!(at.size, 20);
    assert_eq!(at.time, 200);
}

#[test]
fn directory_chain_is_created() {
    // `a\b\c.txt` produces directory nodes `a` and `a\b` and a file
    // `c.txt` under `a\b`, whatever else is inserted around it.
    let scans = vec![Some(vec![
        raw(b"z\\other.txt", 1, 5),
        raw(b"a\\b\\c.txt", 7, 50),
        raw(b"a\\d.txt", 2, 60),
    ])];
    let (fs, _) = build(scans);
    let a = fs.lookup(1, b"a").expect("dir a");
    assert_eq!(a.kind, NodeKind::Directory);
    let b = fs.lookup(a.ino, b"b").expect("dir a\\b");
    assert_eq!(b.kind, NodeKind::Directory);
    let c = fs.lookup(b.ino, b"c.txt").expect("file c.txt");
    assert_eq!(c.kind, NodeKind::RegularFile);
    assert_eq!(c.size, 7);
}

#[test]
fn inodes_are_unique() {
    let scans = vec![Some(vec![
        raw(b"a\\b\\c.txt", 7, 50),
        raw(b"a\\d.txt", 2, 60),
        raw(b"z\\other.txt", 1, 5),
    ])];
    let (fs, counter) = build(scans);
    let mut seen = std::collections::HashSet::new();
    let mut count = 0;
    for ino in 1..counter {
        if let Some(at) = fs.getattr(ino) {
            assert_eq!(at.ino, ino);
            assert!(seen.insert(at.ino), "duplicate inode {}", at.ino);
            count += 1;
        }
    }
    // root, a, b, z, and three files
    assert_eq!(count, 7);
}

#[test]
fn path_without_separator_is_dropped() {
    let scans = vec![Some(vec![raw(b"loose.txt", 3, 10), raw(b"kept\\f.txt", 4, 11)])];
    let (fs, _) = build(scans);
    assert!(fs.lookup(1, b"loose.txt").is_none());
    assert!(fs.lookup(1, b"kept").is_some());
}

#[test]
fn directory_entries_are_skipped_by_scan() {
    let b = WinbackupTreeBuilder {};
    let raws = vec![raw_dir(b"docs\\"), raw(b"docs\\note.txt", 10, 100)];
    let files = b.rough_file_info(&raws);
    assert_eq!(files.len(), 1);
    // entry ids are positions within the whole archive listing
    assert_eq!(files[0].file_id, 1);
    assert_eq!(files[0].path, b"docs\\note.txt".to_vec());
}

#[test]
fn filenames_are_decoded_with_the_legacy_encoding() {
    // 0x80 is CYRILLIC CAPITAL LETTER A in the configured legacy
    // encoding; decoded text is carried as UTF-8 bytes.
    let b = WinbackupTreeBuilder {};
    let decoded = b.decode_filename(&[0x80, b'\\', 0x81]);
    assert_eq!(decoded, vec![0xD0, 0x90, b'\\', 0xD0, 0x91]);
    // and the decoded name is what the tree serves
    let scans = vec![Some(vec![raw(&[0x84, b'\\', 0x80, b'.', b't'], 1, 1)])];
    let (fs, _) = build(scans);
    let d = fs.lookup(1, &[0xD0, 0x94]).expect("decoded directory name");
    assert!(fs.lookup(d.ino, &[0xD0, 0x90, b'.', b't']).is_some());
}

#[test]
fn failed_archive_contributes_nothing() {
    // The second archive cannot be opened: its unique path is absent and
    // the other archive is untouched.
    let scans = vec![Some(vec![raw(b"kept\\f.txt", 4, 11)]), None];
    let (fs, _) = build(scans);
    assert!(fs.lookup(1, b"kept").is_some());
    let scans2 = vec![
        Some(vec![raw(b"kept\\f.txt", 4, 11)]),
        None,
        Some(vec![raw(b"kept\\g.txt", 5, 12)]),
    ];
    let (fs2, _) = build(scans2);
    let kept = lookup_ino(&fs2, 1, b"kept");
    assert!(fs2.lookup(kept, b"f.txt").is_some());
    assert!(fs2.lookup(kept, b"g.txt").is_some());
}

#[test]
fn unknown_inode_is_not_found_everywhere() {
    let scans = vec![Some(vec![raw(b"a\\f.txt", 1, 1)])];
    let (mut fs, counter) = build(scans);
    let bogus = counter + 100;
    assert!(fs.getattr(bogus).is_none());
    assert!(fs.lookup(bogus, b"f.txt").is_none());
    assert!(fs.readdir(bogus, 0).is_none());
    let fh = fs.open();
    assert_eq!(fs.read(bogus, fh, 0, 10), ReadAction::NotFound);
    // a file inode is no directory
    let a = lookup_ino(&fs, 1, b"a");
    let f = fs.lookup(a, b"f.txt").unwrap();
    assert!(fs.readdir(f.ino, 0).is_none());
    assert!(fs.lookup(f.ino, b"x").is_none());
}

#[test]
fn attrs_have_exact_fields() {
    let scans = vec![Some(vec![raw(b"a\\f.bin", 3 * BLOCK_SIZE + 1, 777)])];
    let (fs, _) = build(scans);
    let a = lookup_ino(&fs, 1, b"a");
    let at = fs.lookup(a, b"f.bin").unwrap();
    assert_eq!(at.size, 3 * BLOCK_SIZE + 1);
    assert_eq!(at.blocks, 4);
    assert_eq!(at.time, 777);
    assert_eq!(at.perm, 0o644);
    assert_eq!(at.nlink, 1);
    assert_eq!(at.uid, 501);
    assert_eq!(at.gid, 20);
    assert_eq!(at.blksize, BLOCK_SIZE as u32);
    let dir = fs.getattr(a).unwrap();
    assert_eq!(dir.kind, NodeKind::Directory);
    assert_eq!(dir.size, 0);
    assert_eq!(dir.blocks, 0);
    assert_eq!(dir.perm, 0o755);
    assert_eq!(dir.nlink, 2);
    assert_eq!(dir.blksize, BLOCK_SIZE as u32);
}

#[test]
fn exact_block_multiple_has_exact_block_count() {
    let scans = vec![Some(vec![raw(b"a\\f.bin", 2 * BLOCK_SIZE, 1)])];
    let (fs, _) = build(scans);
    let a = lookup_ino(&fs, 1, b"a");
    assert_eq!(fs.lookup(a, b"f.bin").unwrap().blocks, 2);
}

#[test]
fn readdir_lists_children_from_offset() {
    let scans = vec![Some(vec![
        raw(b"top\\one.txt", 1, 1),
        raw(b"top\\two.txt", 2, 2),
        raw(b"top\\three.txt", 3, 3),
    ])];
    let (fs, _) = build(scans);
    let top = lookup_ino(&fs, 1, b"top");
    let all = fs.readdir(top, 0).expect("directory listing");
    assert_eq!(all.len(), 3);
    for (i, entry) in all.iter().enumerate() {
        assert_eq!(entry.3, i + 1);
        assert!(!entry.2);
    }
    let rest = fs.readdir(top, all[0].3).expect("resumed listing");
    assert_eq!(rest.len(), 2);
    assert_eq!(rest[0].0, all[1].0);
    let empty = fs.readdir(top, 3).expect("exhausted listing");
    assert!(empty.is_empty());
}

/// Runs one read call against the engine and a conforming in-memory
/// forward stream, exactly as the mount loop would.
fn run_read(
    fs: &mut WinbackupFS,
    stream: &mut Option<MemStream>,
    content: &[u8],
    ino: u64,
    fh: u64,
    offset: u64,
    size: u32,
) -> Vec<u8> {
    match fs.read(ino, fh, offset, size) {
        ReadAction::NotFound => panic!("read on a known file must not be NotFound"),
        ReadAction::Continue { skip, take } => {
            let s = stream.as_mut().expect("continue needs a live stream");
            s.pull(skip, take)
        }
        ReadAction::Reopen { skip, take, .. } => {
            let mut s = MemStream::start(content.to_vec());
            let out = s.pull(skip, take);
            *stream = Some(s);
            out
        }
    }
}

fn content_fixture() -> (WinbackupFS, u64, Vec<u8>) {
    let data: Vec<u8> = (0u8..=99).collect();
    let scans = vec![Some(vec![raw(b"a\\data.bin", data.len() as u64, 1)])];
    let (fs, _) = build(scans);
    let a = lookup_ino(&fs, 1, b"a");
    let ino = fs.lookup(a, b"data.bin").unwrap().ino;
    (fs, ino, data)
}

#[test]
fn forward_reads_match_one_big_read() {
    let (mut fs, ino, data) = content_fixture();
    let fh = fs.open();
    let mut st = None;
    let first = run_read(&mut fs, &mut st, &data, ino, fh, 0, 10);
    let second = run_read(&mut fs, &mut st, &data, ino, fh, 10, 10);
    let fh2 = fs.open();
    let mut st2 = None;
    let whole = run_read(&mut fs, &mut st2, &data, ino, fh2, 0, 20);
    let mut joined = first.clone();
    joined.extend_from_slice(&second);
    assert_eq!(joined, whole);
    assert_eq!(whole, data[0..20].to_vec());
}

#[test]
fn backward_seek_reopens_from_start() {
    let (mut fs, ino, data) = content_fixture();
    let fh = fs.open();
    let mut st = None;
    let _ = run_read(&mut fs, &mut st, &data, ino, fh, 50, 10);
    let back = run_read(&mut fs, &mut st, &data, ino, fh, 0, 10);
    let fh2 = fs.open();
    let mut st2 = None;
    let fresh = run_read(&mut fs, &mut st2, &data, ino, fh2, 0, 10);
    assert_eq!(back, fresh);
    assert_eq!(back, data[0..10].to_vec());
}

#[test]
fn reads_at_and_past_end_are_short_or_empty() {
    let (mut fs, ino, data) = content_fixture();
    let size = data.len() as u64;
    let fh = fs.open();
    let mut st = None;
    let at_end = run_read(&mut fs, &mut st, &data, ino, fh, size, 10);
    assert!(at_end.is_empty());
    let fh2 = fs.open();
    let mut st2 = None;
    let tail = run_read(&mut fs, &mut st2, &data, ino, fh2, size - 5, 10);
    assert_eq!(tail.len(), 5);
    assert_eq!(tail, data[data.len() - 5..].to_vec());
}

#[test]
fn released_handle_reads_like_a_fresh_one() {
    let (mut fs, ino, data) = content_fixture();
    let fh = fs.open();
    let mut st = None;
    let _ = run_read(&mut fs, &mut st, &data, ino, fh, 0, 30);
    fs.release(fh);
    st = None;
    // after release the same id must rebuild state, not continue at 30
    match fs.read(ino, fh, 0, 10) {
        ReadAction::Reopen { skip, take, .. } => {
            assert_eq!(skip, 0);
            assert_eq!(take, 10);
        }
        other => panic!("expected a reopen, got {:?}", other),
    }
}

#[test]
fn opened_archive_tracks_offsets() {
    let src = winbackup_fuse::types::SourceRef {
        archive_id: 2,
        entry_id: 5,
    };
    let mut oa = OpenedArchive::open(&src);
    assert_eq!(oa.offset, 0);
    assert!(oa.is_viable(0));
    assert!(oa.is_viable(10));
    let skip = oa.consume(10, 5);
    assert_eq!(skip, 10);
    assert_eq!(oa.offset, 15);
    assert!(!oa.is_viable(10));
    assert!(oa.is_viable(15));
}

#[test]
fn split_path_splits_on_backslash() {
    let r = split_path(b"a\\b\\c.txt").expect("has separators");
    assert_eq!(r.0, vec![b"a".to_vec(), b"b".to_vec()]);
    assert_eq!(r.1, b"c.txt".to_vec());
    assert!(split_path(b"plain.txt").is_none());
    let r2 = split_path(b"a\\\\x").expect("empty segment kept");
    assert_eq!(r2.0, vec![b"a".to_vec(), b"".to_vec()]);
    assert_eq!(r2.1, b"x".to_vec());
}

#[test]
fn byte_helpers_behave() {
    assert!(bytes_eq(b"abc", b"abc"));
    assert!(!bytes_eq(b"abc", b"abd"));
    assert!(!bytes_eq(b"abc", b"ab"));
    assert_eq!(copy_bytes(b"xyz"), b"xyz".to_vec());
}

#[test]
fn mem_stream_is_forward_only() {
    let mut s = MemStream::start((0u8..10).collect());
    let a = s.pull(2, 3);
    assert_eq!(a, vec![2, 3, 4]);
    let b = s.pull(0, 2);
    assert_eq!(b, vec![5, 6]);
    let c = s.pull(10, 4);
    assert!(c.is_empty());
}

#[test]
fn timestamps_match_known_instants() {
    // 1980-01-01 00:00:00 and 2000-03-01 12:30:05 UTC
    assert_eq!(timestamp(1980, 1, 1, 0, 0, 0), 315_532_800);
    assert_eq!(timestamp(2000, 3, 1, 12, 30, 5), 951_913_805);
    // a leap day and the end of the range
    assert_eq!(timestamp(2000, 2, 29, 0, 0, 0), 951_782_400);
    assert_eq!(timestamp(2107, 12, 31, 23, 59, 59), 4_354_819_199);
    // order follows the calendar
    assert!(timestamp(1999, 12, 31, 23, 59, 59) < timestamp(2000, 1, 1, 0, 0, 0));
}

#[test]
fn empty_input_yields_empty_root() {
    let (fs, counter) = build(vec![]);
    assert_eq!(counter, 2);
    let root = fs.getattr(1).expect("root exists");
    assert_eq!(root.kind, NodeKind::Directory);
    let listing = fs.readdir(1, 0).expect("root is a directory");
    assert!(listing.is_empty());
    assert!(fs.lookup(1, b"anything").is_none());
    // an archive that lists nothing behaves the same
    let (fs2, _) = build(vec![Some(vec![]), None]);
    assert!(fs2.readdir(1, 0).expect("root").is_empty());
}
