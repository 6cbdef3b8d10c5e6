//! Plain value types shared by the scanner, the tree builder and the read
//! engine.  Paths and entry names are kept as UTF-8 byte vectors; archive
//! entries are addressed by the position of the archive in the startup order
//! together with the position of the entry inside that archive.

use vstd::prelude::*;

verus! {

/// Size/modification-time metadata of one archived file.  The modification
/// time is an opaque totally ordered instant; a larger value is more recent.
#[derive(Clone, Copy, Debug, PartialEq, Eq, Structural)]
pub struct FileInfo {
    pub time: u64,
    pub size: u64,
}

/// Durable locator of one entry's content: the archive (by its position in
/// the startup order) and the entry's position inside that archive.  It owns
/// no open resource and can be re-resolved at any later read.
#[derive(Clone, Copy, Debug, PartialEq, Eq, Structural)]
pub struct SourceRef {
    pub archive_id: usize,
    pub entry_id: usize,
}

/// The winning candidate for one path: its metadata and where its content
/// can be reopened.
#[derive(Clone, Copy, Debug, PartialEq, Eq, Structural)]
pub struct FSEntryInfo {
    pub info: FileInfo,
    pub source: SourceRef,
}

/// One raw entry of an archive listing, exactly as the container reports it:
/// undecoded name bytes, content size, modification time and whether the
/// entry is a directory marker.
#[derive(Clone, Debug, PartialEq, Eq)]
pub struct RawEntry {
    pub name_raw: Vec<u8>,
    pub size: u64,
    pub mtime: u64,
    pub is_dir: bool,
}

/// One file found by scanning an archive: the entry position, the decoded
/// path (archive-native separators, not yet normalized) and its metadata.
#[derive(Clone, Debug, PartialEq, Eq)]
pub struct File {
    pub file_id: usize,
    pub path: Vec<u8>,
    pub info: FileInfo,
}

/// Node kind as reported to the transport.
#[derive(Clone, Copy, Debug, PartialEq, Eq, Structural)]
pub enum NodeKind {
    RegularFile,
    Directory,
}

/// Attribute reply for one node.  All four protocol timestamps are the same
/// instant, so a single field carries it.
#[derive(Clone, Copy, Debug, PartialEq, Eq, Structural)]
pub struct Attrs {
    pub ino: u64,
    pub size: u64,
    pub blocks: u64,
    pub time: u64,
    pub kind: NodeKind,
    pub perm: u16,
    pub nlink: u32,
    pub uid: u32,
    pub gid: u32,
    pub blksize: u32,
}

/// Fixed block size reported for files.
pub const BLOCK_SIZE: u64 = 64 * 1024;

/// Compares two byte strings for equality.
pub fn bytes_eq(a: &[u8], b: &[u8]) -> (r: bool)
    ensures
        r == (a@ == b@),
{
    if a.len() != b.len() {
        assert(a@ != b@) by {
            assert(a@.len() != b@.len());
        }
        return false;
    }
    let mut i: usize = 0;
    while i < a.len()
        invariant
            0 <= i <= a@.len(),
            a@.len() == b@.len(),
            forall|j: int| 0 <= j < i ==> a@[j] == b@[j],
        decreases a@.len() - i,
    {
        if a[i] != b[i] {
            return false;
        }
        i += 1;
    }
    assert(a@ =~= b@);
    true
}

/// An owned copy of a byte string.
pub fn copy_bytes(src: &[u8]) -> (r: Vec<u8>)
    ensures
        r@ == src@,
{
    let mut out: Vec<u8> = Vec::new();
    let mut i: usize = 0;
    while i < src.len()
        invariant
            0 <= i <= src@.len(),
            out@ == src@.take(i as int),
        decreases src@.len() - i,
    {
        out.push(src[i]);
        assert(out@ =~= src@.take(i + 1));
        i += 1;
    }
    assert(src@.take(src@.len() as int) =~= src@);
    out
}

} // verus!
