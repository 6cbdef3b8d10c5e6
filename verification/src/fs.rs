//! The filesystem facade: attribute construction and the query surface the
//! mount transport calls — lookup, attributes, directory listing, open,
//! read planning and release.  The tree and index are immutable after
//! startup; only the handle table changes.

use vstd::prelude::*;
use crate::types::{Attrs, BLOCK_SIZE, FileInfo, FSEntryInfo, NodeKind};
use crate::index::{DirChild, FlatNode, build_filesystem_map, ino_slot_ok};
use crate::engine::{OpenedArchive, ReadAction};
use crate::tree::{FSEntry, has_ino, uniq};

verus! {

/// The attributes of a regular file: read-only permissions, one link, all
/// timestamps at the modification instant, block count rounded up.
pub open spec fn spec_file_attrs(ino: u64, info: FileInfo) -> Attrs {
    Attrs {
        ino,
        size: info.size,
        blocks: (info.size as int / (BLOCK_SIZE as int) + (if info.size as int % (
        BLOCK_SIZE as int) == 0 {
            0int
        } else {
            1int
        })) as u64,
        time: info.time,
        kind: NodeKind::RegularFile,
        perm: 0o644,
        nlink: 1,
        uid: 501,
        gid: 20,
        blksize: BLOCK_SIZE as u32,
    }
}

/// The attributes of a directory: size and block count zero, epoch
/// timestamps, and the same fixed block size as every other node.
pub open spec fn spec_dir_attrs(ino: u64) -> Attrs {
    Attrs {
        ino,
        size: 0,
        blocks: 0,
        time: 0,
        kind: NodeKind::Directory,
        perm: 0o755,
        nlink: 2,
        uid: 501,
        gid: 20,
        blksize: BLOCK_SIZE as u32,
    }
}

/// File attributes, exactly as the spec-level construction says.
pub fn file_attrs(ino: u64, info: FileInfo) -> (r: Attrs)
    ensures
        r == spec_file_attrs(ino, info),
{
    proof {
        assert(info.size as int / (BLOCK_SIZE as int) < u64::MAX as int) by (nonlinear_arith);
    }
    let blocks = info.size / BLOCK_SIZE + (if info.size % BLOCK_SIZE == 0 {
        0u64
    } else {
        1u64
    });
    Attrs {
        ino,
        size: info.size,
        blocks,
        time: info.time,
        kind: NodeKind::RegularFile,
        perm: 0o644,
        nlink: 1,
        uid: 501,
        gid: 20,
        blksize: BLOCK_SIZE as u32,
    }
}

/// Directory attributes, exactly as the spec-level construction says.
pub fn dir_attrs(ino: u64) -> (r: Attrs)
    ensures
        r == spec_dir_attrs(ino),
{
    Attrs {
        ino,
        size: 0,
        blocks: 0,
        time: 0,
        kind: NodeKind::Directory,
        perm: 0o755,
        nlink: 2,
        uid: 501,
        gid: 20,
        blksize: BLOCK_SIZE as u32,
    }
}

impl FSEntry {
    /// The attribute reply for this node.
    pub fn attrs(&self) -> (r: Attrs)
        ensures
            r == (match *self {
                FSEntry::File { ino, info } => spec_file_attrs(ino, info.info),
                FSEntry::Directory { ino, .. } => spec_dir_attrs(ino),
            }),
    {
        match self {
            FSEntry::File { ino, info } => file_attrs(*ino, info.info),
            FSEntry::Directory { ino, .. } => dir_attrs(*ino),
        }
    }
}

/// The index slot of an inode, or nothing when the inode is out of range
/// or unassigned.
pub open spec fn spec_node(v: Seq<Option<FlatNode>>, ino: u64) -> Option<FlatNode> {
    if (ino as int) < v.len() {
        v[ino as int]
    } else {
        Option::None
    }
}

/// The attribute reply an index slot produces.
pub open spec fn spec_slot_attrs(ino: u64, n: FlatNode) -> Attrs {
    match n {
        FlatNode::File { info, .. } => spec_file_attrs(ino, info),
        FlatNode::Dir { .. } => spec_dir_attrs(ino),
    }
}

/// The file metadata of an inode, or nothing when it is not a file.
pub open spec fn spec_file_of(v: Seq<Option<FlatNode>>, ino: u64) -> Option<FSEntryInfo> {
    match spec_node(v, ino) {
        Option::Some(FlatNode::File { info, source }) => Some(FSEntryInfo { info, source }),
        _ => Option::None,
    }
}

/// The first child with the given name.
pub open spec fn find_child(entries: Seq<DirChild>, name: Seq<u8>) -> Option<DirChild>
    decreases entries.len(),
{
    if entries.len() == 0 {
        Option::None
    } else if entries[0].name@ == name {
        Some(entries[0])
    } else {
        find_child(entries.drop_first(), name)
    }
}

/// `find_child` returns the entry at the first matching index.
proof fn lemma_find_child_at(entries: Seq<DirChild>, name: Seq<u8>, i: int)
    requires
        0 <= i < entries.len(),
        entries[i].name@ == name,
        forall|j: int| 0 <= j < i ==> entries[j].name@ != name,
    ensures
        find_child(entries, name) == Some(entries[i]),
    decreases entries.len(),
{
    if i > 0 {
        lemma_find_child_at(entries.drop_first(), name, i - 1);
    }
}

/// `find_child` finds nothing when no name matches.
proof fn lemma_find_child_none(entries: Seq<DirChild>, name: Seq<u8>)
    requires
        forall|j: int| 0 <= j < entries.len() ==> entries[j].name@ != name,
    ensures
        find_child(entries, name) is None,
    decreases entries.len(),
{
    if entries.len() > 0 {
        lemma_find_child_none(entries.drop_first(), name);
    }
}

/// What a lookup must answer: the attributes of the named child of the
/// parent directory, or nothing when any step fails.
pub open spec fn spec_lookup(v: Seq<Option<FlatNode>>, parent: u64, name: Seq<u8>) -> Option<
    Attrs,
> {
    match spec_node(v, parent) {
        Option::Some(FlatNode::Dir { entries }) => match find_child(entries@, name) {
            Option::Some(c) => match spec_node(v, c.ino) {
                Option::Some(n) => Some(spec_slot_attrs(c.ino, n)),
                Option::None => Option::None,
            },
            Option::None => Option::None,
        },
        _ => Option::None,
    }
}

/// The handle slot of a handle id, or nothing when the id was never given
/// out.
pub open spec fn spec_slot(h: Seq<Option<OpenedArchive>>, fh: u64) -> Option<OpenedArchive> {
    if (fh as int) < h.len() {
        h[fh as int]
    } else {
        Option::None
    }
}

/// One read request's decision and the handle table after it, over the
/// index and the handle table: a viable forward request continues the
/// handle's stream, anything else reopens the file's source from its
/// start, and an inode that is no file — or a handle never given out —
/// yields the uniform not-found answer and changes nothing.
pub open spec fn spec_read_step(
    h: Seq<Option<OpenedArchive>>,
    v: Seq<Option<FlatNode>>,
    ino: u64,
    fh: u64,
    offset: u64,
    size: u32,
) -> (ReadAction, Seq<Option<OpenedArchive>>) {
    let st = spec_slot(h, fh);
    if st is Some && offset >= st.unwrap().offset {
        (
            ReadAction::Continue { skip: (offset - st.unwrap().offset) as u64, take: size as u64 },
            h.update(
                fh as int,
                Some(
                    OpenedArchive {
                        offset: (offset + size) as u64,
                        source: st.unwrap().source,
                    },
                ),
            ),
        )
    } else if (fh as int) < h.len() && spec_file_of(v, ino) is Some {
        let rf = spec_file_of(v, ino).unwrap();
        (
            ReadAction::Reopen { source: rf.source, skip: offset, take: size as u64 },
            h.update(
                fh as int,
                Some(OpenedArchive { offset: (offset + size) as u64, source: rf.source }),
            ),
        )
    } else {
        (ReadAction::NotFound, h)
    }
}

/// The mounted filesystem state: the immutable inode index and the
/// mutable handle table with its monotonically increasing id counter.
pub struct WinbackupFS {
    pub filesystem: Vec<Option<FlatNode>>,
    pub handlers: Vec<Option<OpenedArchive>>,
    pub handlers_counter: u64,
}

impl WinbackupFS {
    /// Builds the filesystem state from a finished tree whose inodes are
    /// unique and all lie below `counter`: the index maps every inode of
    /// the tree to the flat image of that inode's node and holds nothing
    /// else, and the handle table starts empty.
    pub fn from_tree(root: &FSEntry, counter: u64) -> (r: WinbackupFS)
        requires
            uniq(*root),
            counter as int <= usize::MAX as int,
            forall|i: u64| #[trigger] has_ino(*root, i) ==> i < counter,
        ensures
            r.filesystem@.len() == counter as int,
            forall|i: u64|
                #[trigger] has_ino(*root, i) ==> ino_slot_ok(*root, i, r.filesystem@[i as int]),
            forall|i: u64|
                i < counter && !(#[trigger] has_ino(*root, i)) ==> r.filesystem@[i as int]
                    is None,
            r.handlers@.len() == 0,
            r.handlers_counter == 0,
    {
        let n = counter as usize;
        let mut ino_to_entry: Vec<Option<FlatNode>> = Vec::new();
        let mut i: usize = 0;
        while i < n
            invariant
                0 <= i <= n,
                ino_to_entry@.len() == i,
                forall|j: int| 0 <= j < i ==> ino_to_entry@[j] is None,
            decreases n - i,
        {
            ino_to_entry.push(None);
            i += 1;
        }
        proof {
            assert(forall|j: int| 0 <= j < ino_to_entry@.len() ==> ino_to_entry@[j] is None);
        }
        build_filesystem_map(root, &mut ino_to_entry);
        WinbackupFS { filesystem: ino_to_entry, handlers: Vec::new(), handlers_counter: 0 }
    }

    /// Looks a child up by name under a parent inode: its attributes,
    /// exactly as `spec_lookup` says; the uniform not-found answer when the
    /// parent is no directory, has no such child, or the child's slot is
    /// empty.
    #[verifier::loop_isolation(false)]
    pub fn lookup(&self, parent: u64, name: &[u8]) -> (r: Option<Attrs>)
        ensures
            r == spec_lookup(self.filesystem@, parent, name@),
    {
        if parent >= self.filesystem.len() as u64 {
            return None;
        }
        let slot = parent as usize;
        match &self.filesystem[slot] {
            Some(FlatNode::Dir { entries }) => {
                let mut k: usize = 0;
                while k < entries.len()
                    invariant
                        0 <= k <= entries@.len(),
                        forall|j: int| 0 <= j < k ==> (#[trigger] entries@[j]).name@ != name@,
                    decreases entries@.len() - k,
                {
                    if crate::types::bytes_eq(entries[k].name.as_slice(), name) {
                        proof {
                            lemma_find_child_at(entries@, name@, k as int);
                        }
                        let child_ino = entries[k].ino;
                        return self.getattr(child_ino);
                    }
                    k += 1;
                }
                proof {
                    lemma_find_child_none(entries@, name@);
                }
                None
            },
            _ => None,
        }
    }

    /// The attributes of an inode, or nothing when it is unknown.
    pub fn getattr(&self, ino: u64) -> (r: Option<Attrs>)
        ensures
            match r {
                Option::Some(at) => spec_node(self.filesystem@, ino) matches Option::Some(n)
                    && at == spec_slot_attrs(ino, n),
                Option::None => spec_node(self.filesystem@, ino) is None,
            },
    {
        if ino >= self.filesystem.len() as u64 {
            return None;
        }
        let slot = ino as usize;
        proof {
            assert(slot as int == ino as int);
        }
        match &self.filesystem[slot] {
            Some(FlatNode::File { info, .. }) => Some(file_attrs(ino, *info)),
            Some(FlatNode::Dir { .. }) => Some(dir_attrs(ino)),
            None => None,
        }
    }

    /// The children of a directory inode from a listing position on, each
    /// with the position to resume after it; nothing when the inode is not
    /// a directory.  The order is the creation order of the children and
    /// is stable for the life of the process.
    pub fn readdir(&self, ino: u64, offset: usize) -> (r: Option<Vec<(Vec<u8>, u64, bool, usize)>>)
        ensures
            match r {
                Option::Some(listing) => {
                    &&& spec_node(self.filesystem@, ino) matches Option::Some(
                        FlatNode::Dir { entries },
                    )
                    &&& listing@.len() == (if offset <= entries@.len() {
                        entries@.len() - offset
                    } else {
                        0
                    })
                    &&& forall|j: int|
                        0 <= j < listing@.len() ==> {
                            let e = entries@[j + offset];
                            (#[trigger] listing@[j]).0@ == e.name@ && listing@[j].1 == e.ino
                                && listing@[j].2 == e.is_dir && listing@[j].3 == j + offset + 1
                        }
                },
                Option::None => !(spec_node(self.filesystem@, ino) matches Option::Some(
                    FlatNode::Dir { .. },
                )),
            },
    {
        if ino >= self.filesystem.len() as u64 {
            return None;
        }
        let slot = ino as usize;
        match &self.filesystem[slot] {
            Some(FlatNode::Dir { entries }) => {
                let mut out: Vec<(Vec<u8>, u64, bool, usize)> = Vec::new();
                let mut k: usize = offset;
                if k > entries.len() {
                    return Some(out);
                }
                while k < entries.len()
                    invariant
                        offset <= k <= entries@.len(),
                        out@.len() == k - offset,
                        forall|j: int|
                            0 <= j < out@.len() ==> {
                                let e = entries@[j + offset];
                                (#[trigger] out@[j]).0@ == e.name@ && out@[j].1 == e.ino
                                    && out@[j].2 == e.is_dir && out@[j].3 == j + offset + 1
                            },
                    decreases entries@.len() - k,
                {
                    let e = &entries[k];
                    out.push((crate::types::copy_bytes(e.name.as_slice()), e.ino, e.is_dir, k + 1));
                    k += 1;
                }
                Some(out)
            },
            _ => None,
        }
    }

    /// Allocates the next handle id.  No decoder is opened yet: decoding
    /// is deferred to the first read on the handle.
    pub fn open(&mut self) -> (fh: u64)
        requires
            old(self).handlers@.len() == old(self).handlers_counter,
            old(self).handlers_counter < u64::MAX,
        ensures
            fh == old(self).handlers_counter,
            final(self).handlers_counter == old(self).handlers_counter + 1,
            final(self).handlers@ == old(self).handlers@.push(Option::<OpenedArchive>::None),
            final(self).filesystem@ == old(self).filesystem@,
    {
        let fh = self.handlers_counter;
        self.handlers.push(None);
        self.handlers_counter = self.handlers_counter + 1;
        fh
    }

    /// Decides one read request and advances the handle's consumed offset,
    /// exactly as `spec_read_step` says.
    #[verifier::rlimit(100)]
    pub fn read(&mut self, ino: u64, fh: u64, offset: u64, size: u32) -> (r: ReadAction)
        requires
            offset + size <= u64::MAX,
        ensures
            (r, final(self).handlers@) == spec_read_step(
                old(self).handlers@,
                old(self).filesystem@,
                ino,
                fh,
                offset,
                size,
            ),
            final(self).filesystem@ == old(self).filesystem@,
            final(self).handlers_counter == old(self).handlers_counter,
    {
        if fh < self.handlers.len() as u64 {
            let slot = fh as usize;
            let viable = match &self.handlers[slot] {
                Some(st) => offset >= st.offset,
                None => false,
            };
            if viable {
                let st = match &self.handlers[slot] {
                    Some(st) => *st,
                    None => OpenedArchive { offset: 0, source: crate::types::SourceRef { archive_id: 0, entry_id: 0 } },
                };
                let skip = offset - st.offset;
                let _ = self.handlers.remove(slot);
                self.handlers.insert(
                    slot,
                    Some(OpenedArchive { offset: offset + size as u64, source: st.source }),
                );
                proof {
                    assert(self.handlers@ =~= old(self).handlers@.update(
                        fh as int,
                        Some(OpenedArchive { offset: (offset + size) as u64, source: st.source }),
                    ));
                }
                return ReadAction::Continue { skip, take: size as u64 };
            }
            if ino < self.filesystem.len() as u64 {
                let islot = ino as usize;
                match &self.filesystem[islot] {
                    Some(FlatNode::File { source, .. }) => {
                        let src = *source;
                        let _ = self.handlers.remove(slot);
                        self.handlers.insert(
                            slot,
                            Some(OpenedArchive { offset: offset + size as u64, source: src }),
                        );
                        proof {
                            assert(self.handlers@ =~= old(self).handlers@.update(
                                fh as int,
                                Some(
                                    OpenedArchive {
                                        offset: (offset + size) as u64,
                                        source: src,
                                    },
                                ),
                            ));
                        }
                        return ReadAction::Reopen { source: src, skip: offset, take: size as u64 };
                    },
                    _ => {
                        return ReadAction::NotFound;
                    },
                }
            }
            return ReadAction::NotFound;
        }
        ReadAction::NotFound
    }

    /// Drops the handle's decode state; the id is never reused, and a
    /// later read on the same id builds fresh state as a new handle would.
    pub fn release(&mut self, fh: u64)
        ensures
            final(self).handlers@ == (if (fh as int) < old(self).handlers@.len() {
                old(self).handlers@.update(fh as int, Option::<OpenedArchive>::None)
            } else {
                old(self).handlers@
            }),
            final(self).filesystem@ == old(self).filesystem@,
            final(self).handlers_counter == old(self).handlers_counter,
    {
        if fh < self.handlers.len() as u64 {
            let slot = fh as usize;
            let _ = self.handlers.remove(slot);
            self.handlers.insert(slot, None);
            proof {
                assert(self.handlers@ =~= old(self).handlers@.update(
                    fh as int,
                    Option::<OpenedArchive>::None,
                ));
            }
        }
    }
}

/// Release law, table side: a handle whose state was released decides a
/// read exactly as a freshly opened handle that was never read — both
/// hold no stream, so the same request yields the same action.
pub proof fn lemma_release_reads_like_fresh(
    h1: Seq<Option<OpenedArchive>>,
    h2: Seq<Option<OpenedArchive>>,
    v: Seq<Option<FlatNode>>,
    ino: u64,
    fh1: u64,
    fh2: u64,
    offset: u64,
    size: u32,
)
    requires
        spec_slot(h1, fh1) is None,
        spec_slot(h2, fh2) is None,
        (fh1 as int) < h1.len(),
        (fh2 as int) < h2.len(),
    ensures
        spec_read_step(h1, v, ino, fh1, offset, size).0 == spec_read_step(
            h2,
            v,
            ino,
            fh2,
            offset,
            size,
        ).0,
{
}

} // verus!
