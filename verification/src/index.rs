//! The inode index: the finished tree flattened into a table addressed by
//! inode, built once after the tree is final and read-only afterwards.

use vstd::prelude::*;
use crate::types::{FileInfo, FSEntryInfo, SourceRef};
use crate::tree::{DirEnt, FSEntry, has_ino, uniq};

verus! {

/// One child of a flattened directory.
pub struct DirChild {
    pub name: Vec<u8>,
    pub ino: u64,
    pub is_dir: bool,
}

/// One slot of the index: what the node with that inode is.
pub enum FlatNode {
    File { info: FileInfo, source: SourceRef },
    Dir { entries: Vec<DirChild> },
}

/// Whether a slot is the flat image of a file node with this metadata.
pub open spec fn flat_file_matches(info: FSEntryInfo, f: FlatNode) -> bool {
    f matches FlatNode::File { info: fi, source } && fi == info.info && source == info.source
}

/// Whether a slot is the flat image of a directory with these children:
/// one flat child per tree child, in the same order, carrying its name,
/// its inode and its kind.
pub open spec fn flat_dir_matches(entries: Seq<DirEnt>, f: FlatNode) -> bool {
    match f {
        FlatNode::Dir { entries: ce } => {
            &&& ce@.len() == entries.len()
            &&& forall|k: int|
                0 <= k < entries.len() ==> (#[trigger] ce@[k]).name@ == entries[k].name@
                    && ce@[k].ino == entries[k].entry.ino() && ce@[k].is_dir
                    == entries[k].entry.is_directory()
        },
        FlatNode::File { .. } => false,
    }
}

/// The slot is the flat image of every node in the subtree at `n` whose
/// inode is `i` — with unique inodes, of *the* node with inode `i`: a
/// file's metadata and source are kept, a directory's children are listed
/// by name, inode and kind in child order.
pub open spec fn ino_slot_ok(n: FSEntry, i: u64, slot: Option<FlatNode>) -> bool
    decreases n,
{
    match n {
        FSEntry::File { ino, info } => ino == i ==> (slot matches Some(f) && flat_file_matches(
            info,
            f,
        )),
        FSEntry::Directory { ino, entries } => (ino == i ==> (slot matches Some(f)
            && flat_dir_matches(entries@, f))) && (forall|k: int|
            0 <= k < entries@.len() ==> ino_slot_ok(#[trigger] entries@[k].entry, i, slot)),
    }
}

/// A subtree without the inode puts no demand on the slot.
proof fn lemma_slot_ok_vacuous(n: FSEntry, i: u64, slot: Option<FlatNode>)
    requires
        !has_ino(n, i),
    ensures
        ino_slot_ok(n, i, slot),
    decreases n,
{
    match n {
        FSEntry::File { .. } => {},
        FSEntry::Directory { ino, entries } => {
            assert forall|k: int| 0 <= k < entries@.len() implies ino_slot_ok(
                #[trigger] entries@[k].entry,
                i,
                slot,
            ) by {
                assert(!has_ino(entries@[k].entry, i)) by {
                    if has_ino(entries@[k].entry, i) {
                        assert(has_ino(n, i));
                    }
                }
                lemma_slot_ok_vacuous(entries@[k].entry, i, slot);
            }
        },
    }
}

/// Flattens the tree below `root` into the table: the slot of every inode
/// of the tree becomes the flat image of that inode's node, and every
/// other slot keeps its value.
#[verifier::rlimit(100)]
#[verifier::spinoff_prover]
#[verifier::loop_isolation(false)]
pub fn build_filesystem_map(root: &FSEntry, ino_to_entry: &mut Vec<Option<FlatNode>>)
    requires
        uniq(*root),
        forall|i: u64| has_ino(*root, i) ==> (i as int) < old(ino_to_entry)@.len(),
    ensures
        final(ino_to_entry)@.len() == old(ino_to_entry)@.len(),
        forall|i: u64|
            #[trigger] has_ino(*root, i) ==> ino_slot_ok(
                *root,
                i,
                final(ino_to_entry)@[i as int],
            ),
        forall|i: u64|
            (i as int) < old(ino_to_entry)@.len() && !(#[trigger] has_ino(*root, i))
                ==> final(ino_to_entry)@[i as int] == old(ino_to_entry)@[i as int],
    decreases *root,
{
    match root {
        FSEntry::File { ino, info } => {
            let node = FlatNode::File { info: info.info, source: info.source };
            let slot: usize = *ino as usize;
            assert(has_ino(*root, *ino));
            let ghost mid = ino_to_entry@;
            let _ = ino_to_entry.remove(slot);
            ino_to_entry.insert(slot, Some(node));
            proof {
                assert(slot as int == *ino as int);
                assert(ino_to_entry@.len() == mid.len());
                assert(forall|j: int|
                    0 <= j < mid.len() && j != slot ==> ino_to_entry@[j] == mid[j]);
                assert(ino_slot_ok(*root, *ino, ino_to_entry@[slot as int]));
                assert forall|i2: u64| #[trigger] has_ino(*root, i2) implies ino_slot_ok(
                    *root,
                    i2,
                    ino_to_entry@[i2 as int],
                ) by {
                    assert(i2 == *ino);
                }
            }
        },
        FSEntry::Directory { ino, entries } => {
            proof {
                assert(*root == FSEntry::Directory { ino: *ino, entries: *entries });
            }
            let mut children: Vec<DirChild> = Vec::new();
            let mut i: usize = 0;
            let ghost orig = ino_to_entry@;
            while i < entries.len()
                invariant
                    0 <= i <= entries@.len(),
                    ino_to_entry@.len() == orig.len(),
                    forall|i2: u64| has_ino(*root, i2) ==> (i2 as int) < orig.len(),
                    forall|i2: u64|
                        (i2 as int) < orig.len() && !(#[trigger] has_ino(*root, i2))
                            ==> ino_to_entry@[i2 as int] == orig[i2 as int],
                    forall|k: int, i2: u64|
                        0 <= k < i && #[trigger] has_ino(entries@[k].entry, i2) ==> ino_slot_ok(
                            entries@[k].entry,
                            i2,
                            ino_to_entry@[i2 as int],
                        ),
                    children@.len() == i,
                    forall|k: int|
                        0 <= k < i ==> (#[trigger] children@[k]).name@ == entries@[k].name@
                            && children@[k].ino == entries@[k].entry.ino() && children@[k].is_dir
                            == entries@[k].entry.is_directory(),
                decreases entries@.len() - i,
            {
                proof {
                    assert forall|i2: u64| #[trigger] has_ino(entries@[i as int].entry, i2)
                        implies (i2 as int) < ino_to_entry@.len() by {
                        assert(has_ino(*root, i2));
                    }
                    assert(uniq(entries@[i as int].entry));
                }
                let ghost pre = ino_to_entry@;
                build_filesystem_map(&entries[i].entry, ino_to_entry);
                proof {
                    // Earlier children's inodes lie outside this child, so
                    // the call leaves their slots as they were; the child's
                    // own inodes now satisfy the correspondence.
                    assert forall|k: int, i2: u64|
                        0 <= k < i + 1 && #[trigger] has_ino(entries@[k].entry, i2)
                            implies ino_slot_ok(
                        entries@[k].entry,
                        i2,
                        ino_to_entry@[i2 as int],
                    ) by {
                        assert(has_ino(*root, i2));
                        assert((i2 as int) < pre.len());
                        if k < i {
                            assert(!has_ino(entries@[i as int].entry, i2));
                            assert(ino_to_entry@[i2 as int] == pre[i2 as int]);
                        }
                    }
                    assert forall|i2: u64|
                        (i2 as int) < orig.len() && !(#[trigger] has_ino(*root, i2))
                            implies ino_to_entry@[i2 as int] == orig[i2 as int] by {
                        assert(!has_ino(entries@[i as int].entry, i2)) by {
                            if has_ino(entries@[i as int].entry, i2) {
                                assert(has_ino(*root, i2));
                            }
                        }
                        assert(ino_to_entry@[i2 as int] == pre[i2 as int]);
                    }
                }
                let child = &entries[i];
                let is_dir = match &child.entry {
                    FSEntry::Directory { .. } => true,
                    FSEntry::File { .. } => false,
                };
                let child_ino = match &child.entry {
                    FSEntry::Directory { ino: ci, .. } => *ci,
                    FSEntry::File { ino: ci, .. } => *ci,
                };
                children.push(
                    DirChild {
                        name: crate::types::copy_bytes(child.name.as_slice()),
                        ino: child_ino,
                        is_dir,
                    },
                );
                i += 1;
            }
            let node = FlatNode::Dir { entries: children };
            let ghost nodeg = node;
            let slot: usize = *ino as usize;
            proof {
                assert(has_ino(*root, *ino));
                assert(flat_dir_matches(entries@, nodeg));
            }
            let ghost mid = ino_to_entry@;
            let _ = ino_to_entry.remove(slot);
            ino_to_entry.insert(slot, Some(node));
            proof {
                assert(slot as int == *ino as int);
                assert(ino_to_entry@.len() == mid.len());
                assert(forall|j: int|
                    0 <= j < mid.len() && j != slot ==> ino_to_entry@[j] == mid[j]);
                assert(ino_to_entry@[slot as int] == Some(nodeg));
                assert forall|i2: u64| #[trigger] has_ino(*root, i2) implies ino_slot_ok(
                    *root,
                    i2,
                    ino_to_entry@[i2 as int],
                ) by {
                    let s = ino_to_entry@[i2 as int];
                    if i2 == *ino {
                        assert(s == Some(nodeg));
                        assert forall|k: int| 0 <= k < entries@.len() implies ino_slot_ok(
                            #[trigger] entries@[k].entry,
                            i2,
                            s,
                        ) by {
                            assert(!has_ino(entries@[k].entry, *ino));
                            lemma_slot_ok_vacuous(entries@[k].entry, i2, s);
                        }
                    } else {
                        assert(s == mid[i2 as int]);
                        let k0 = choose|k: int|
                            0 <= k < entries@.len() && has_ino(#[trigger] entries@[k].entry, i2);
                        assert(has_ino(entries@[k0].entry, i2));
                        assert forall|k: int| 0 <= k < entries@.len() implies ino_slot_ok(
                            #[trigger] entries@[k].entry,
                            i2,
                            s,
                        ) by {
                            if k == k0 {
                                assert(ino_slot_ok(entries@[k0].entry, i2, mid[i2 as int]));
                            } else {
                                assert(!has_ino(entries@[k].entry, i2));
                                lemma_slot_ok_vacuous(entries@[k].entry, i2, s);
                            }
                        }
                    }
                }
                assert forall|i2: u64|
                    (i2 as int) < orig.len() && !(#[trigger] has_ino(*root, i2))
                        implies ino_to_entry@[i2 as int] == orig[i2 as int] by {
                    assert(i2 != *ino);
                    assert(ino_to_entry@[i2 as int] == mid[i2 as int]);
                }
            }
        },
    }
}

} // verus!
