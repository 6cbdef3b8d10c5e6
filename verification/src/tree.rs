//! The virtual directory tree and its builder.
//!
//! Scan results from all archives are merged per path by recency — for each
//! path the candidate with the greatest modification time wins — and the
//! winning paths are split on the archive-native separator into a directory
//! chain and a leaf name.  Walking the chain creates missing directories on
//! demand; every node gets the next unused inode from a counter that starts
//! right after the reserved root inode.

use vstd::prelude::*;
use crate::types::{FileInfo, FSEntryInfo, RawEntry, SourceRef};
use crate::scan::{FileView, WinbackupTreeBuilder, file_view, scan_spec};

verus! {

/// The archive-native path separator (`\`).
pub const SEPARATOR: u8 = 92;

/// The reserved inode of the root directory.
pub const ROOT_INO: u64 = 1;

/// One node of the virtual tree.
pub enum FSEntry {
    File { ino: u64, info: FSEntryInfo },
    Directory { ino: u64, entries: Vec<DirEnt> },
}

/// One named child of a directory.
pub struct DirEnt {
    pub name: Vec<u8>,
    pub entry: FSEntry,
}

impl FSEntry {
    /// An empty directory with the given inode.
    pub fn dir(ino: u64) -> (r: Self)
        ensures
            r matches FSEntry::Directory { ino: i, entries } && i == ino && entries@.len() == 0,
    {
        FSEntry::Directory { ino, entries: Vec::new() }
    }

    /// This node's own inode.
    pub open spec fn ino(self) -> u64 {
        match self {
            FSEntry::File { ino, .. } => ino,
            FSEntry::Directory { ino, .. } => ino,
        }
    }

    /// Whether this node is a directory.
    pub open spec fn is_directory(self) -> bool {
        self matches FSEntry::Directory { .. }
    }
}

/// The first child with the given name, scanning in insertion order.
pub open spec fn find_name(entries: Seq<DirEnt>, name: Seq<u8>) -> Option<FSEntry>
    decreases entries.len(),
{
    if entries.len() == 0 {
        None
    } else if entries[0].name@ == name {
        Some(entries[0].entry)
    } else {
        find_name(entries.drop_first(), name)
    }
}

/// No two children of one directory share a name.
pub open spec fn names_unique(entries: Seq<DirEnt>) -> bool {
    forall|i: int, j: int|
        0 <= i < j < entries.len() ==> entries[i].name@ != entries[j].name@
}

/// Well-formed tree: every directory's child names are unique.
pub open spec fn wf(n: FSEntry) -> bool
    decreases n,
{
    match n {
        FSEntry::File { .. } => true,
        FSEntry::Directory { entries, .. } => names_unique(entries@) && (forall|k: int|
            0 <= k < entries@.len() ==> wf(#[trigger] entries@[k].entry)),
    }
}

/// Whether inode `i` occurs anywhere in the subtree rooted at `n`.
pub open spec fn has_ino(n: FSEntry, i: u64) -> bool
    decreases n,
{
    match n {
        FSEntry::File { ino, .. } => ino == i,
        FSEntry::Directory { ino, entries } => ino == i || (exists|k: int|
            0 <= k < entries@.len() && has_ino(#[trigger] entries@[k].entry, i)),
    }
}

/// Every inode in the subtree is below the counter value `c`.
pub open spec fn ino_bounded(n: FSEntry, c: u64) -> bool {
    forall|i: u64| #[trigger] has_ino(n, i) ==> i < c
}

/// No two distinct nodes of the subtree share an inode.
pub open spec fn uniq(n: FSEntry) -> bool
    decreases n,
{
    match n {
        FSEntry::File { .. } => true,
        FSEntry::Directory { ino, entries } => (forall|k: int|
            0 <= k < entries@.len() ==> uniq(#[trigger] entries@[k].entry)) && (forall|k: int|
            0 <= k < entries@.len() ==> !has_ino(#[trigger] entries@[k].entry, ino)) && (forall|
            k1: int,
            k2: int,
            i: u64,
        |
            0 <= k1 < k2 < entries@.len() && #[trigger] has_ino(entries@[k1].entry, i)
                ==> !(#[trigger] has_ino(entries@[k2].entry, i))),
    }
}

/// The node reached from `n` by following the path segments `segs`.
pub open spec fn node_at(n: FSEntry, segs: Seq<Seq<u8>>) -> Option<FSEntry>
    decreases segs.len(),
{
    if segs.len() == 0 {
        Some(n)
    } else {
        match n {
            FSEntry::File { .. } => None,
            FSEntry::Directory { entries, .. } => match find_name(entries@, segs[0]) {
                Option::None => None,
                Option::Some(child) => node_at(child, segs.drop_first()),
            },
        }
    }
}

/// Whether the node at `segs` exists and is a directory.
pub open spec fn is_dir_at(n: FSEntry, segs: Seq<Seq<u8>>) -> bool {
    match node_at(n, segs) {
        Option::Some(m) => m is Directory,
        Option::None => false,
    }
}

/// Whether the node at `segs` is the file described by `rf`.
pub open spec fn is_file_at(n: FSEntry, segs: Seq<Seq<u8>>, rf: FSEntryInfo) -> bool {
    match node_at(n, segs) {
        Option::Some(m) => m matches FSEntry::File { info, .. } && info == rf,
        Option::None => false,
    }
}

/// The metadata of the file at `segs`, or nothing when no file is there.
pub open spec fn file_entry_at(n: FSEntry, segs: Seq<Seq<u8>>) -> Option<FSEntryInfo> {
    match node_at(n, segs) {
        Option::Some(FSEntry::File { info, .. }) => Some(info),
        _ => Option::None,
    }
}

/// Every node already present along the directory chain is a directory, so
/// a walk creating the missing ones can reach the chain's end.  Nodes not
/// present yet are fine: they will be created.
pub open spec fn chain_clear(n: FSEntry, chain: Seq<Seq<u8>>) -> bool {
    forall|i: int|
        0 <= i <= chain.len() ==> (node_at(n, #[trigger] chain.take(i)) matches Option::Some(m)
            ==> m is Directory)
}

/// `a` is a (not necessarily strict) prefix of `b`.
pub open spec fn is_seg_prefix(a: Seq<Seq<u8>>, b: Seq<Seq<u8>>) -> bool {
    a.len() <= b.len() && a == b.take(a.len() as int)
}

/// Two paths are unrelated when neither is a prefix of the other; an insert
/// at one of them can never disturb the node at the other.
pub open spec fn unrelated(a: Seq<Seq<u8>>, b: Seq<Seq<u8>>) -> bool {
    !is_seg_prefix(a, b) && !is_seg_prefix(b, a)
}

/// The segments of an archive-native path, split on the separator.  A path
/// of length zero is one empty segment; a trailing separator yields a
/// trailing empty segment.
pub open spec fn split_on(s: Seq<u8>) -> Seq<Seq<u8>>
    decreases s.len(),
{
    if s.len() == 0 {
        seq![Seq::<u8>::empty()]
    } else if s.last() == SEPARATOR {
        split_on(s.drop_last()).push(Seq::<u8>::empty())
    } else {
        let p = split_on(s.drop_last());
        p.update(p.len() - 1, p.last().push(s.last()))
    }
}

/// Splitting always yields at least one segment.
pub proof fn lemma_split_on_nonempty(s: Seq<u8>)
    ensures
        split_on(s).len() >= 1,
    decreases s.len(),
{
    if s.len() > 0 {
        lemma_split_on_nonempty(s.drop_last());
    }
}

/// Splits a path into its directory chain and its leaf name, or nothing
/// when the path has no separator at all — such a path has no parent
/// context and is unrepresentable in the tree.
#[verifier::rlimit(100)]
#[verifier::spinoff_prover]
pub fn split_path(path: &[u8]) -> (r: Option<(Vec<Vec<u8>>, Vec<u8>)>)
    ensures
        match r {
            Option::Some((chain, leaf)) => {
                &&& split_on(path@).len() >= 2
                &&& chain@.len() == split_on(path@).len() - 1
                &&& forall|j: int|
                    0 <= j < chain@.len() ==> (#[trigger] chain@[j])@ == split_on(path@)[j]
                &&& leaf@ == split_on(path@).last()
            },
            Option::None => split_on(path@).len() < 2,
        },
{
    let mut done: Vec<Vec<u8>> = Vec::new();
    let mut cur: Vec<u8> = Vec::new();
    let mut i: usize = 0;
    proof {
        assert(path@.take(0) =~= Seq::<u8>::empty());
    }
    while i < path.len()
        invariant
            0 <= i <= path@.len(),
            split_on(path@.take(i as int)).len() == done@.len() + 1,
            forall|j: int|
                0 <= j < done@.len() ==> (#[trigger] done@[j])@ == split_on(path@.take(i as int))[j],
            cur@ == split_on(path@.take(i as int)).last(),
        decreases path@.len() - i,
    {
        let b = path[i];
        let ghost p = split_on(path@.take(i as int));
        proof {
            assert(path@.take(i + 1).drop_last() =~= path@.take(i as int));
            assert(path@.take(i + 1).last() == path@[i as int]);
            lemma_split_on_nonempty(path@.take(i as int));
        }
        if b == SEPARATOR {
            let ghost cur0 = cur@;
            done.push(cur);
            cur = Vec::new();
            proof {
                assert(split_on(path@.take(i + 1)) == p.push(Seq::<u8>::empty()));
                assert(done@[done@.len() - 1]@ == cur0);
            }
        } else {
            cur.push(b);
            proof {
                assert(split_on(path@.take(i + 1)) == p.update(p.len() - 1, p.last().push(b)));
            }
        }
        i += 1;
    }
    proof {
        assert(path@.take(path@.len() as int) =~= path@);
    }
    if done.len() == 0 {
        None
    } else {
        Some((done, cur))
    }
}

/// The spec-level segments of an executable directory chain.
pub open spec fn segs_of(chain: Seq<Vec<u8>>) -> Seq<Seq<u8>> {
    Seq::new(chain.len(), |j: int| chain[j]@)
}

/// The first child with `name`, as an index: the entry found is the first
/// one whose name matches.
fn find_index(entries: &Vec<DirEnt>, name: &[u8]) -> (r: Option<usize>)
    ensures
        match r {
            Option::Some(i) => {
                &&& i < entries@.len()
                &&& entries@[i as int].name@ == name@
                &&& forall|j: int| 0 <= j < i ==> entries@[j].name@ != name@
            },
            Option::None => forall|j: int| 0 <= j < entries@.len() ==> entries@[j].name@ != name@,
        },
{
    let mut i: usize = 0;
    while i < entries.len()
        invariant
            0 <= i <= entries@.len(),
            forall|j: int| 0 <= j < i ==> entries@[j].name@ != name@,
        decreases entries@.len() - i,
    {
        if crate::types::bytes_eq(entries[i].name.as_slice(), name) {
            return Some(i);
        }
        i += 1;
    }
    None
}

/// `find_name` returns the entry at the first index whose name matches.
proof fn lemma_find_name_at(entries: Seq<DirEnt>, name: Seq<u8>, i: int)
    requires
        0 <= i < entries.len(),
        entries[i].name@ == name,
        forall|j: int| 0 <= j < i ==> entries[j].name@ != name,
    ensures
        find_name(entries, name) == Some(entries[i].entry),
    decreases entries.len(),
{
    if i > 0 {
        lemma_find_name_at(entries.drop_first(), name, i - 1);
    }
}

/// `find_name` finds nothing when no name matches.
proof fn lemma_find_name_none(entries: Seq<DirEnt>, name: Seq<u8>)
    requires
        forall|j: int| 0 <= j < entries.len() ==> entries[j].name@ != name,
    ensures
        find_name(entries, name) is None,
    decreases entries.len(),
{
    if entries.len() > 0 {
        lemma_find_name_none(entries.drop_first(), name);
    }
}

/// Replacing one entry by another with the same name leaves lookups of
/// every other name unchanged.
proof fn lemma_find_name_update(entries: Seq<DirEnt>, idx: int, e: DirEnt, nm: Seq<u8>)
    requires
        0 <= idx < entries.len(),
        entries[idx].name@ == e.name@,
        nm != e.name@,
    ensures
        find_name(entries.update(idx, e), nm) == find_name(entries, nm),
    decreases entries.len(),
{
    let eu = entries.update(idx, e);
    if idx == 0 {
        assert(eu.drop_first() =~= entries.drop_first());
    } else {
        assert(eu[0] == entries[0]);
        if entries[0].name@ == nm {
        } else {
            assert(eu.drop_first() =~= entries.drop_first().update(idx - 1, e));
            lemma_find_name_update(entries.drop_first(), idx - 1, e, nm);
        }
    }
}

/// Appending an entry changes lookups only for its own name, and only when
/// that name was absent.
proof fn lemma_find_name_push(entries: Seq<DirEnt>, e: DirEnt, nm: Seq<u8>)
    ensures
        find_name(entries.push(e), nm) == (if find_name(entries, nm) is Some {
            find_name(entries, nm)
        } else if nm == e.name@ {
            Some(e.entry)
        } else {
            Option::<FSEntry>::None
        }),
    decreases entries.len(),
{
    let ep = entries.push(e);
    if entries.len() == 0 {
        assert(ep.drop_first() =~= Seq::<DirEnt>::empty());
        if e.name@ == nm {
        } else {
            lemma_find_name_none(ep.drop_first(), nm);
        }
    } else {
        assert(ep[0] == entries[0]);
        if entries[0].name@ == nm {
        } else {
            assert(ep.drop_first() =~= entries.drop_first().push(e));
            lemma_find_name_push(entries.drop_first(), e, nm);
        }
    }
}

/// With equal heads, prefix relations descend to the tails.
proof fn lemma_prefix_drop(a: Seq<Seq<u8>>, b: Seq<Seq<u8>>)
    requires
        a.len() >= 1,
        b.len() >= 1,
        a[0] == b[0],
    ensures
        is_seg_prefix(a, b) <==> is_seg_prefix(a.drop_first(), b.drop_first()),
{
    if is_seg_prefix(a, b) {
        assert(forall|j: int| 0 <= j < a.len() ==> a[j] == b.take(a.len() as int)[j]);
        assert(a.drop_first() =~= b.drop_first().take(a.len() - 1));
    }
    if is_seg_prefix(a.drop_first(), b.drop_first()) {
        assert forall|j: int| 0 <= j < a.len() implies a[j] == b.take(a.len() as int)[j] by {
            if j > 0 {
                assert(a[j] == a.drop_first()[j - 1]);
                assert(a.drop_first()[j - 1] == b.drop_first().take(a.len() - 1)[j - 1]);
                assert(b.drop_first().take(a.len() - 1)[j - 1] == b[j]);
            }
        }
        assert(a =~= b.take(a.len() as int));
    }
}

/// An empty path is a prefix of every path.
proof fn lemma_empty_prefix(a: Seq<Seq<u8>>, b: Seq<Seq<u8>>)
    requires
        a.len() == 0,
    ensures
        is_seg_prefix(a, b),
{
    assert(a =~= b.take(0));
}

/// Inserts the file `rf` at the path whose directory chain (from depth `d`
/// on) is `chain` and whose leaf name is `name`, creating missing
/// directories on demand and drawing fresh inodes from `counter`.  A chain
/// segment that names an existing file blocks the walk and the tree below
/// `n` keeps only the directories created so far, as the builder's walk
/// does.
#[verifier::rlimit(100)]
#[verifier::spinoff_prover]
pub fn insert_rec(
    n: FSEntry,
    chain: &Vec<Vec<u8>>,
    d: usize,
    name: &Vec<u8>,
    rf: FSEntryInfo,
    counter: u64,
) -> (r: (FSEntry, u64))
    requires
        wf(n),
        uniq(n),
        ino_bounded(n, counter),
        d <= chain@.len(),
        counter as int + (chain@.len() - d) + 1 <= u64::MAX as int,
    ensures
        counter <= r.1,
        r.1 as int <= counter as int + (chain@.len() - d) + 1,
        wf(r.0),
        uniq(r.0),
        ino_bounded(r.0, r.1),
        r.0.ino() == n.ino(),
        r.0 is Directory <==> n is Directory,
        forall|i: u64| #[trigger] has_ino(r.0, i) ==> has_ino(n, i) || (counter <= i < r.1),
        forall|q: Seq<Seq<u8>>|
            unrelated(q, segs_of(chain@).skip(d as int).push(name@)) ==> #[trigger] node_at(
                r.0,
                q,
            ) == node_at(n, q),
        (n is Directory && chain_clear(n, segs_of(chain@).skip(d as int))) ==> is_file_at(
            r.0,
            segs_of(chain@).skip(d as int).push(name@),
            rf,
        ),
        (n is Directory && chain_clear(n, segs_of(chain@).skip(d as int))) ==> forall|i: int|
            0 <= i <= chain@.len() - d ==> is_dir_at(
                r.0,
                #[trigger] segs_of(chain@).skip(d as int).take(i),
            ),
        forall|q: Seq<Seq<u8>>|
            is_seg_prefix(q, segs_of(chain@).skip(d as int).push(name@)) && q != segs_of(
                chain@,
            ).skip(d as int).push(name@) ==> (#[trigger] node_at(r.0, q) matches Some(m) ==> (
            m is Directory || node_at(n, q) == Some(m))),
        forall|q: Seq<Seq<u8>>|
            (#[trigger] file_entry_at(r.0, q)) matches Some(e) ==> (file_entry_at(n, q) == Some(
                e,
            ) || (q == segs_of(chain@).skip(d as int).push(name@) && e == rf)),
        forall|q: Seq<Seq<u8>>|
            q.len() > 0 && (#[trigger] node_at(r.0, q)) is Some ==> (node_at(n, q) is Some
                || is_seg_prefix(q, segs_of(chain@).skip(d as int).push(name@))),
        !(n is Directory) ==> r.0 == n && r.1 == counter,
    decreases chain@.len() - d,
{
    let ghost crest = segs_of(chain@).skip(d as int);
    let ghost frest = crest.push(name@);
    match n {
        FSEntry::File { ino, info } => {
            let m = FSEntry::File { ino, info };
            proof {
                assert(m == n);
                assert(!chain_clear(n, crest)) by {
                    assert(crest.take(0) =~= Seq::<Seq<u8>>::empty());
                    assert(node_at(n, crest.take(0)) == Some(n));
                }
            }
            (m, counter)
        },
        FSEntry::Directory { ino, mut entries } => {
            let ghost n0 = FSEntry::Directory { ino, entries };
            proof {
                assert(n0 == n);
            }
            if d == chain.len() {
                // The chain is exhausted: place the leaf here, replacing any
                // node that carries the same name.
                proof {
                    assert(crest =~= Seq::<Seq<u8>>::empty());
                }
                let idx_opt = find_index(&entries, name.as_slice());
                let ghost e0 = entries@;
                let leaf_ent = DirEnt {
                    name: crate::types::copy_bytes(name.as_slice()),
                    entry: FSEntry::File { ino: counter, info: rf },
                };
                let ghost le = leaf_ent;
                match idx_opt {
                    Some(i) => {
                        let removed = entries.remove(i);
                        entries.insert(i, leaf_ent);
                        proof {
                            assert(removed == e0[i as int]);
                        }
                    },
                    None => {
                        entries.push(leaf_ent);
                    },
                }
                let out = FSEntry::Directory { ino, entries };
                let ghost e2 = entries@;
                let ghost newk: int = match idx_opt {
                    Option::Some(i) => i as int,
                    Option::None => e0.len() as int,
                };
                proof {
                    // Where the new leaf sits and that everything else is
                    // exactly as before.
                    assert(le.name@ == name@ && le.entry == FSEntry::File {
                        ino: counter,
                        info: rf,
                    });
                    if idx_opt is Some {
                        assert(e2.len() == e0.len());
                        assert(e2[newk] == le);
                        assert(forall|j: int| 0 <= j < e2.len() && j != newk ==> e2[j] == e0[j]);
                    } else {
                        assert(e2.len() == e0.len() + 1);
                        assert(e2[newk] == le);
                        assert(forall|j: int| 0 <= j < e0.len() ==> e2[j] == e0[j]);
                    }
                    // Names are unchanged (or extended by an absent name),
                    // so well-formedness carries over.
                    assert(wf(out)) by {
                        assert(names_unique(e2)) by {
                            match idx_opt {
                                Option::Some(i) => {
                                    assert(forall|j: int|
                                        0 <= j < e2.len() ==> e2[j].name@ == e0[j].name@);
                                },
                                Option::None => {
                                    assert(forall|j: int|
                                        0 <= j < e0.len() ==> e2[j].name@ == e0[j].name@);
                                },
                            }
                        }
                        assert(forall|k: int| 0 <= k < e2.len() ==> wf(#[trigger] e2[k].entry));
                    }
                    // Inode accounting: the only new inode is `counter`.
                    assert forall|i2: u64| #[trigger] has_ino(out, i2) implies has_ino(n, i2) || (
                    counter <= i2 < counter + 1) by {
                        if i2 != ino {
                            let k = choose|k: int|
                                0 <= k < e2.len() && has_ino(#[trigger] e2[k].entry, i2);
                            if k == newk {
                            } else {
                                assert(e2[k].entry == e0[k].entry);
                                assert(has_ino(n, i2));
                            }
                        }
                    }
                    assert(ino_bounded(out, (counter + 1) as u64)) by {
                        assert(forall|i2: u64|
                            #[trigger] has_ino(out, i2) ==> has_ino(n, i2) || i2 == counter);
                    }
                    assert(uniq(out)) by {
                        assert(forall|k: int| 0 <= k < e2.len() ==> uniq(#[trigger] e2[k].entry));
                        assert forall|k: int| 0 <= k < e2.len() implies !has_ino(
                            #[trigger] e2[k].entry,
                            ino,
                        ) by {
                            if k == newk {
                                assert(has_ino(n, ino));
                                assert(ino < counter);
                            } else {
                                assert(e2[k].entry == e0[k].entry);
                            }
                        }
                        assert forall|k1: int, k2: int, i2: u64|
                            0 <= k1 < k2 < e2.len() && #[trigger] has_ino(e2[k1].entry, i2)
                                implies !(#[trigger] has_ino(e2[k2].entry, i2)) by {
                            if k1 == newk {
                                assert(i2 == counter);
                                if has_ino(e2[k2].entry, i2) {
                                    assert(has_ino(e0[k2].entry, i2));
                                    assert(has_ino(n, i2));
                                }
                            } else if k2 == newk {
                                assert(has_ino(e0[k1].entry, i2));
                                assert(has_ino(n, i2));
                                if has_ino(e2[k2].entry, i2) {
                                    assert(i2 == counter);
                                }
                            } else {
                                assert(e2[k1].entry == e0[k1].entry);
                                assert(e2[k2].entry == e0[k2].entry);
                            }
                        }
                    }
                    // Lookup of the leaf name now yields the inserted file;
                    // every unrelated path is untouched.
                    assert(is_file_at(out, frest, rf)) by {
                        assert(frest =~= seq![name@]);
                        assert(e2[newk].name@ == name@);
                        assert(forall|j: int| 0 <= j < newk ==> e2[j].name@ != name@);
                        lemma_find_name_at(e2, name@, newk);
                        assert(find_name(e2, name@) == Some(le.entry));
                        assert(frest[0] == name@);
                        assert(frest.len() == 1);
                        assert(node_at(out, frest) == node_at(le.entry, frest.drop_first()));
                        assert(frest.drop_first() =~= Seq::<Seq<u8>>::empty());
                        assert(node_at(le.entry, frest.drop_first()) == Some(le.entry));
                    }
                    assert forall|q: Seq<Seq<u8>>| unrelated(q, frest) implies #[trigger] node_at(
                        out,
                        q,
                    ) == node_at(n, q) by {
                        if q.len() == 0 {
                            lemma_empty_prefix(q, frest);
                        } else {
                            if q[0] == name@ {
                                assert(frest =~= seq![name@]);
                                assert(is_seg_prefix(frest, q)) by {
                                    assert(frest =~= q.take(1));
                                }
                            } else {
                                if idx_opt is Some {
                                    assert(e2 =~= e0.update(newk, le));
                                    lemma_find_name_update(e0, newk, le, q[0]);
                                } else {
                                    assert(e2 =~= e0.push(le));
                                    lemma_find_name_push(e0, le, q[0]);
                                }
                                assert(find_name(e2, q[0]) == find_name(e0, q[0]));
                            }
                        }
                    }
                    assert forall|i2: int| 0 <= i2 <= chain@.len() - d implies is_dir_at(
                        out,
                        #[trigger] crest.take(i2),
                    ) by {
                        assert(crest.take(i2) =~= Seq::<Seq<u8>>::empty());
                    }
                    assert forall|q: Seq<Seq<u8>>|
                        is_seg_prefix(q, frest) && q != frest implies (#[trigger] node_at(out, q)
                            matches Some(m) ==> (m is Directory || node_at(n, q) == Some(m))) by {
                        assert(frest.len() == 1);
                        if q.len() == 0 {
                            assert(node_at(out, q) == Some(out));
                        } else {
                            assert(q =~= frest);
                        }
                    }
                    // Content bound: the only file this step adds is the
                    // leaf itself, and the only nodes are at the leaf path.
                    assert forall|q: Seq<Seq<u8>>|
                        (#[trigger] file_entry_at(out, q)) is Some implies (file_entry_at(n, q)
                            == file_entry_at(out, q) || (q == frest && file_entry_at(out, q)
                            == Some(rf))) by {
                        if q.len() == 0 {
                            assert(node_at(out, q) == Some(out));
                        } else if q[0] == name@ {
                            lemma_find_name_at(e2, name@, newk);
                            assert(node_at(out, q) == node_at(le.entry, q.drop_first()));
                            if q.len() == 1 {
                                assert(q =~= frest);
                                assert(q.drop_first() =~= Seq::<Seq<u8>>::empty());
                                assert(node_at(le.entry, q.drop_first()) == Some(le.entry));
                            } else {
                                assert(q.drop_first().len() > 0);
                                assert(node_at(le.entry, q.drop_first()) is None);
                            }
                        } else {
                            assert(find_name(e2, q[0]) == find_name(e0, q[0])) by {
                                if idx_opt is Some {
                                    assert(e2 =~= e0.update(newk, le));
                                    lemma_find_name_update(e0, newk, le, q[0]);
                                } else {
                                    assert(e2 =~= e0.push(le));
                                    lemma_find_name_push(e0, le, q[0]);
                                }
                            }
                            assert(node_at(out, q) == node_at(n, q));
                        }
                    }
                    assert forall|q: Seq<Seq<u8>>|
                        q.len() > 0 && (#[trigger] node_at(out, q)) is Some implies (node_at(
                        n,
                        q,
                    ) is Some || is_seg_prefix(q, frest)) by {
                        if q[0] == name@ {
                            lemma_find_name_at(e2, name@, newk);
                            assert(node_at(out, q) == node_at(le.entry, q.drop_first()));
                            if q.len() == 1 {
                                assert(q =~= frest);
                                assert(q == frest.take(q.len() as int)) by {
                                    assert(frest.take(q.len() as int) =~= frest);
                                }
                            } else {
                                assert(q.drop_first().len() > 0);
                                assert(node_at(le.entry, q.drop_first()) is None);
                            }
                        } else {
                            assert(find_name(e2, q[0]) == find_name(e0, q[0])) by {
                                if idx_opt is Some {
                                    assert(e2 =~= e0.update(newk, le));
                                    lemma_find_name_update(e0, newk, le, q[0]);
                                } else {
                                    assert(e2 =~= e0.push(le));
                                    lemma_find_name_push(e0, le, q[0]);
                                }
                            }
                            assert(node_at(out, q) == node_at(n, q));
                        }
                    }
                }
                (out, counter + 1)
            } else {
                // Walk one chain segment: find or create the directory,
                // then descend into it.
                let seg = crate::types::copy_bytes(chain[d].as_slice());
                let ghost segv = seg@;
                proof {
                    assert(segv == segs_of(chain@)[d as int]);
                    assert(crest.len() >= 1);
                    assert(crest[0] == segv);
                    assert(frest[0] == segv);
                }
                let idx_opt = find_index(&entries, seg.as_slice());
                let ghost e0 = entries@;
                let (idx, c1): (usize, u64) = match idx_opt {
                    Some(i) => (i, counter),
                    None => {
                        let fresh_entries: Vec<DirEnt> = Vec::new();
                        entries.push(
                            DirEnt {
                                name: seg,
                                entry: FSEntry::Directory { ino: counter, entries: fresh_entries },
                            },
                        );
                        (entries.len() - 1, counter + 1)
                    },
                };
                let ghost e1 = entries@;
                proof {
                    // After an optional push the target child sits at `idx`,
                    // its name is the segment, and earlier names differ.
                    assert(0 <= idx < e1.len());
                    assert(e1[idx as int].name@ == segv);
                    assert(forall|j: int| 0 <= j < idx ==> e1[j].name@ != segv);
                    if idx_opt is None {
                        assert(e1 =~= e0.push(e1[e0.len() as int]));
                    } else {
                        assert(e1 =~= e0);
                    }
                }
                let blocked = match &entries[idx].entry {
                    FSEntry::File { .. } => true,
                    FSEntry::Directory { .. } => false,
                };
                if blocked {
                    let out = FSEntry::Directory { ino, entries };
                    proof {
                        assert(idx_opt matches Some(i) && i == idx);
                        assert(e1 == e0);
                        assert(out == n);
                        // A file on the chain refutes `chain_clear`.
                        assert(!chain_clear(n, crest)) by {
                            lemma_find_name_at(e0, segv, idx as int);
                            assert(crest.take(1) =~= seq![segv]);
                            assert(crest.take(1).drop_first() =~= Seq::<Seq<u8>>::empty());
                            assert(node_at(e0[idx as int].entry, crest.take(1).drop_first())
                                == Some(e0[idx as int].entry));
                            assert(node_at(n, crest.take(1)) == Some(e0[idx as int].entry));
                        }
                    }
                    (out, counter)
                } else {
                    let removed = entries.remove(idx);
                    let DirEnt { name: child_name, entry: child } = removed;
                    proof {
                        assert(child == e1[idx as int].entry);
                        assert(child_name@ == segv);
                        assert(child is Directory);
                        // The child meets the recursive preconditions.
                        if idx_opt is Some {
                            assert(wf(child) && uniq(child)) by {
                                assert(wf(n) && uniq(n));
                            }
                            assert forall|i2: u64| #[trigger] has_ino(child, i2) implies i2 < c1 by {
                                assert(has_ino(n, i2));
                            }
                        } else {
                            assert(child.ino() == counter);
                            match child {
                                FSEntry::Directory { entries: ref ce, .. } => {
                                    assert(ce@.len() == 0);
                                },
                                FSEntry::File { .. } => {
                                    assert(false);
                                },
                            }
                        }
                    }
                    let (child2, c2) = insert_rec(child, chain, d + 1, name, rf, c1);
                    entries.insert(idx, DirEnt { name: child_name, entry: child2 });
                    let out = FSEntry::Directory { ino, entries };
                    let ghost e2 = entries@;
                    let ghost crest1 = segs_of(chain@).skip(d + 1);
                    let ghost frest1 = crest1.push(name@);
                    proof {
                        assert(e2 =~= e1.update(
                            idx as int,
                            DirEnt { name: child_name, entry: child2 },
                        ));
                        assert(crest1 =~= crest.drop_first());
                        assert(frest1 =~= frest.drop_first());
                        assert(child2 is Directory);

                        // Well-formedness: names as in `e1`, children wf.
                        assert(wf(out)) by {
                            assert(forall|j: int| 0 <= j < e1.len() ==> e2[j].name@ == e1[j].name@);
                            assert(names_unique(e1)) by {
                                if idx_opt is None {
                                    assert(forall|j: int|
                                        0 <= j < e0.len() ==> e1[j].name@ == e0[j].name@);
                                    assert(forall|j: int|
                                        0 <= j < e0.len() ==> e0[j].name@ != segv);
                                }
                            }
                            assert(names_unique(e2));
                            assert forall|k: int| 0 <= k < e2.len() implies wf(
                                #[trigger] e2[k].entry,
                            ) by {
                                if k != idx {
                                    assert(e2[k].entry == e0[k].entry);
                                }
                            }
                        }

                        // Inode accounting.
                        assert forall|i2: u64| #[trigger] has_ino(out, i2) implies has_ino(n, i2)
                            || (counter <= i2 < c2) by {
                            if i2 != ino {
                                let k = choose|k: int|
                                    0 <= k < e2.len() && has_ino(#[trigger] e2[k].entry, i2);
                                if k == idx as int {
                                    assert(has_ino(child2, i2));
                                    if has_ino(child, i2) {
                                        if idx_opt is Some {
                                            assert(has_ino(n, i2));
                                        } else {
                                            assert(i2 == counter);
                                        }
                                    }
                                } else {
                                    assert(e2[k].entry == e0[k].entry);
                                    assert(has_ino(n, i2));
                                }
                            }
                        }
                        assert(ino_bounded(out, c2)) by {
                            assert(forall|i2: u64|
                                #[trigger] has_ino(out, i2) ==> has_ino(n, i2) || (counter <= i2
                                    < c2));
                        }

                        // Inode uniqueness.
                        assert(uniq(out)) by {
                            assert forall|k: int| 0 <= k < e2.len() implies uniq(
                                #[trigger] e2[k].entry,
                            ) by {
                                if k != idx {
                                    assert(e2[k].entry == e0[k].entry);
                                }
                            }
                            assert forall|k: int| 0 <= k < e2.len() implies !has_ino(
                                #[trigger] e2[k].entry,
                                ino,
                            ) by {
                                if k == idx as int {
                                    if has_ino(child2, ino) {
                                        assert(has_ino(child, ino) || (c1 <= ino < c2));
                                        if has_ino(child, ino) {
                                            if idx_opt is Some {
                                                assert(!has_ino(e0[k].entry, ino));
                                            } else {
                                                assert(ino == counter);
                                                assert(has_ino(n, ino));
                                            }
                                        } else {
                                            assert(has_ino(n, ino));
                                        }
                                    }
                                } else {
                                    assert(e2[k].entry == e0[k].entry);
                                }
                            }
                            assert forall|k1: int, k2: int, i2: u64|
                                0 <= k1 < k2 < e2.len() && #[trigger] has_ino(e2[k1].entry, i2)
                                    implies !(#[trigger] has_ino(e2[k2].entry, i2)) by {
                                if k1 == idx as int || k2 == idx as int {
                                    let other: int = if k1 == idx as int {
                                        k2
                                    } else {
                                        k1
                                    };
                                    assert(e2[other].entry == e0[other].entry);
                                    if has_ino(e2[k1].entry, i2) && has_ino(e2[k2].entry, i2) {
                                        assert(has_ino(child2, i2));
                                        assert(has_ino(e0[other].entry, i2));
                                        assert(has_ino(n, i2));
                                        assert(i2 < counter);
                                        assert(has_ino(child, i2));
                                        if idx_opt is Some {
                                            assert(false);
                                        } else {
                                            assert(i2 == counter);
                                        }
                                    }
                                } else {
                                    assert(e2[k1].entry == e0[k1].entry);
                                    assert(e2[k2].entry == e0[k2].entry);
                                }
                            }
                        }

                        // Lookups: the segment now leads to the updated
                        // child, other names are untouched.
                        lemma_find_name_at(e2, segv, idx as int);
                        lemma_find_name_at(e1, segv, idx as int);
                        assert(find_name(e2, segv) == Some(child2));
                        assert(find_name(e1, segv) == Some(child));

                        assert forall|q: Seq<Seq<u8>>| unrelated(q, frest) implies
                            #[trigger] node_at(out, q) == node_at(n, q) by {
                            if q.len() == 0 {
                                lemma_empty_prefix(q, frest);
                            } else if q[0] == segv {
                                lemma_prefix_drop(q, frest);
                                lemma_prefix_drop(frest, q);
                                assert(unrelated(q.drop_first(), frest1));
                                assert(node_at(out, q) == node_at(child2, q.drop_first()));
                                assert(node_at(child2, q.drop_first()) == node_at(
                                    child,
                                    q.drop_first(),
                                ));
                                if idx_opt is Some {
                                    assert(node_at(n, q) == node_at(child, q.drop_first()));
                                } else {
                                    lemma_find_name_none(e0, segv);
                                    assert(node_at(n, q) is None);
                                    assert(q.drop_first().len() >= 1) by {
                                        if q.drop_first().len() == 0 {
                                            assert(q =~= frest.take(1));
                                        }
                                    }
                                    assert(node_at(child, q.drop_first()) is None);
                                }
                            } else {
                                assert(find_name(e2, q[0]) == find_name(e0, q[0])) by {
                                    lemma_find_name_update(e1, idx as int, e2[idx as int], q[0]);
                                    if idx_opt is None {
                                        lemma_find_name_push(e0, e1[e0.len() as int], q[0]);
                                    }
                                }
                            }
                        }

                        // Success: with a clear chain the inserted file is
                        // reachable and every chain prefix is a directory.
                        if chain_clear(n, crest) {
                            assert(chain_clear(child, crest1)) by {
                                assert forall|i2: int|
                                    0 <= i2 <= crest1.len() implies (node_at(
                                    child,
                                    #[trigger] crest1.take(i2),
                                ) matches Option::Some(m) ==> m is Directory) by {
                                    if idx_opt is Some {
                                        assert(crest.take(i2 + 1).drop_first() =~= crest1.take(
                                            i2,
                                        ));
                                        assert(crest.take(i2 + 1)[0] == segv);
                                        assert(node_at(n, crest.take(i2 + 1)) == node_at(
                                            child,
                                            crest1.take(i2),
                                        ));
                                    } else {
                                        if i2 > 0 {
                                            match child {
                                                FSEntry::Directory { entries: ce, .. } => {
                                                    assert(ce@.len() == 0);
                                                    lemma_find_name_none(ce@, crest1.take(i2)[0]);
                                                },
                                                FSEntry::File { .. } => {},
                                            }
                                        }
                                    }
                                }
                            }
                            assert(is_file_at(out, frest, rf)) by {
                                assert(node_at(out, frest) == node_at(child2, frest1));
                            }
                            assert forall|i2: int| 0 <= i2 <= chain@.len() - d implies is_dir_at(
                                out,
                                #[trigger] crest.take(i2),
                            ) by {
                                if i2 == 0 {
                                    assert(crest.take(0) =~= Seq::<Seq<u8>>::empty());
                                } else {
                                    assert(crest.take(i2)[0] == segv);
                                    assert(crest.take(i2).drop_first() =~= crest1.take(i2 - 1));
                                    assert(node_at(out, crest.take(i2)) == node_at(
                                        child2,
                                        crest1.take(i2 - 1),
                                    ));
                                    assert(is_dir_at(child2, crest1.take(i2 - 1)));
                                }
                            }
                        }
                        assert forall|q: Seq<Seq<u8>>|
                            is_seg_prefix(q, frest) && q != frest implies (#[trigger] node_at(
                            out,
                            q,
                        ) matches Some(m) ==> (m is Directory || node_at(n, q) == Some(m))) by {
                            if q.len() == 0 {
                                assert(node_at(out, q) == Some(out));
                            } else {
                                assert(q[0] == frest[0]);
                                lemma_prefix_drop(q, frest);
                                assert(is_seg_prefix(q.drop_first(), frest1));
                                assert(q.drop_first() != frest1) by {
                                    if q.drop_first() == frest1 {
                                        assert(q =~= frest);
                                    }
                                }
                                assert(node_at(out, q) == node_at(child2, q.drop_first()));
                                let ghost sub = node_at(child2, q.drop_first());
                                if sub is Some {
                                    if sub.unwrap() is Directory {
                                    } else {
                                        assert(node_at(child, q.drop_first()) == sub);
                                        if idx_opt is Some {
                                            assert(node_at(n, q) == node_at(
                                                child,
                                                q.drop_first(),
                                            ));
                                        } else {
                                            assert(q.drop_first().len() > 0) by {
                                                if q.drop_first().len() == 0 {
                                                    assert(node_at(child, q.drop_first())
                                                        == Some(child));
                                                }
                                            }
                                            match child {
                                                FSEntry::Directory { entries: ref ce, .. } => {
                                                    assert(ce@.len() == 0);
                                                    lemma_find_name_none(
                                                        ce@,
                                                        q.drop_first()[0],
                                                    );
                                                    assert(node_at(child, q.drop_first())
                                                        is None);
                                                },
                                                FSEntry::File { .. } => {},
                                            }
                                        }
                                    }
                                }
                            }
                        }
                        // Content bound, lifted through the walked child.
                        assert forall|q: Seq<Seq<u8>>|
                            (#[trigger] file_entry_at(out, q)) is Some implies (file_entry_at(
                            n,
                            q,
                        ) == file_entry_at(out, q) || (q == frest && file_entry_at(out, q)
                            == Some(rf))) by {
                            if q.len() == 0 {
                                assert(node_at(out, q) == Some(out));
                            } else if q[0] == segv {
                                assert(node_at(out, q) == node_at(child2, q.drop_first()));
                                let qd = q.drop_first();
                                if file_entry_at(child, qd) == file_entry_at(out, q) {
                                    if idx_opt is Some {
                                        assert(node_at(n, q) == node_at(child, qd));
                                    } else {
                                        if qd.len() == 0 {
                                            assert(node_at(child, qd) == Some(child));
                                        } else {
                                            match child {
                                                FSEntry::Directory { entries: ref ce, .. } => {
                                                    assert(ce@.len() == 0);
                                                    lemma_find_name_none(ce@, qd[0]);
                                                    assert(node_at(child, qd) is None);
                                                },
                                                FSEntry::File { .. } => {},
                                            }
                                        }
                                        assert(file_entry_at(child, qd) is None);
                                        assert(false);
                                    }
                                } else {
                                    assert(qd == frest1 && file_entry_at(child2, qd) == Some(
                                        rf,
                                    ));
                                    assert(q.len() == frest.len());
                                    assert forall|j: int| 0 <= j < q.len() implies q[j]
                                        == frest[j] by {
                                        if j > 0 {
                                            assert(q[j] == qd[j - 1]);
                                            assert(frest[j] == frest1[j - 1]);
                                        }
                                    }
                                    assert(q =~= frest);
                                }
                            } else {
                                assert(find_name(e2, q[0]) == find_name(e0, q[0])) by {
                                    lemma_find_name_update(e1, idx as int, e2[idx as int], q[0]);
                                    if idx_opt is None {
                                        lemma_find_name_push(e0, e1[e0.len() as int], q[0]);
                                    }
                                }
                                assert(node_at(out, q) == node_at(n, q));
                            }
                        }
                        assert forall|q: Seq<Seq<u8>>|
                            q.len() > 0 && (#[trigger] node_at(out, q)) is Some implies (node_at(
                            n,
                            q,
                        ) is Some || is_seg_prefix(q, frest)) by {
                            if q[0] == segv {
                                assert(node_at(out, q) == node_at(child2, q.drop_first()));
                                let qd = q.drop_first();
                                if qd.len() == 0 {
                                    assert(q =~= frest.take(1));
                                    assert(q == frest.take(q.len() as int));
                                    assert(is_seg_prefix(q, frest));
                                } else {
                                    if node_at(child, qd) is Some {
                                        if idx_opt is Some {
                                            assert(node_at(n, q) == node_at(child, qd));
                                        } else {
                                            match child {
                                                FSEntry::Directory { entries: ref ce, .. } => {
                                                    assert(ce@.len() == 0);
                                                    lemma_find_name_none(ce@, qd[0]);
                                                    assert(node_at(child, qd) is None);
                                                },
                                                FSEntry::File { .. } => {},
                                            }
                                            assert(false);
                                        }
                                    } else {
                                        assert(is_seg_prefix(qd, frest1));
                                        lemma_prefix_drop(q, frest);
                                        assert(is_seg_prefix(q, frest));
                                    }
                                }
                            } else {
                                assert(find_name(e2, q[0]) == find_name(e0, q[0])) by {
                                    lemma_find_name_update(e1, idx as int, e2[idx as int], q[0]);
                                    if idx_opt is None {
                                        lemma_find_name_push(e0, e1[e0.len() as int], q[0]);
                                    }
                                }
                                assert(node_at(out, q) == node_at(n, q));
                            }
                        }
                    }
                    (out, c2)
                }
            }
        },
    }
}

/// One merge candidate: a decoded archive-native path and the version of
/// the file it offers.
pub struct Candidate {
    pub path: Vec<u8>,
    pub entry: FSEntryInfo,
}

/// Spec-level image of a candidate.
pub struct CandView {
    pub path: Seq<u8>,
    pub entry: FSEntryInfo,
}

/// The view of an executable candidate.
pub open spec fn cand_view(c: Candidate) -> CandView {
    CandView { path: c.path@, entry: c.entry }
}

/// The views of a candidate sequence.
pub open spec fn cands_view(s: Seq<Candidate>) -> Seq<CandView> {
    Seq::new(s.len(), |j: int| cand_view(s[j]))
}

/// The candidates that the archive at position `a` contributes: one per
/// scanned file, remembering where its content can be reopened.
pub open spec fn arch_cands(files: Seq<FileView>, a: int) -> Seq<CandView> {
    Seq::new(
        files.len(),
        |j: int|
            CandView {
                path: files[j].path,
                entry: FSEntryInfo {
                    info: FileInfo { time: files[j].time, size: files[j].size },
                    source: SourceRef {
                        archive_id: a as usize,
                        entry_id: files[j].file_id as usize,
                    },
                },
            },
    )
}

/// Every candidate of every archive, in archive order.  An archive that
/// could not be opened or parsed is `None` and contributes nothing.
pub open spec fn all_cands(scans: Seq<Option<Vec<RawEntry>>>) -> Seq<CandView>
    decreases scans.len(),
{
    if scans.len() == 0 {
        Seq::empty()
    } else {
        all_cands(scans.drop_last()) + (match scans.last() {
            Option::Some(raws) => arch_cands(scan_spec(raws@), scans.len() - 1),
            Option::None => Seq::empty(),
        })
    }
}

/// The first winner with the given path.
fn find_path_index(w: &Vec<Candidate>, path: &[u8]) -> (r: Option<usize>)
    ensures
        match r {
            Option::Some(i) => {
                &&& i < w@.len()
                &&& w@[i as int].path@ == path@
                &&& forall|j: int| 0 <= j < i ==> w@[j].path@ != path@
            },
            Option::None => forall|j: int| 0 <= j < w@.len() ==> w@[j].path@ != path@,
        },
{
    let mut i: usize = 0;
    while i < w.len()
        invariant
            0 <= i <= w@.len(),
            forall|j: int| 0 <= j < i ==> w@[j].path@ != path@,
        decreases w@.len() - i,
    {
        if crate::types::bytes_eq(w[i].path.as_slice(), path) {
            return Some(i);
        }
        i += 1;
    }
    None
}

/// Properties the winner set keeps after the first `j` candidates have
/// been folded in: distinct paths, every winner among the seen candidates,
/// every seen candidate dominated by the winner of its path.
pub open spec fn merge_inv(w: Seq<Candidate>, cv: Seq<CandView>, j: int) -> bool {
    &&& forall|k1: int, k2: int|
        0 <= k1 < k2 < w.len() ==> (#[trigger] w[k1]).path@ != (#[trigger] w[k2]).path@
    &&& forall|k: int|
        0 <= k < w.len() ==> exists|j2: int|
            0 <= j2 < j && cv[j2] == cand_view(#[trigger] w[k])
    &&& forall|j2: int|
        0 <= j2 < j ==> exists|k: int|
            0 <= k < w.len() && w[k].path@ == (#[trigger] cv[j2]).path
                && w[k].entry.info.time >= cv[j2].entry.info.time
}

/// After folding one candidate the winner-set properties advance by one:
/// `w1` agrees with `w0` everywhere except at `wit`, which carries the
/// candidate's path and at least its recency.
#[verifier::rlimit(100)]
#[verifier::spinoff_prover]
proof fn lemma_merge_one_post(
    w0: Seq<Candidate>,
    w1: Seq<Candidate>,
    cv: Seq<CandView>,
    j: int,
    wit: int,
)
    requires
        0 <= j < cv.len(),
        merge_inv(w0, cv, j),
        w0.len() <= w1.len() <= w0.len() + 1,
        forall|k: int|
            0 <= k < w1.len() && k != wit ==> k < w0.len() && (#[trigger] w1[k]) == w0[k],
        0 <= wit < w1.len(),
        w1[wit].path@ == cv[j].path,
        w1[wit].entry.info.time >= cv[j].entry.info.time,
        (wit < w0.len() && w1[wit] == w0[wit]) || cand_view(w1[wit]) == cv[j],
        wit < w0.len() ==> w1[wit].path@ == w0[wit].path@ && w1[wit].entry.info.time
            >= w0[wit].entry.info.time,
        wit == w0.len() ==> forall|k: int|
            0 <= k < w0.len() ==> (#[trigger] w0[k]).path@ != cv[j].path,
    ensures
        merge_inv(w1, cv, j + 1),
{
    assert forall|k1: int, k2: int|
        0 <= k1 < k2 < w1.len() implies (#[trigger] w1[k1]).path@
            != (#[trigger] w1[k2]).path@ by {
        if k1 != wit && k2 != wit {
        } else if k2 == wit {
            if wit < w0.len() {
            } else {
                assert(w0[k1].path@ != cv[j].path);
            }
        } else {
        }
    }
    assert forall|k: int| 0 <= k < w1.len() implies exists|j2: int|
        0 <= j2 < j + 1 && cv[j2] == cand_view(#[trigger] w1[k]) by {
        // name the winner so the element-wise hypotheses apply to it
        let xk = w1[k];
        if k != wit || (wit < w0.len() && w1[wit] == w0[wit]) {
            assert(0 <= k < w0.len());
            assert(w1[k] == w0[k]);
            assert(exists|j2: int| 0 <= j2 < j && cv[j2] == cand_view(#[trigger] w0[k]));
            let j2 = choose|j2: int| 0 <= j2 < j && cv[j2] == cand_view(w0[k]);
            assert(0 <= j2 < j + 1 && cv[j2] == cand_view(w1[k]));
        } else {
            assert(cv[j] == cand_view(w1[k]));
        }
    }
    assert forall|j2: int| 0 <= j2 < j + 1 implies exists|k: int|
        0 <= k < w1.len() && w1[k].path@ == (#[trigger] cv[j2]).path
            && w1[k].entry.info.time >= cv[j2].entry.info.time by {
        if j2 < j {
            let k = choose|k: int|
                0 <= k < w0.len() && w0[k].path@ == cv[j2].path && w0[k].entry.info.time
                    >= cv[j2].entry.info.time;
            if k == wit {
                assert(w1[k].path@ == cv[j2].path && w1[k].entry.info.time
                    >= cv[j2].entry.info.time);
            } else {
                assert(w1[k] == w0[k]);
            }
            assert(0 <= k < w1.len());
        } else {
            assert(w1[wit].path@ == cv[j2].path && w1[wit].entry.info.time
                >= cv[j2].entry.info.time);
        }
    }
}

/// Folds one candidate into the winner set: replaces the winner of its
/// path when the candidate is at least as recent, appends when the path is
/// new.  Which candidate survives an exact tie is left open by the
/// contract.
#[verifier::rlimit(100)]
#[verifier::spinoff_prover]
fn merge_one(w: Vec<Candidate>, c: &Candidate, Ghost(cv): Ghost<Seq<CandView>>, Ghost(j): Ghost<
    int,
>) -> (w2: Vec<Candidate>)
    requires
        0 <= j < cv.len(),
        cand_view(*c) == cv[j],
        merge_inv(w@, cv, j),
    ensures
        merge_inv(w2@, cv, j + 1),
{
    let mut w = w;
    let ghost w0 = w@;
    let ghost mut wit: int = 0;
    match find_path_index(&w, c.path.as_slice()) {
        Some(i) => {
            if c.entry.info.time >= w[i].entry.info.time {
                let removed = w.remove(i);
                w.insert(i, Candidate { path: removed.path, entry: c.entry });
            }
            proof {
                wit = i as int;
                assert(w@.len() == w0.len());
                assert(forall|k: int| 0 <= k < w@.len() && k != i ==> w@[k] == w0[k]);
                assert(w@[i as int].path@ == w0[i as int].path@);
                assert(w@[i as int].path@ == cv[j].path);
                assert(w@[i as int].entry.info.time >= cv[j].entry.info.time);
                if !(w@[i as int] == w0[i as int]) {
                    assert(cand_view(w@[i as int]) == cv[j]);
                }
            }
        },
        None => {
            w.push(Candidate { path: crate::types::copy_bytes(c.path.as_slice()), entry: c.entry });
            proof {
                wit = w0.len() as int;
                assert(w@.len() == w0.len() + 1);
                assert(forall|k: int| 0 <= k < w0.len() ==> w@[k] == w0[k]);
                assert(cand_view(w@[w0.len() as int]) == cv[j]);
                assert(forall|k: int| 0 <= k < w0.len() ==> (#[trigger] w0[k]).path@ != cv[j].path);
            }
        },
    }
    proof {
        lemma_merge_one_post(w0, w@, cv, j, wit);
    }
    w
}

/// Merges candidates per path by recency: for each path the winner is a
/// candidate with the greatest modification time.  The contract promises
/// no more on an exact tie — some maximal candidate wins, and callers must
/// not depend on which; this implementation keeps the later one in the
/// given order.
#[verifier::rlimit(100)]
#[verifier::spinoff_prover]
pub fn merge_candidates(cands: &Vec<Candidate>) -> (w: Vec<Candidate>)
    ensures
        merge_inv(w@, cands_view(cands@), cands@.len() as int),
{
    let ghost cv = cands_view(cands@);
    let mut w: Vec<Candidate> = Vec::new();
    let mut j: usize = 0;
    while j < cands.len()
        invariant
            0 <= j <= cands@.len(),
            cv == cands_view(cands@),
            cv.len() == cands@.len(),
            merge_inv(w@, cv, j as int),
        decreases cands@.len() - j,
    {
        proof {
            assert(cand_view(cands@[j as int]) == cv[j as int]);
        }
        w = merge_one(w, &cands[j], Ghost(cv), Ghost(j as int));
        j += 1;
    }
    w
}

/// Prefixes compose.
proof fn lemma_prefix_trans(a: Seq<Seq<u8>>, b: Seq<Seq<u8>>, c: Seq<Seq<u8>>)
    requires
        is_seg_prefix(a, b),
        is_seg_prefix(b, c),
    ensures
        is_seg_prefix(a, c),
{
    assert forall|j: int| 0 <= j < a.len() implies a[j] == c.take(a.len() as int)[j] by {
        assert(a[j] == b.take(a.len() as int)[j]);
        assert(b[j] == c.take(b.len() as int)[j]);
    }
    assert(a =~= c.take(a.len() as int));
}

/// Inodes one inserted path can consume: its segment count plus one.
pub open spec fn path_cost(c: Candidate) -> int {
    split_on(c.path@).len() as int + 1
}

/// Inodes the whole winner list can consume.
pub open spec fn total_cost(w: Seq<Candidate>) -> int
    decreases w.len(),
{
    if w.len() == 0 {
        0
    } else {
        total_cost(w.drop_last()) + path_cost(w.last())
    }
}

/// The cost is never negative.
proof fn lemma_total_cost_nonneg(w: Seq<Candidate>)
    ensures
        total_cost(w) >= 0,
    decreases w.len(),
{
    if w.len() > 0 {
        lemma_total_cost_nonneg(w.drop_last());
        lemma_split_on_nonempty(w.last().path@);
    }
}

/// The cost of one more prefix element.
proof fn lemma_total_cost_step(w: Seq<Candidate>, m: int)
    requires
        0 <= m < w.len(),
    ensures
        total_cost(w.take(m + 1)) == total_cost(w.take(m)) + path_cost(w[m]),
        path_cost(w[m]) >= 2,
    decreases w.len(),
{
    assert(w.take(m + 1).drop_last() =~= w.take(m));
    assert(w.take(m + 1).last() == w[m]);
    lemma_split_on_nonempty(w[m].path@);
}

/// A prefix never costs more than the whole.
proof fn lemma_total_cost_mono(w: Seq<Candidate>, m: int)
    requires
        0 <= m <= w.len(),
    ensures
        total_cost(w.take(m)) <= total_cost(w),
    decreases w.len() - m,
{
    if m == w.len() {
        assert(w.take(m) =~= w);
    } else {
        lemma_total_cost_step(w, m);
        lemma_total_cost_mono(w, m + 1);
    }
}

/// Whether the winner at `k` shares no prefix relation with any other
/// winner's path: only then is its place in the tree independent of the
/// order in which the winners are inserted.
pub open spec fn no_conflict(w: Seq<Candidate>, k: int) -> bool {
    forall|j: int|
        0 <= j < w.len() && j != k ==> unrelated(
            split_on((#[trigger] w[j]).path@),
            split_on(w[k].path@),
        )
}

/// Lower bound on the finished tree: every winner whose path has a
/// directory chain and conflicts with no other winner sits in the tree at
/// its split path, with its metadata and source.  The bound applies to any
/// input whose total inode cost fits the counter's range; `tree_bounded`
/// states the matching upper bound.
pub open spec fn built_from(root: FSEntry, w: Seq<Candidate>) -> bool {
    total_cost(w) + 2 <= u64::MAX ==> forall|k: int|
        0 <= k < w.len() && split_on((#[trigger] w[k]).path@).len() >= 2 && no_conflict(w, k)
            ==> is_file_at(root, split_on(w[k].path@), w[k].entry)
}

/// Upper bound on the finished tree: every file in it is one of the
/// winners, at its own split path and carrying that winner's entry, and
/// every node below the root lies on the split path of a winner whose path
/// has a directory chain.  So with no winners the root has no children,
/// and a separator-free path produces no node anywhere.
pub open spec fn tree_bounded(root: FSEntry, w: Seq<Candidate>) -> bool {
    &&& forall|q: Seq<Seq<u8>>|
        (#[trigger] file_entry_at(root, q)) is Some ==> exists|k: int|
            0 <= k < w.len() && split_on(w[k].path@) == q && split_on(w[k].path@).len() >= 2
                && Some(w[k].entry) == file_entry_at(root, q)
    &&& forall|q: Seq<Seq<u8>>|
        q.len() > 0 && (#[trigger] node_at(root, q)) is Some ==> exists|k: int|
            0 <= k < w.len() && split_on(w[k].path@).len() >= 2 && is_seg_prefix(
                q,
                split_on(w[k].path@),
            )
}

impl WinbackupTreeBuilder {
    /// Flattens all archive scan results into one candidate list, in
    /// archive order; an unreadable archive contributes nothing.
    pub fn collect_candidates(&self, scans: &Vec<Option<Vec<RawEntry>>>) -> (r: Vec<Candidate>)
        ensures
            cands_view(r@) == all_cands(scans@),
    {
        let mut out: Vec<Candidate> = Vec::new();
        let mut a: usize = 0;
        proof {
            assert(scans@.take(0) =~= Seq::<Option<Vec<RawEntry>>>::empty());
            assert(cands_view(out@) =~= all_cands(scans@.take(0)));
        }
        while a < scans.len()
            invariant
                0 <= a <= scans@.len(),
                cands_view(out@) == all_cands(scans@.take(a as int)),
            decreases scans@.len() - a,
        {
            proof {
                assert(scans@.take(a + 1).drop_last() =~= scans@.take(a as int));
                assert(scans@.take(a + 1).last() == scans@[a as int]);
            }
            match &scans[a] {
                Some(raws) => {
                    let files = self.rough_file_info(raws);
                    let ghost fv = scan_spec(raws@);
                    let ghost base = all_cands(scans@.take(a as int));
                    proof {
                        assert(files@.len() == fv.len());
                    }
                    let mut j: usize = 0;
                    proof {
                        assert(cands_view(out@) =~= base + arch_cands(fv, a as int).take(0));
                    }
                    while j < files.len()
                        invariant
                            0 <= j <= files@.len(),
                            files@.len() == fv.len(),
                            a < scans@.len(),
                            forall|k: int|
                                0 <= k < files@.len() ==> file_view(#[trigger] files@[k])
                                    == fv[k],
                            cands_view(out@) == base + arch_cands(fv, a as int).take(j as int),
                        decreases files@.len() - j,
                    {
                        let f = &files[j];
                        let ghost out0 = out@;
                        out.push(
                            Candidate {
                                path: crate::types::copy_bytes(f.path.as_slice()),
                                entry: FSEntryInfo {
                                    info: f.info,
                                    source: SourceRef { archive_id: a, entry_id: f.file_id },
                                },
                            },
                        );
                        proof {
                            assert(file_view(files@[j as int]) == fv[j as int]);
                            assert(forall|i: int| 0 <= i < out0.len() ==> out@[i] == out0[i]);
                            assert(forall|i: int|
                                0 <= i < out0.len() ==> #[trigger] cands_view(out@)[i]
                                    == cands_view(out0)[i]);
                            assert(cand_view(out@[out@.len() - 1]) == arch_cands(
                                fv,
                                a as int,
                            )[j as int]);
                            assert(cands_view(out@)[out@.len() - 1] == arch_cands(
                                fv,
                                a as int,
                            )[j as int]);
                            assert(cands_view(out0).len() == out0.len());
                            assert(arch_cands(fv, a as int).len() == fv.len());
                            assert(arch_cands(fv, a as int).take(j as int).len() == j as int);
                            assert(out0.len() == base.len() + j);
                            assert(out@.len() == base.len() + j + 1);
                            assert forall|i: int|
                                0 <= i < out@.len() implies #[trigger] cands_view(out@)[i] == (
                            base + arch_cands(fv, a as int).take(j + 1))[i] by {
                                if i < out@.len() - 1 {
                                    assert(cands_view(out@)[i] == cands_view(out0)[i]);
                                    assert(cands_view(out0)[i] == (base + arch_cands(
                                        fv,
                                        a as int,
                                    ).take(j as int))[i]);
                                    if i >= base.len() {
                                        assert(arch_cands(fv, a as int).take(j as int)[i
                                            - base.len()] == arch_cands(fv, a as int).take(
                                            j + 1,
                                        )[i - base.len()]);
                                    }
                                }
                            }
                            assert(cands_view(out@) =~= base + arch_cands(fv, a as int).take(
                                j + 1,
                            ));
                        }
                        j += 1;
                    }
                    proof {
                        assert(arch_cands(fv, a as int).take(fv.len() as int) =~= arch_cands(
                            fv,
                            a as int,
                        ));
                        assert(cands_view(out@) =~= all_cands(scans@.take(a + 1)));
                    }
                },
                None => {
                    proof {
                        assert(all_cands(scans@.take(a + 1)) =~= all_cands(
                            scans@.take(a as int),
                        ));
                    }
                },
            }
            a += 1;
        }
        proof {
            assert(scans@.take(scans@.len() as int) =~= scans@);
        }
        out
    }
}

impl WinbackupTreeBuilder {
    /// Builds the virtual tree from all archives' scan results: flattens
    /// them into candidates, merges per path by recency, and inserts every
    /// winning path under the reserved root, drawing inodes from a counter
    /// that starts right after the root.  Returns the root and the final
    /// counter value; every inode in the tree is unique and below it.
    #[verifier::rlimit(100)]
    #[verifier::spinoff_prover]
    pub fn parse_multiple_archives(&self, scans: &Vec<Option<Vec<RawEntry>>>) -> (r: (
        FSEntry,
        u64,
    ))
        ensures
            r.0 is Directory,
            r.0.ino() == ROOT_INO,
            wf(r.0),
            uniq(r.0),
            ino_bounded(r.0, r.1),
            2 <= r.1,
            exists|w: Seq<Candidate>| {
                &&& #[trigger] merge_inv(w, all_cands(scans@), all_cands(scans@).len() as int)
                &&& built_from(r.0, w)
                &&& tree_bounded(r.0, w)
            },
    {
        let cands = self.collect_candidates(scans);
        let winners = merge_candidates(&cands);
        let ghost w = winners@;
        let mut root = FSEntry::dir(ROOT_INO);
        let mut counter: u64 = 2;
        proof {
            assert(wf(root) && uniq(root));
            assert forall|i: u64| #[trigger] has_ino(root, i) implies i < 2 by {
                match root {
                    FSEntry::Directory { entries: ref es, .. } => {
                        assert(es@.len() == 0);
                    },
                    FSEntry::File { .. } => {},
                }
            }
            assert forall|k2: int|
                0 <= k2 < w.len() && no_conflict(w, k2) implies chain_clear(
                root,
                split_on((#[trigger] w[k2]).path@).drop_last(),
            ) by {
                let ch = split_on(w[k2].path@).drop_last();
                assert forall|i: int|
                    0 <= i <= ch.len() implies (node_at(root, #[trigger] ch.take(i)) matches
                Option::Some(m) ==> m is Directory) by {
                    if i > 0 {
                        match root {
                            FSEntry::Directory { entries: ref es, .. } => {
                                lemma_find_name_none(es@, ch.take(i)[0]);
                            },
                            FSEntry::File { .. } => {},
                        }
                    }
                }
            }
            assert(w.take(0) =~= Seq::<Candidate>::empty());
            assert forall|q: Seq<Seq<u8>>| q.len() > 0 implies node_at(root, q) is None by {
                match root {
                    FSEntry::Directory { entries: ref es, .. } => {
                        assert(es@.len() == 0);
                        lemma_find_name_none(es@, q[0]);
                    },
                    FSEntry::File { .. } => {},
                }
            }
            assert forall|q: Seq<Seq<u8>>|
                !((#[trigger] file_entry_at(root, q)) is Some) by {
                if q.len() == 0 {
                    assert(node_at(root, q) == Some(root));
                }
            }
        }
        let mut k: usize = 0;
        while k < winners.len()
            invariant
                0 <= k <= winners@.len(),
                w == winners@,
                root is Directory,
                root.ino() == ROOT_INO,
                wf(root),
                uniq(root),
                ino_bounded(root, counter),
                2 <= counter,
                counter as int <= 2 + total_cost(w.take(k as int)),
                forall|k2: int|
                    0 <= k2 < k && total_cost(w) + 2 <= u64::MAX as int && split_on(
                        (#[trigger] w[k2]).path@,
                    ).len() >= 2 && no_conflict(w, k2) ==> is_file_at(
                        root,
                        split_on(w[k2].path@),
                        w[k2].entry,
                    ),
                forall|k2: int|
                    0 <= k2 < w.len() && no_conflict(w, k2) ==> chain_clear(
                        root,
                        split_on((#[trigger] w[k2]).path@).drop_last(),
                    ),
                forall|q: Seq<Seq<u8>>|
                    (#[trigger] file_entry_at(root, q)) is Some ==> exists|k2: int|
                        0 <= k2 < k && split_on(w[k2].path@) == q && split_on(
                            w[k2].path@,
                        ).len() >= 2 && Some(w[k2].entry) == file_entry_at(root, q),
                forall|q: Seq<Seq<u8>>|
                    q.len() > 0 && (#[trigger] node_at(root, q)) is Some ==> exists|k2: int|
                        0 <= k2 < k && split_on(w[k2].path@).len() >= 2 && is_seg_prefix(
                            q,
                            split_on(w[k2].path@),
                        ),
            decreases winners@.len() - k,
        {
            let cand = &winners[k];
            let ghost p = w[k as int].path@;
            proof {
                lemma_total_cost_step(w, k as int);
                lemma_total_cost_mono(w, k as int + 1);
            }
            match split_path(cand.path.as_slice()) {
                None => {},
                Some((chain, leaf)) => {
                    let needed = chain.len() as u64;
                    if needed <= u64::MAX - 2 && counter <= u64::MAX - 1 - needed {
                        let ghost root0 = root;
                        let ghost c0 = counter;
                        let ghost full = segs_of(chain@).skip(0).push(leaf@);
                        proof {
                            assert(segs_of(chain@).skip(0) =~= segs_of(chain@));
                            assert forall|i: int|
                                0 <= i < chain@.len() implies segs_of(chain@)[i] == split_on(
                                p,
                            ).drop_last()[i] by {
                                assert((chain@[i])@ == split_on(p)[i]);
                            }
                            assert(segs_of(chain@) =~= split_on(p).drop_last());
                            assert(full =~= split_on(p));
                        }
                        let (root2, counter2) = insert_rec(
                            root,
                            &chain,
                            0,
                            &leaf,
                            cand.entry,
                            counter,
                        );
                        root = root2;
                        counter = counter2;
                        proof {
                            assert(segs_of(chain@).skip(0).push(leaf@) == full);
                            assert(full == split_on(p));
                            // Presence of earlier winners and clear chains
                            // survive: every other non-conflicting path is
                            // unrelated to the inserted one.
                            assert forall|k2: int|
                                0 <= k2 < k + 1 && total_cost(w) + 2 <= u64::MAX as int
                                    && split_on((#[trigger] w[k2]).path@).len() >= 2
                                    && no_conflict(w, k2) implies is_file_at(
                                root,
                                split_on(w[k2].path@),
                                w[k2].entry,
                            ) by {
                                if k2 < k {
                                    assert(unrelated(split_on(w[k as int].path@), split_on(
                                        w[k2].path@,
                                    )));
                                    assert(node_at(root, split_on(w[k2].path@)) == node_at(
                                        root0,
                                        split_on(w[k2].path@),
                                    ));
                                } else {
                                    assert(chain_clear(root0, split_on(p).drop_last()));
                                    assert(segs_of(chain@).skip(0) == split_on(p).drop_last());
                                    assert(chain_clear(root0, segs_of(chain@).skip(0)));
                                    assert(is_file_at(root, full, w[k2].entry));
                                }
                            }
                            assert forall|k2: int|
                                0 <= k2 < w.len() && no_conflict(w, k2) implies chain_clear(
                                root,
                                split_on((#[trigger] w[k2]).path@).drop_last(),
                            ) by {
                                let p2 = split_on(w[k2].path@);
                                let ch2 = p2.drop_last();
                                lemma_split_on_nonempty(w[k2].path@);
                                assert(ch2 =~= p2.take(p2.len() - 1));
                                assert(is_seg_prefix(ch2, p2)) by {
                                    assert(ch2.len() == p2.len() - 1);
                                    assert(ch2 == p2.take(ch2.len() as int));
                                }
                                assert(chain_clear(root0, ch2));
                                assert forall|i: int|
                                    0 <= i <= ch2.len() implies (node_at(
                                    root,
                                    #[trigger] ch2.take(i),
                                ) matches Option::Some(m) ==> m is Directory) by {
                                    let q = ch2.take(i);
                                    assert(is_seg_prefix(q, ch2)) by {
                                        assert(q == ch2.take(q.len() as int));
                                    }
                                    if unrelated(q, full) {
                                        assert(node_at(root, q) == node_at(root0, q));
                                    } else if is_seg_prefix(full, q) {
                                        lemma_prefix_trans(full, q, ch2);
                                        lemma_prefix_trans(full, ch2, p2);
                                        if k2 == k as int {
                                            assert(full.len() <= ch2.len());
                                            assert(full.len() == p2.len());
                                            assert(false);
                                        } else {
                                            assert(unrelated(split_on(w[k as int].path@), p2));
                                            assert(is_seg_prefix(split_on(w[k as int].path@), p2));
                                            assert(false);
                                        }
                                    } else {
                                        assert(is_seg_prefix(q, full));
                                        assert(q != full) by {
                                            if q == full {
                                                assert(is_seg_prefix(full, q));
                                            }
                                        }
                                        let ghost sub = node_at(root, q);
                                        if sub is Some {
                                            if !(sub.unwrap() is Directory) {
                                                assert(node_at(root0, q) == sub);
                                            }
                                        }
                                    }
                                }
                            }
                            // Content bound: files in the new tree are old
                            // files or the inserted winner; nodes lie on an
                            // inserted winner's path.
                            assert forall|q: Seq<Seq<u8>>|
                                (#[trigger] file_entry_at(root, q)) is Some implies exists|
                                k2: int,
                            |
                                0 <= k2 < k + 1 && split_on(w[k2].path@) == q && split_on(
                                    w[k2].path@,
                                ).len() >= 2 && Some(w[k2].entry) == file_entry_at(root, q) by {
                                if file_entry_at(root0, q) == file_entry_at(root, q) {
                                    let k2 = choose|k2: int|
                                        0 <= k2 < k && split_on(w[k2].path@) == q && split_on(
                                            w[k2].path@,
                                        ).len() >= 2 && Some(w[k2].entry) == file_entry_at(
                                            root0,
                                            q,
                                        );
                                    assert(0 <= k2 < k + 1 && split_on(w[k2].path@) == q
                                        && split_on(w[k2].path@).len() >= 2 && Some(w[k2].entry)
                                        == file_entry_at(root, q));
                                } else {
                                    assert(q == full && file_entry_at(root, q) == Some(
                                        cand.entry,
                                    ));
                                    assert(split_on(w[k as int].path@) == q);
                                    assert(w[k as int].entry == cand.entry);
                                    assert(0 <= (k as int) < k + 1 && split_on(
                                        w[k as int].path@,
                                    ) == q && split_on(w[k as int].path@).len() >= 2 && Some(
                                        w[k as int].entry,
                                    ) == file_entry_at(root, q));
                                }
                            }
                            assert forall|q: Seq<Seq<u8>>|
                                q.len() > 0 && (#[trigger] node_at(root, q)) is Some implies
                                exists|k2: int|
                                0 <= k2 < k + 1 && split_on(w[k2].path@).len() >= 2
                                    && is_seg_prefix(q, split_on(w[k2].path@)) by {
                                if node_at(root0, q) is Some {
                                    let k2 = choose|k2: int|
                                        0 <= k2 < k && split_on(w[k2].path@).len() >= 2
                                            && is_seg_prefix(q, split_on(w[k2].path@));
                                    assert(0 <= k2 < k + 1 && split_on(w[k2].path@).len() >= 2
                                        && is_seg_prefix(q, split_on(w[k2].path@)));
                                } else {
                                    assert(is_seg_prefix(q, full));
                                    assert(0 <= (k as int) < k + 1 && split_on(
                                        w[k as int].path@,
                                    ).len() >= 2 && is_seg_prefix(q, split_on(
                                        w[k as int].path@,
                                    )));
                                }
                            }
                        }
                    } else {
                        // The inode counter would run out: the path is
                        // skipped.  Under the stated cost bound this branch
                        // is unreachable, so presence is unaffected.
                        proof {
                            if total_cost(w) + 2 <= u64::MAX as int {
                                lemma_split_on_nonempty(p);
                                assert(counter as int + path_cost(w[k as int]) <= 2
                                    + total_cost(w.take(k as int + 1)));
                                assert(false);
                            }
                        }
                    }
                },
            }
            k += 1;
        }
        proof {
            assert(w.take(w.len() as int) =~= w);
            assert(built_from(root, w));
            assert(tree_bounded(root, w));
            assert(merge_inv(w, all_cands(scans@), all_cands(scans@).len() as int)) by {
                assert(cands_view(cands@) == all_cands(scans@));
                assert(cands@.len() == all_cands(scans@).len());
            }
        }
        (root, counter)
    }
}

/// A winner whose path is unrelated to every other winner's sits in the
/// tree at its split path with exactly its version.
proof fn lemma_winner_placed(root: FSEntry, w: Seq<Candidate>, cv: Seq<CandView>, j: int, k: int)
    requires
        merge_inv(w, cv, cv.len() as int),
        built_from(root, w),
        total_cost(w) + 2 <= u64::MAX,
        0 <= j < cv.len(),
        0 <= k < w.len(),
        cand_view(w[k]) == cv[j],
        split_on(cv[j].path).len() >= 2,
        forall|k2: int|
            0 <= k2 < w.len() && (#[trigger] w[k2]).path@ != cv[j].path ==> unrelated(
                split_on(w[k2].path@),
                split_on(cv[j].path),
            ),
    ensures
        file_entry_at(root, split_on(cv[j].path)) == Some(cv[j].entry),
{
    assert(w[k].path@ == cv[j].path);
    assert(w[k].entry == cv[j].entry);
    assert(no_conflict(w, k)) by {
        assert forall|j2: int| 0 <= j2 < w.len() && j2 != k implies unrelated(
            split_on((#[trigger] w[j2]).path@),
            split_on(w[k].path@),
        ) by {
            assert(w[j2].path@ != w[k].path@);
        }
    }
    assert(is_file_at(root, split_on(w[k].path@), w[k].entry));
}

/// A path that exactly one candidate offers — it occurred in exactly one
/// archive — is served at its split path with exactly that candidate's
/// version, provided its path shares no prefix relation with any winner's
/// and the winner set's inode cost fits the counter.  With `tree_bounded`,
/// no other file in the tree relates to the path at all.
pub proof fn lemma_unique_version_in_tree(
    root: FSEntry,
    w: Seq<Candidate>,
    cv: Seq<CandView>,
    j: int,
)
    requires
        merge_inv(w, cv, cv.len() as int),
        built_from(root, w),
        total_cost(w) + 2 <= u64::MAX,
        0 <= j < cv.len(),
        split_on(cv[j].path).len() >= 2,
        forall|j2: int| 0 <= j2 < cv.len() && j2 != j ==> (#[trigger] cv[j2]).path != cv[j].path,
        forall|k: int|
            0 <= k < w.len() && (#[trigger] w[k]).path@ != cv[j].path ==> unrelated(
                split_on(w[k].path@),
                split_on(cv[j].path),
            ),
    ensures
        file_entry_at(root, split_on(cv[j].path)) == Some(cv[j].entry),
{
    lemma_single_candidate_version(w, cv, j);
    let k = choose|k: int| 0 <= k < w.len() && cand_view(#[trigger] w[k]) == cv[j];
    lemma_winner_placed(root, w, cv, j, k);
}

/// A path offered by several candidates whose modification times have a
/// strict maximum is served at its split path with exactly the most
/// recent version, under the same independence and cost conditions.
pub proof fn lemma_most_recent_in_tree(
    root: FSEntry,
    w: Seq<Candidate>,
    cv: Seq<CandView>,
    j: int,
)
    requires
        merge_inv(w, cv, cv.len() as int),
        built_from(root, w),
        total_cost(w) + 2 <= u64::MAX,
        0 <= j < cv.len(),
        split_on(cv[j].path).len() >= 2,
        forall|j2: int|
            0 <= j2 < cv.len() && j2 != j && (#[trigger] cv[j2]).path == cv[j].path
                ==> cv[j2].entry.info.time < cv[j].entry.info.time,
        forall|k: int|
            0 <= k < w.len() && (#[trigger] w[k]).path@ != cv[j].path ==> unrelated(
                split_on(w[k].path@),
                split_on(cv[j].path),
            ),
    ensures
        file_entry_at(root, split_on(cv[j].path)) == Some(cv[j].entry),
{
    lemma_most_recent_wins(w, cv, j);
    let k = choose|k: int| 0 <= k < w.len() && cand_view(#[trigger] w[k]) == cv[j];
    lemma_winner_placed(root, w, cv, j, k);
}

/// For a path that exactly one candidate offers — it occurred in exactly
/// one archive — the winner set holds exactly that version.
pub proof fn lemma_single_candidate_version(w: Seq<Candidate>, cv: Seq<CandView>, j: int)
    requires
        merge_inv(w, cv, cv.len() as int),
        0 <= j < cv.len(),
        forall|j2: int| 0 <= j2 < cv.len() && j2 != j ==> (#[trigger] cv[j2]).path != cv[j].path,
    ensures
        exists|k: int| 0 <= k < w.len() && cand_view(#[trigger] w[k]) == cv[j],
{
    let k = choose|k: int|
        0 <= k < w.len() && w[k].path@ == cv[j].path && w[k].entry.info.time
            >= cv[j].entry.info.time;
    let j2 = choose|j2: int| 0 <= j2 < cv.len() && cv[j2] == cand_view(w[k]);
    assert(cv[j2].path == cv[j].path);
    assert(j2 == j);
    assert(cand_view(w[k]) == cv[j]);
}

/// For a path offered by several candidates with distinct modification
/// times, the winner set holds the strictly most recent version.
pub proof fn lemma_most_recent_wins(w: Seq<Candidate>, cv: Seq<CandView>, j: int)
    requires
        merge_inv(w, cv, cv.len() as int),
        0 <= j < cv.len(),
        forall|j2: int|
            0 <= j2 < cv.len() && j2 != j && (#[trigger] cv[j2]).path == cv[j].path
                ==> cv[j2].entry.info.time < cv[j].entry.info.time,
    ensures
        exists|k: int| 0 <= k < w.len() && cand_view(#[trigger] w[k]) == cv[j],
{
    let k = choose|k: int|
        0 <= k < w.len() && w[k].path@ == cv[j].path && w[k].entry.info.time
            >= cv[j].entry.info.time;
    let j2 = choose|j2: int| 0 <= j2 < cv.len() && cv[j2] == cand_view(w[k]);
    assert(cv[j2].path == cv[j].path);
    if j2 != j {
        assert(cv[j2].entry.info.time < cv[j].entry.info.time);
        assert(w[k].entry.info.time == cv[j2].entry.info.time);
        assert(false);
    }
    assert(cand_view(w[k]) == cv[j]);
}

/// A winner never comes out of nowhere: every winner is one of the
/// candidates, so an archive that failed to scan — which contributes no
/// candidates at all — contributes nothing to the tree's content.
pub proof fn lemma_no_winner_without_candidate(w: Seq<Candidate>, cv: Seq<CandView>, k: int)
    requires
        merge_inv(w, cv, cv.len() as int),
        0 <= k < w.len(),
    ensures
        exists|j: int| 0 <= j < cv.len() && (#[trigger] cv[j]) == cand_view(w[k]),
{
    // name the winner so the covering clause applies to it
    let xk = w[k];
    let j = choose|j: int| 0 <= j < cv.len() && cv[j] == cand_view(w[k]);
    assert(0 <= j < cv.len() && cv[j] == cand_view(w[k]));
}

} // verus!