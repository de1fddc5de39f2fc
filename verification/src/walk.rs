use vstd::prelude::*;
use crate::error::{LsError, LsResult};
use crate::files::{classified_core, raw_classifies, FileKind, FileSystemEntry, RawEntry};

verus! {

/// One directory's listing, keyed by the directory's canonical
/// identity.
pub struct DirListing {
    pub canonical: u64,
    pub entries: Vec<RawEntry>,
}

/// The directory listings gathered for one traversal: at most one per
/// canonical identity.  A directory whose listing is absent could not
/// be read (or was never needed).
pub struct FsSnapshot {
    dirs: Vec<DirListing>,
}

impl FsSnapshot {
    /// At most one listing per canonical identity.
    pub closed spec fn wf(self) -> bool {
        forall|i: int, j: int|
            0 <= i < j < self.dirs@.len() ==> #[trigger] self.dirs@[i].canonical
                != #[trigger] self.dirs@[j].canonical
    }

    pub closed spec fn contains_dir(self, c: u64) -> bool {
        exists|i: int| 0 <= i < self.dirs@.len() && #[trigger] self.dirs@[i].canonical == c
    }

    pub closed spec fn listing_of(self, c: u64) -> Seq<RawEntry> {
        let i = choose|i: int| 0 <= i < self.dirs@.len() && #[trigger] self.dirs@[i].canonical == c;
        self.dirs@[i].entries@
    }

    pub fn new() -> (r: FsSnapshot)
        ensures
            r.wf(),
            forall|c: u64| !r.contains_dir(c),
    {
        FsSnapshot { dirs: Vec::new() }
    }

    pub fn contains(&self, c: u64) -> (r: bool)
        ensures
            r == self.contains_dir(c),
    {
        let mut i: usize = 0;
        while i < self.dirs.len()
            invariant
                i <= self.dirs@.len(),
                forall|k: int| 0 <= k < i ==> #[trigger] self.dirs@[k].canonical != c,
            decreases self.dirs@.len() - i,
        {
            if self.dirs[i].canonical == c {
                return true;
            }
            i = i + 1;
        }
        false
    }

    /// Records one directory's listing; a listing already present for
    /// the same canonical identity is kept and the new one dropped.
    pub fn add(&mut self, canonical: u64, entries: Vec<RawEntry>)
        requires
            old(self).wf(),
        ensures
            final(self).wf(),
            forall|c: u64|
                #[trigger] final(self).contains_dir(c) == (old(self).contains_dir(c) || c
                    == canonical),
            !old(self).contains_dir(canonical) ==> final(self).listing_of(canonical) == entries@,
            forall|c: u64|
                old(self).contains_dir(c) ==> #[trigger] final(self).listing_of(c) == old(self)
                    .listing_of(c),
    {
        if self.contains(canonical) {
            return;
        }
        self.dirs.push(DirListing { canonical, entries });
        proof {
            let n = self.dirs@.len() - 1;
            assert(self.dirs@[n].canonical == canonical);
            assert forall|c: u64| #[trigger] self.contains_dir(c) == (old(self).contains_dir(c)
                || c == canonical) by {
                if old(self).contains_dir(c) {
                    let i = choose|i: int|
                        0 <= i < old(self).dirs@.len() && #[trigger] old(self).dirs@[i].canonical
                            == c;
                    assert(self.dirs@[i].canonical == c);
                }
                if self.contains_dir(c) && c != canonical {
                    let i = choose|i: int|
                        0 <= i < self.dirs@.len() && #[trigger] self.dirs@[i].canonical == c;
                    assert(i < n);
                    assert(old(self).dirs@[i].canonical == c);
                }
            }
            assert forall|c: u64| old(self).contains_dir(c) implies #[trigger] self.listing_of(c)
                == old(self).listing_of(c) by {
                let i = choose|i: int|
                    0 <= i < self.dirs@.len() && #[trigger] self.dirs@[i].canonical == c;
                let j = choose|j: int|
                    0 <= j < old(self).dirs@.len() && #[trigger] old(self).dirs@[j].canonical == c;
                assert(self.dirs@[j].canonical == c);
                assert(i == j);
            }
            assert(self.listing_of(canonical) == entries@) by {
                let i = choose|i: int|
                    0 <= i < self.dirs@.len() && #[trigger] self.dirs@[i].canonical == canonical;
                assert(self.dirs@[n].canonical == canonical);
                assert(i == n);
            }
        }
    }

    pub fn lookup(&self, c: u64) -> (r: Option<&Vec<RawEntry>>)
        requires
            self.wf(),
        ensures
            r is Some <==> self.contains_dir(c),
            r matches Some(v) ==> v@ == self.listing_of(c),
    {
        let mut i: usize = 0;
        while i < self.dirs.len()
            invariant
                i <= self.dirs@.len(),
                self.wf(),
                forall|k: int| 0 <= k < i ==> #[trigger] self.dirs@[k].canonical != c,
            decreases self.dirs@.len() - i,
        {
            if self.dirs[i].canonical == c {
                proof {
                    let j = choose|j: int|
                        0 <= j < self.dirs@.len() && #[trigger] self.dirs@[j].canonical == c;
                    assert(self.dirs@[i as int].canonical == c);
                    assert(j == i);
                }
                return Some(&self.dirs[i].entries);
            }
            i = i + 1;
        }
        None
    }
}

fn contains_u64(v: &Vec<u64>, x: u64) -> (r: bool)
    ensures
        r == v@.contains(x),
{
    let mut i: usize = 0;
    while i < v.len()
        invariant
            i <= v@.len(),
            forall|k: int| 0 <= k < i ==> v@[k] != x,
        decreases v@.len() - i,
    {
        if v[i] == x {
            return true;
        }
        i = i + 1;
    }
    proof {
        assert(!v@.contains(x));
    }
    false
}

/// The parts of an entry the traversal never changes: everything but a
/// directory's children.
pub open spec fn same_core(a: FileSystemEntry, b: FileSystemEntry) -> bool {
    match (a, b) {
        (
            FileSystemEntry::Directory { base_info: b1, metadata: m1, .. },
            FileSystemEntry::Directory { base_info: b2, metadata: m2, .. },
        ) => b1 == b2 && m1 == m2,
        _ => a == b,
    }
}

/// Classification looks only at what the traversal never changes, so
/// it survives the filling of a directory's children.
pub proof fn lemma_core_preserved(raw: RawEntry, a: FileSystemEntry, b: FileSystemEntry)
    requires
        raw_classifies(raw, a),
        same_core(a, b),
    ensures
        raw_classifies(raw, b),
{
}

/// Whether the traversal expands a directory: there is depth budget
/// left, the directory has a canonical identity that is not already on
/// the expansion stack, and its listing could be read.
pub open spec fn expandable(
    snap: FsSnapshot,
    e: FileSystemEntry,
    budget: int,
    stack: Seq<u64>,
) -> bool {
    &&& e is Directory
    &&& budget > 0
    &&& e.base_info_spec().canonical matches Some(c) && !stack.contains(c) && snap.contains_dir(c)
}

/// Whether an entry is correctly expanded against the snapshot: a
/// non-directory is always done; an expandable directory holds exactly
/// the children its listing classifies, each expanded one level deeper
/// with itself on the stack; any other directory has no children.
pub open spec fn filled(snap: FsSnapshot, budget: int, stack: Seq<u64>, e: FileSystemEntry) -> bool
    decreases budget, 0int, 0int,
{
    if !(e is Directory) {
        true
    } else if expandable(snap, e, budget, stack) {
        let c = e.base_info_spec().canonical->0;
        children_ok(snap, snap.listing_of(c), budget - 1, stack.push(c), e.entries_spec())
    } else {
        e.entries_spec().len() == 0
    }
}

/// Whether `out` is exactly the classification of `listing`, in order:
/// unreadable or unclassifiable raw children are skipped, each
/// classified child is correct and itself filled.
pub open spec fn children_ok(
    snap: FsSnapshot,
    listing: Seq<RawEntry>,
    budget: int,
    stack: Seq<u64>,
    out: Seq<FileSystemEntry>,
) -> bool
    decreases budget, listing.len(), 1int,
{
    if listing.len() == 0 {
        out.len() == 0
    } else if !raw_ok(listing[0]) {
        children_ok(snap, listing.drop_first(), budget, stack, out)
    } else {
        &&& out.len() > 0
        &&& raw_classifies(listing[0], out[0])
        &&& filled(snap, budget, stack, out[0])
        &&& children_ok(snap, listing.drop_first(), budget, stack, out.drop_first())
    }
}

/// Whether classification of a raw child succeeds: a file, a
/// directory, or a symlink whose target was read.
pub open spec fn raw_ok(raw: RawEntry) -> bool {
    match raw.stat.kind {
        FileKind::File => true,
        FileKind::Directory => true,
        FileKind::Symlink => raw.link_target is Some,
        FileKind::Other => false,
    }
}

/// Law: a one-level expansion leaves every child directory with no
/// grandchildren.
pub proof fn lemma_one_level_children_flat(
    snap: FsSnapshot,
    listing: Seq<RawEntry>,
    stack: Seq<u64>,
    out: Seq<FileSystemEntry>,
)
    requires
        children_ok(snap, listing, 0, stack, out),
    ensures
        forall|i: int| 0 <= i < out.len() ==> (#[trigger] out[i]).entries_spec().len() == 0,
    decreases listing.len(),
{
    if listing.len() > 0 {
        if !raw_ok(listing[0]) {
            lemma_one_level_children_flat(snap, listing.drop_first(), stack, out);
        } else {
            lemma_one_level_children_flat(snap, listing.drop_first(), stack, out.drop_first());
            assert forall|i: int|
                0 <= i < out.len() implies (#[trigger] out[i]).entries_spec().len() == 0 by {
                if i > 0 {
                    assert(out.drop_first()[i - 1] == out[i]);
                } else {
                    assert(filled(snap, 0, stack, out[0]));
                    assert(!expandable(snap, out[0], 0, stack));
                    if !(out[0] is Directory) {
                        assert(out[0].entries_spec() =~= Seq::<FileSystemEntry>::empty());
                    }
                }
            }
        }
    }
}

/// Law: cycle avoidance is exact. A filled directory whose canonical
/// identity is already on the active expansion stack is left as a
/// leaf, so a cycle is cut the first time it would close.
pub proof fn lemma_cycle_blocked(
    snap: FsSnapshot,
    budget: int,
    stack: Seq<u64>,
    e: FileSystemEntry,
)
    requires
        filled(snap, budget, stack, e),
        e is Directory,
        e.base_info_spec().canonical matches Some(c) && stack.contains(c),
    ensures
        e.entries_spec().len() == 0,
{
}

/// Law: cycle avoidance skips nothing else. A filled directory whose
/// canonical identity is not on the stack, with budget left and a
/// readable listing, holds exactly that listing's classification — so
/// a directory reached along two distinct non-cyclic paths is expanded
/// at each of them.
pub proof fn lemma_noncyclic_expanded(
    snap: FsSnapshot,
    budget: int,
    stack: Seq<u64>,
    e: FileSystemEntry,
)
    requires
        filled(snap, budget, stack, e),
        e is Directory,
        budget > 0,
        e.base_info_spec().canonical matches Some(c) && !stack.contains(c) && snap.contains_dir(c),
    ensures
        children_ok(
            snap,
            snap.listing_of(e.base_info_spec().canonical->0),
            budget - 1,
            stack.push(e.base_info_spec().canonical->0),
            e.entries_spec(),
        ),
{
}

/// Law: a directory filled without recursion has children with no
/// grandchildren — whatever deeper listings the snapshot may hold.
pub proof fn lemma_no_recursion_no_grandchildren(
    snap: FsSnapshot,
    listing: Seq<RawEntry>,
    stack: Seq<u64>,
    root: FileSystemEntry,
)
    requires
        children_ok(snap, listing, 0, stack, root.entries_spec()),
    ensures
        forall|i: int|
            0 <= i < root.entries_spec().len() ==> (#[trigger] root.entries_spec()[i])
                .entries_spec().len() == 0,
{
    lemma_one_level_children_flat(snap, listing, stack, root.entries_spec());
}

/// Splitting the listing splits the classified children.
proof fn lemma_children_ok_concat(
    snap: FsSnapshot,
    l1: Seq<RawEntry>,
    l2: Seq<RawEntry>,
    budget: int,
    stack: Seq<u64>,
    o1: Seq<FileSystemEntry>,
    o2: Seq<FileSystemEntry>,
)
    requires
        children_ok(snap, l1, budget, stack, o1),
        children_ok(snap, l2, budget, stack, o2),
    ensures
        children_ok(snap, l1 + l2, budget, stack, o1 + o2),
    decreases l1.len(),
{
    if l1.len() == 0 {
        assert(o1.len() == 0);
        assert(l1 + l2 =~= l2);
        assert(o1 + o2 =~= o2);
    } else {
        assert((l1 + l2)[0] == l1[0]);
        assert((l1 + l2).drop_first() =~= l1.drop_first() + l2);
        if !raw_ok(l1[0]) {
            lemma_children_ok_concat(snap, l1.drop_first(), l2, budget, stack, o1, o2);
        } else {
            lemma_children_ok_concat(
                snap,
                l1.drop_first(),
                l2,
                budget,
                stack,
                o1.drop_first(),
                o2,
            );
            assert((o1 + o2)[0] == o1[0]);
            assert((o1 + o2).drop_first() =~= o1.drop_first() + o2);
        }
    }
}

impl FileSystemEntry {
    /// Fills a classified root according to the recursion policy:
    /// `Some(depth)` expands directories that many levels with cycle
    /// avoidance; `None` lists one level and reports a failure to read
    /// the root's listing.
    pub fn fill_start_dir(&mut self, recursive: Option<usize>, snap: &FsSnapshot) -> (r: LsResult<
        (),
    >)
        requires
            snap.wf(),
            *old(self) is Directory ==> old(self).entries_spec().len() == 0,
        ensures
            same_core(*old(self), *final(self)),
            recursive matches Some(depth) ==> r is Ok && filled(
                *snap,
                depth as int,
                Seq::empty(),
                *final(self),
            ),
            recursive is None && !(*old(self) is Directory) ==> r is Ok && *final(self) == *old(self),
            recursive is None && *old(self) is Directory ==> {
                let canon = old(self).base_info_spec().canonical;
                if canon matches Some(c) && snap.contains_dir(c) {
                    r is Ok && children_ok(
                        *snap,
                        snap.listing_of(canon->0),
                        0,
                        Seq::empty().push(canon->0),
                        final(self).entries_spec(),
                    )
                } else {
                    r matches Err(e) && e is IOError && *final(self) == *old(self)
                }
            },
    {
        match recursive {
            Some(depth) => {
                let mut visited: Vec<u64> = Vec::new();
                proof {
                    assert(visited@ =~= Seq::<u64>::empty());
                }
                self.fill_dir_recursive_safe(depth, 0, &mut visited, snap);
                Ok(())
            },
            None => self.fill_dir_non_recursive(snap),
        }
    }

    /// Expands this entry up to `max_depth` levels below the root,
    /// keeping the canonical identities of the directories on the
    /// active expansion stack in `visited` so that a directory already
    /// being expanded is treated as a leaf.  The recursion is bounded
    /// by the depth budget alone (the `decreases` clause), so the walk
    /// terminates whatever cycles the snapshot encodes.
    fn fill_dir_recursive_safe(
        &mut self,
        max_depth: usize,
        current_depth: usize,
        visited: &mut Vec<u64>,
        snap: &FsSnapshot,
    )
        requires
            snap.wf(),
            *old(self) is Directory ==> old(self).entries_spec().len() == 0,
            current_depth <= max_depth,
        ensures
            same_core(*old(self), *final(self)),
            final(visited)@ == old(visited)@,
            filled(*snap, max_depth - current_depth, old(visited)@, *final(self)),
        decreases max_depth - current_depth,
    {
        let ghost budget = max_depth - current_depth as int;
        match self {
            FileSystemEntry::Directory { base_info, entries, .. } => {
                if current_depth >= max_depth {
                    return;
                }
                let c = match base_info.canonical {
                    Some(c) => c,
                    None => {
                        return ;
                    },
                };
                if contains_u64(visited, c) {
                    return;
                }
                let listing = match snap.lookup(c) {
                    Some(l) => l,
                    None => {
                        return ;
                    },
                };
                visited.push(c);
                let ghost stack2 = visited@;
                let ghost lview = listing@;
                let mut i: usize = 0;
                proof {
                    assert(lview.subrange(0, 0) =~= Seq::<RawEntry>::empty());
                    assert(entries@ =~= Seq::<FileSystemEntry>::empty());
                }
                while i < listing.len()
                    invariant
                        i <= listing@.len(),
                        lview == listing@,
                        snap.wf(),
                        current_depth < max_depth,
                        visited@ == stack2,
                        budget == max_depth - current_depth,
                        children_ok(
                            *snap,
                            lview.subrange(0, i as int),
                            budget - 1,
                            stack2,
                            entries@,
                        ),
                    decreases listing@.len() - i,
                {
                    let ghost entries0 = entries@;
                    match crate::files::FileSystemEntry::classify_raw(&listing[i]) {
                        Ok(mut fse) => {
                            proof {
                                assert(raw_ok(lview[i as int]));
                            }
                            let ghost fse0 = fse;
                            if fse.is_dir() {
                                fse.fill_dir_recursive_safe(
                                    max_depth,
                                    current_depth + 1,
                                    visited,
                                    snap,
                                );
                            }
                            proof {
                                if !(fse0 is Directory) {
                                    assert(same_core(fse0, fse));
                                }
                                lemma_core_preserved(lview[i as int], fse0, fse);
                                assert(filled(*snap, budget - 1, stack2, fse));
                                assert(children_ok(
                                    *snap,
                                    Seq::<RawEntry>::empty(),
                                    budget - 1,
                                    stack2,
                                    Seq::<FileSystemEntry>::empty(),
                                ));
                                assert(children_ok(
                                    *snap,
                                    seq![lview[i as int]],
                                    budget - 1,
                                    stack2,
                                    seq![fse],
                                )) by {
                                    assert(seq![lview[i as int]].drop_first()
                                        =~= Seq::<RawEntry>::empty());
                                    assert(seq![fse].drop_first()
                                        =~= Seq::<FileSystemEntry>::empty());
                                    assert(seq![lview[i as int]][0] == lview[i as int]);
                                    assert(seq![fse][0] == fse);
                                }
                            }
                            entries.push(fse);
                            proof {
                                lemma_children_ok_concat(
                                    *snap,
                                    lview.subrange(0, i as int),
                                    seq![lview[i as int]],
                                    budget - 1,
                                    stack2,
                                    entries0,
                                    seq![entries@[entries@.len() - 1]],
                                );
                                assert(lview.subrange(0, i as int) + seq![lview[i as int]]
                                    =~= lview.subrange(0, i + 1));
                                assert(entries0 + seq![entries@[entries@.len() - 1]] =~= entries@);
                            }
                        },
                        Err(_) => {
                            proof {
                                assert(!raw_ok(lview[i as int]));
                                assert(children_ok(
                                    *snap,
                                    Seq::<RawEntry>::empty(),
                                    budget - 1,
                                    stack2,
                                    Seq::<FileSystemEntry>::empty(),
                                ));
                                assert(children_ok(
                                    *snap,
                                    seq![lview[i as int]],
                                    budget - 1,
                                    stack2,
                                    Seq::<FileSystemEntry>::empty(),
                                )) by {
                                    assert(seq![lview[i as int]].drop_first()
                                        =~= Seq::<RawEntry>::empty());
                                    assert(seq![lview[i as int]][0] == lview[i as int]);
                                }
                                lemma_children_ok_concat(
                                    *snap,
                                    lview.subrange(0, i as int),
                                    seq![lview[i as int]],
                                    budget - 1,
                                    stack2,
                                    entries0,
                                    Seq::<FileSystemEntry>::empty(),
                                );
                                assert(lview.subrange(0, i as int) + seq![lview[i as int]]
                                    =~= lview.subrange(0, i + 1));
                                assert(entries0 + Seq::<FileSystemEntry>::empty() =~= entries@);
                            }
                        },
                    }
                    i = i + 1;
                }
                proof {
                    assert(lview.subrange(0, lview.len() as int) =~= lview);
                }
                let _ = visited.pop();
                proof {
                    assert(visited@ =~= old(visited)@);
                    assert(stack2 == old(visited)@.push(c));
                    assert(expandable(*snap, *self, budget, old(visited)@));
                }
            },
            _ => {
                return ;
            },
        }
    }

    /// Lists one level of this directory; a failure to read the root's
    /// own listing is reported, unlike failures below a recursive walk.
    fn fill_dir_non_recursive(&mut self, snap: &FsSnapshot) -> (r: LsResult<()>)
        requires
            snap.wf(),
            *old(self) is Directory ==> old(self).entries_spec().len() == 0,
        ensures
            same_core(*old(self), *final(self)),
            !(*old(self) is Directory) ==> r is Ok && *final(self) == *old(self),
            *old(self) is Directory ==> {
                let canon = old(self).base_info_spec().canonical;
                if canon matches Some(c) && snap.contains_dir(c) {
                    r is Ok && children_ok(
                        *snap,
                        snap.listing_of(canon->0),
                        0,
                        Seq::empty().push(canon->0),
                        final(self).entries_spec(),
                    )
                } else {
                    r matches Err(e) && e is IOError && *final(self) == *old(self)
                }
            },
    {
        match self {
            FileSystemEntry::Directory { base_info, entries, .. } => {
                let c = match base_info.canonical {
                    Some(c) => c,
                    None => {
                        return Err(
                            LsError::IOError("cannot resolve the directory to list".to_owned()),
                        );
                    },
                };
                let listing = match snap.lookup(c) {
                    Some(l) => l,
                    None => {
                        return Err(
                            LsError::IOError("cannot read the directory listing".to_owned()),
                        );
                    },
                };
                let ghost stack2 = Seq::<u64>::empty().push(c);
                let ghost lview = listing@;
                let mut i: usize = 0;
                proof {
                    assert(lview.subrange(0, 0) =~= Seq::<RawEntry>::empty());
                    assert(entries@ =~= Seq::<FileSystemEntry>::empty());
                }
                while i < listing.len()
                    invariant
                        i <= listing@.len(),
                        lview == listing@,
                        children_ok(*snap, lview.subrange(0, i as int), 0, stack2, entries@),
                    decreases listing@.len() - i,
                {
                    let ghost entries0 = entries@;
                    match crate::files::FileSystemEntry::classify_raw(&listing[i]) {
                        Ok(fse) => {
                            proof {
                                assert(raw_ok(lview[i as int]));
                                assert(fse.entries_spec().len() == 0);
                                assert(filled(*snap, 0, stack2, fse));
                                assert(children_ok(
                                    *snap,
                                    Seq::<RawEntry>::empty(),
                                    0,
                                    stack2,
                                    Seq::<FileSystemEntry>::empty(),
                                ));
                                assert(children_ok(*snap, seq![lview[i as int]], 0, stack2, seq![
                                    fse,
                                ])) by {
                                    assert(seq![lview[i as int]].drop_first()
                                        =~= Seq::<RawEntry>::empty());
                                    assert(seq![fse].drop_first()
                                        =~= Seq::<FileSystemEntry>::empty());
                                    assert(seq![lview[i as int]][0] == lview[i as int]);
                                    assert(seq![fse][0] == fse);
                                }
                            }
                            entries.push(fse);
                            proof {
                                lemma_children_ok_concat(
                                    *snap,
                                    lview.subrange(0, i as int),
                                    seq![lview[i as int]],
                                    0,
                                    stack2,
                                    entries0,
                                    seq![entries@[entries@.len() - 1]],
                                );
                                assert(lview.subrange(0, i as int) + seq![lview[i as int]]
                                    =~= lview.subrange(0, i + 1));
                                assert(entries0 + seq![entries@[entries@.len() - 1]] =~= entries@);
                            }
                        },
                        Err(_) => {
                            proof {
                                assert(!raw_ok(lview[i as int]));
                                assert(children_ok(
                                    *snap,
                                    Seq::<RawEntry>::empty(),
                                    0,
                                    stack2,
                                    Seq::<FileSystemEntry>::empty(),
                                ));
                                assert(children_ok(
                                    *snap,
                                    seq![lview[i as int]],
                                    0,
                                    stack2,
                                    Seq::<FileSystemEntry>::empty(),
                                )) by {
                                    assert(seq![lview[i as int]].drop_first()
                                        =~= Seq::<RawEntry>::empty());
                                    assert(seq![lview[i as int]][0] == lview[i as int]);
                                }
                                lemma_children_ok_concat(
                                    *snap,
                                    lview.subrange(0, i as int),
                                    seq![lview[i as int]],
                                    0,
                                    stack2,
                                    entries0,
                                    Seq::<FileSystemEntry>::empty(),
                                );
                                assert(lview.subrange(0, i as int) + seq![lview[i as int]]
                                    =~= lview.subrange(0, i + 1));
                                assert(entries0 + Seq::<FileSystemEntry>::empty() =~= entries@);
                            }
                        },
                    }
                    i = i + 1;
                }
                proof {
                    assert(lview.subrange(0, lview.len() as int) =~= lview);
                }
                Ok(())
            },
            _ => Ok(()),
        }
    }
}

/// The request/supply engine that gathers a snapshot: it asks, one
/// directory at a time, for the listing of every directory the walk
/// could need, down to the depth limit, and stores what comes back.
/// The shell performs the reads; the engine decides what to read.
pub struct TreeBuilder {
    snapshot: FsSnapshot,
    pending: Vec<(u64, String, usize)>,
    max_depth: usize,
}

/// One queued request, as plain values: the directory's canonical
/// identity, its path, and its depth below the root.
pub open spec fn request_view(r: (u64, String, usize)) -> (u64, Seq<char>, usize) {
    (r.0, r.1@, r.2)
}

/// The requests one listing queues: its directory children that carry
/// a canonical identity, in listing order, at the given depth.
pub open spec fn queued_children(entries: Seq<RawEntry>, depth: usize) -> Seq<
    (u64, Seq<char>, usize),
>
    decreases entries.len(),
{
    if entries.len() == 0 {
        Seq::empty()
    } else {
        queued_children(entries.drop_last(), depth) + (
        match (entries.last().stat.kind, entries.last().canonical) {
            (FileKind::Directory, Option::Some(c)) => seq![(c, entries.last().path@, depth)],
            _ => Seq::empty(),
        })
    }
}

impl TreeBuilder {
    pub closed spec fn snapshot_spec(&self) -> FsSnapshot {
        self.snapshot
    }

    pub closed spec fn max_depth_spec(&self) -> usize {
        self.max_depth
    }

    /// The outstanding requests, oldest first; requests are served from
    /// the back.
    pub closed spec fn pending_spec(&self) -> Seq<(u64, Seq<char>, usize)> {
        Seq::new(self.pending@.len(), |i: int| request_view(self.pending@[i]))
    }

    /// Starts from a classified root: a directory with a canonical
    /// identity is requested at depth zero when the policy expands at
    /// least one level.  `None` (one flat level) needs the root listing
    /// alone.
    pub fn new(root: &FileSystemEntry, recursive: Option<usize>) -> (r: TreeBuilder)
        ensures
            r.max_depth_spec() as int == (match recursive {
                Option::Some(d) => d as int,
                Option::None => 1,
            }),
            r.snapshot_spec().wf(),
            forall|c: u64| !r.snapshot_spec().contains_dir(c),
            r.pending_spec() == (if r.max_depth_spec() >= 1 && root is Directory
                && root.base_info_spec().canonical is Some {
                seq![
                    (
                        root.base_info_spec().canonical->0,
                        root.base_info_spec().path@,
                        0usize,
                    ),
                ]
            } else {
                Seq::<(u64, Seq<char>, usize)>::empty()
            }),
    {
        let max_depth = match recursive {
            Some(d) => d,
            None => 1,
        };
        let mut pending: Vec<(u64, String, usize)> = Vec::new();
        if max_depth >= 1 {
            match root {
                FileSystemEntry::Directory { base_info, .. } => {
                    match base_info.canonical {
                        Some(c) => {
                            pending.push((c, base_info.path.clone(), 0));
                        },
                        None => {},
                    }
                },
                _ => {},
            }
        }
        let r = TreeBuilder { snapshot: FsSnapshot::new(), pending, max_depth };
        proof {
            if r.max_depth >= 1 && root is Directory && root.base_info_spec().canonical is Some {
                assert(r.pending_spec() =~= seq![
                    (
                        root.base_info_spec().canonical->0,
                        root.base_info_spec().path@,
                        0usize,
                    ),
                ]);
            } else {
                assert(r.pending_spec() =~= Seq::<(u64, Seq<char>, usize)>::empty());
            }
        }
        r
    }

    /// The newest outstanding request: the directory's canonical
    /// identity, its path and its depth; nothing once the snapshot is
    /// complete.
    pub fn pop_request(&mut self) -> (r: Option<(u64, String, usize)>)
        ensures
            final(self).snapshot_spec() == old(self).snapshot_spec(),
            final(self).max_depth_spec() == old(self).max_depth_spec(),
            r is None <==> old(self).pending_spec().len() == 0,
            r matches Some(x) ==> request_view(x) == old(self).pending_spec().last() && final(self)
                .pending_spec() == old(self).pending_spec().drop_last(),
            r is None ==> final(self).pending_spec() == old(self).pending_spec(),
    {
        let r = self.pending.pop();
        proof {
            if r is Some {
                assert(self.pending_spec() =~= old(self).pending_spec().drop_last());
            } else {
                assert(self.pending_spec() =~= old(self).pending_spec());
            }
        }
        r
    }

    /// Records the listing read for one request and queues its child
    /// directories when the depth limit still allows a deeper level; a
    /// canonical identity already recorded is left as it was, and
    /// queues nothing.
    pub fn supply_listing(&mut self, canonical: u64, depth: usize, entries: Vec<RawEntry>)
        requires
            old(self).snapshot_spec().wf(),
        ensures
            final(self).max_depth_spec() == old(self).max_depth_spec(),
            final(self).snapshot_spec().wf(),
            forall|c: u64|
                #[trigger] final(self).snapshot_spec().contains_dir(c) == (old(self)
                    .snapshot_spec().contains_dir(c) || c == canonical),
            !old(self).snapshot_spec().contains_dir(canonical) ==> final(self)
                .snapshot_spec().listing_of(canonical) == entries@,
            forall|c: u64|
                old(self).snapshot_spec().contains_dir(c) ==> #[trigger] final(self)
                    .snapshot_spec().listing_of(c) == old(self).snapshot_spec().listing_of(c),
            final(self).pending_spec() == (if !old(self).snapshot_spec().contains_dir(canonical)
                && depth < usize::MAX && depth as int + 1 < old(self).max_depth_spec() as int {
                old(self).pending_spec() + queued_children(entries@, (depth + 1) as usize)
            } else {
                old(self).pending_spec()
            }),
    {
        let ghost pending0 = self.pending_spec();
        if self.snapshot.contains(canonical) {
            return;
        }
        if depth < usize::MAX && depth + 1 < self.max_depth {
            let mut i: usize = 0;
            proof {
                assert(entries@.subrange(0, 0) =~= Seq::<RawEntry>::empty());
                assert(self.pending_spec() =~= pending0 + queued_children(
                    entries@.subrange(0, 0),
                    (depth + 1) as usize,
                ));
            }
            while i < entries.len()
                invariant
                    i <= entries@.len(),
                    depth < usize::MAX,
                    self.snapshot == old(self).snapshot,
                    self.max_depth == old(self).max_depth,
                    self.snapshot.wf(),
                    self.pending_spec() == pending0 + queued_children(
                        entries@.subrange(0, i as int),
                        (depth + 1) as usize,
                    ),
                decreases entries@.len() - i,
            {
                let ghost before = self.pending_spec();
                let e = &entries[i];
                match e.stat.kind {
                    FileKind::Directory => {
                        match &e.canonical {
                            Some(c) => {
                                self.pending.push((*c, e.path.clone(), depth + 1));
                                proof {
                                    assert(self.pending_spec() =~= before + seq![
                                        (
                                            entries@[i as int].canonical->0,
                                            entries@[i as int].path@,
                                            (depth + 1) as usize,
                                        ),
                                    ]);
                                }
                            },
                            None => {},
                        }
                    },
                    _ => {},
                }
                proof {
                    let pre = entries@.subrange(0, i as int);
                    assert(entries@.subrange(0, i + 1).drop_last() =~= pre);
                    assert(entries@.subrange(0, i + 1).last() == entries@[i as int]);
                    assert(self.pending_spec() =~= pending0 + queued_children(
                        entries@.subrange(0, i + 1),
                        (depth + 1) as usize,
                    ));
                }
                i = i + 1;
            }
            proof {
                assert(entries@.subrange(0, entries@.len() as int) =~= entries@);
            }
        }
        self.snapshot.add(canonical, entries);
    }

    pub fn snapshot(&self) -> (r: &FsSnapshot)
        ensures
            *r == self.snapshot_spec(),
    {
        &self.snapshot
    }
}

} // verus!
