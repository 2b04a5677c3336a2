//! Full synchronization: where a source path lands in the destination, and
//! what is to be done for each entry met on a walk of the source tree.

use crate::ignore::{has_ignored_component, IgnoreMatcher};
use crate::path::{is_plain, joined, PartView, SyncPath};
use crate::util::Digest;
use vstd::prelude::*;

verus! {

/// Where `path` lands when the tree under `src_root` is mirrored under
/// `dst_root`: what `path` has below `src_root`, adjoined to `dst_root`. A
/// path that does not lie at or below `src_root` lands nowhere.
pub open spec fn mapped(
    src_root: Seq<PartView>,
    dst_root: Seq<PartView>,
    path: Seq<PartView>,
) -> Option<Seq<PartView>> {
    if src_root.is_prefix_of(path) {
        Some(joined(dst_root, path.skip(src_root.len() as int)))
    } else {
        None
    }
}

/// The destination path for `src_path`, or `None` where `src_path` is not
/// under `src_root`.
pub fn map_src_to_dst(src_root: &SyncPath, dst_root: &SyncPath, src_path: &SyncPath) -> (dst_path:
    Option<SyncPath>)
    ensures
        match dst_path {
            Some(to) => mapped(src_root@, dst_root@, src_path@) == Some(to@),
            None => mapped(src_root@, dst_root@, src_path@) is None,
        },
{
    match src_path.strip_prefix(src_root) {
        Some(rest) => Some(dst_root.join(&rest)),
        None => None,
    }
}

/// What kind of entry a walk of the source tree has met. Symbolic links are
/// not followed: a link is `Other`, whatever it points to.
#[derive(Clone, Copy, Debug, PartialEq, Eq)]
pub enum EntryKind {
    Directory,
    File,
    Other,
}

/// What full synchronization does for one entry of the source tree.
#[derive(Debug, PartialEq, Eq)]
pub enum EntryAction {
    /// Nothing.
    Skip,
    /// Make sure that this destination directory exists, with all the
    /// directories above it.
    EnsureDir(SyncPath),
    /// Bring this destination file up to date with the entry.
    SyncFile(SyncPath),
}

/// An `EntryAction` over path models.
pub enum EntryActionView {
    Skip,
    EnsureDir(Seq<PartView>),
    SyncFile(Seq<PartView>),
}

impl View for EntryAction {
    type V = EntryActionView;

    open spec fn view(&self) -> EntryActionView {
        match self {
            EntryAction::Skip => EntryActionView::Skip,
            EntryAction::EnsureDir(to) => EntryActionView::EnsureDir(to@),
            EntryAction::SyncFile(to) => EntryActionView::SyncFile(to@),
        }
    }
}

/// What is done for the entry `path` of kind `kind`: nothing for the source
/// root itself, for an ignored path, for a path outside the source root and
/// for what is neither a directory nor a file; the mapped path otherwise.
pub open spec fn planned(
    src_root: Seq<PartView>,
    dst_root: Seq<PartView>,
    rules: Set<Seq<char>>,
    path: Seq<PartView>,
    kind: EntryKind,
) -> EntryActionView {
    if path == src_root || has_ignored_component(rules, path) {
        EntryActionView::Skip
    } else {
        match (mapped(src_root, dst_root, path), kind) {
            (Some(to), EntryKind::Directory) => EntryActionView::EnsureDir(to),
            (Some(to), EntryKind::File) => EntryActionView::SyncFile(to),
            _ => EntryActionView::Skip,
        }
    }
}

/// What was found at the destination of a source file.
#[derive(Clone, Copy, Debug, PartialEq, Eq)]
pub enum FileProbe {
    /// Nothing is there.
    Missing,
    /// Something is there. `source` is the digest of the source file and
    /// `dest` that of the destination file.
    Found { source: Digest, dest: Digest },
}

impl View for FileProbe {
    type V = Option<(Seq<u8>, Seq<u8>)>;

    /// Nothing where the destination is missing; the digests of source and
    /// destination, in this order, where it was found.
    open spec fn view(&self) -> Option<(Seq<u8>, Seq<u8>)> {
        match self {
            FileProbe::Missing => None,
            FileProbe::Found { source, dest } => Some((source@, dest@)),
        }
    }
}

/// Whether a source file is copied: always, unless the destination is there
/// and has the same digest. Sizes and times play no part.
pub open spec fn copy_needed(probe: Option<(Seq<u8>, Seq<u8>)>) -> bool {
    match probe {
        None => true,
        Some((source, dest)) => source != dest,
    }
}

/// Whether the source file behind `probe` is to be copied.
pub fn needs_copy(probe: &FileProbe) -> (copy: bool)
    ensures
        copy == copy_needed(probe@),
{
    match probe {
        FileProbe::Missing => true,
        FileProbe::Found { source, dest } => !source.matches(dest),
    }
}

/// The running counts of one full synchronization. Each count wraps round at
/// the largest `usize`.
#[derive(Clone, Copy, Debug, PartialEq, Eq)]
pub struct SyncSummary {
    /// Files copied.
    pub copied: usize,
    /// Files left alone because the destination had the same digest.
    pub skipped: usize,
}

/// The count after `n`.
pub open spec fn count_after(n: usize) -> usize {
    if n == usize::MAX {
        0
    } else {
        (n + 1) as usize
    }
}

/// The counts after one more file, found as `probe` says: one more copied
/// where a copy is needed, one more skipped where it is not.
pub open spec fn summary_after(summary: SyncSummary, probe: Option<(Seq<u8>, Seq<u8>)>) -> SyncSummary {
    if copy_needed(probe) {
        SyncSummary { copied: count_after(summary.copied), skipped: summary.skipped }
    } else {
        SyncSummary { copied: summary.copied, skipped: count_after(summary.skipped) }
    }
}

impl SyncSummary {
    /// The counts before the walk: nothing copied, nothing skipped.
    pub fn new() -> (summary: SyncSummary)
        ensures
            summary.copied == 0,
            summary.skipped == 0,
    {
        SyncSummary { copied: 0, skipped: 0 }
    }

    /// Counts one file as copied.
    pub fn record_copied(&mut self)
        ensures
            final(self).copied == count_after(old(self).copied),
            final(self).skipped == old(self).skipped,
    {
        self.copied = self.copied.wrapping_add(1);
    }

    /// Counts one file as skipped.
    pub fn record_skipped(&mut self)
        ensures
            final(self).copied == old(self).copied,
            final(self).skipped == count_after(old(self).skipped),
    {
        self.skipped = self.skipped.wrapping_add(1);
    }

    /// Settles one file, found at the destination as `probe` says: decides
    /// whether it is to be copied, and counts it as copied or as skipped.
    pub fn record(&mut self, probe: &FileProbe) -> (copy: bool)
        ensures
            copy == copy_needed(probe@),
            *final(self) == summary_after(*old(self), probe@),
    {
        let copy = needs_copy(probe);
        if copy {
            self.record_copied();
        } else {
            self.record_skipped();
        }
        copy
    }
}

/// Full synchronization of one source tree into one destination tree.
pub struct SyncEngine<'a> {
    pub src: &'a SyncPath,
    pub dst: &'a SyncPath,
    pub ignore: &'a IgnoreMatcher,
}

impl<'a> SyncEngine<'a> {
    /// The engine that mirrors the tree under `src` into `dst`, leaving out
    /// what `ignore` excludes.
    pub fn new(src: &'a SyncPath, dst: &'a SyncPath, ignore: &'a IgnoreMatcher) -> (engine: Self)
        ensures
            engine.src == src,
            engine.dst == dst,
            engine.ignore == ignore,
    {
        Self { src, dst, ignore }
    }

    /// What to do for the entry `path` of kind `kind` that the walk of the
    /// source tree has met.
    pub fn plan_entry(&self, path: &SyncPath, kind: EntryKind) -> (action: EntryAction)
        ensures
            action@ == planned(self.src@, self.dst@, self.ignore@, path@, kind),
    {
        if path.same_as(self.src) || self.ignore.is_ignored(path) {
            return EntryAction::Skip;
        }
        match map_src_to_dst(self.src, self.dst, path) {
            None => EntryAction::Skip,
            Some(to) => match kind {
                EntryKind::Directory => EntryAction::EnsureDir(to),
                EntryKind::File => EntryAction::SyncFile(to),
                EntryKind::Other => EntryAction::Skip,
            },
        }
    }
}

/// Path mapping. What lies under the source root lands under the
/// destination root with the same relative segments, and what does not lie
/// under the source root lands nowhere.
pub proof fn lemma_mapping_replaces_root(
    src_root: Seq<PartView>,
    dst_root: Seq<PartView>,
    rest: Seq<PartView>,
    other: Seq<PartView>,
)
    ensures
        mapped(src_root, dst_root, src_root + rest) == Some(joined(dst_root, rest)),
        is_plain(rest) ==> mapped(src_root, dst_root, src_root + rest) == Some(dst_root + rest),
        !src_root.is_prefix_of(other) ==> mapped(src_root, dst_root, other) is None,
        mapped(src_root, dst_root, other) is Some ==> src_root + other.skip(
            src_root.len() as int,
        ) == other,
{
    let path = src_root + rest;
    assert(path.subrange(0, src_root.len() as int) =~= src_root);
    assert(path.skip(src_root.len() as int) =~= rest);
    if src_root.is_prefix_of(other) {
        assert(src_root + other.skip(src_root.len() as int) =~= other);
    }
}

/// Whether `path`, where it lies at or below `src_root`, is `src_root`
/// followed by a plain path, as every entry of a walk from `src_root` is.
pub open spec fn lies_plainly(src_root: Seq<PartView>, path: Seq<PartView>) -> bool {
    src_root.is_prefix_of(path) ==> is_plain(path.skip(src_root.len() as int))
}

/// Two source paths that land on one destination path are one path.
pub proof fn lemma_mapping_is_injective(
    src_root: Seq<PartView>,
    dst_root: Seq<PartView>,
    p: Seq<PartView>,
    q: Seq<PartView>,
)
    requires
        lies_plainly(src_root, p),
        lies_plainly(src_root, q),
        mapped(src_root, dst_root, p) is Some,
        mapped(src_root, dst_root, p) == mapped(src_root, dst_root, q),
    ensures
        p == q,
{
    let n = src_root.len() as int;
    let d = dst_root.len() as int;
    let to = dst_root + p.skip(n);
    assert(to == dst_root + q.skip(n));
    assert(p.len() == q.len()) by {
        assert(to.len() == d + p.len() - n);
        assert(to.len() == d + q.len() - n);
    }
    assert forall|i: int| 0 <= i < p.len() implies p[i] == q[i] by {
        if i < n {
            assert(p.subrange(0, n)[i] == src_root[i]);
            assert(q.subrange(0, n)[i] == src_root[i]);
        } else {
            assert(p.skip(n)[i - n] == (dst_root + p.skip(n))[d + i - n]);
            assert(q.skip(n)[i - n] == (dst_root + q.skip(n))[d + i - n]);
        }
    }
    assert(p =~= q);
}

/// One entry of the source tree, as a walk of the tree meets it.
pub struct SourceEntry {
    pub path: Seq<PartView>,
    pub kind: EntryKind,
    /// For a file, the digest of its bytes.
    pub digest: Seq<u8>,
}

/// The destination tree, as far as full synchronization looks at it.
pub struct DestTree {
    /// The directories that are there.
    pub dirs: Set<Seq<PartView>>,
    /// The files that are there, each with the digest of its bytes.
    pub files: Map<Seq<PartView>, Seq<u8>>,
}

/// A full synchronization under way: the destination tree and the counts.
pub struct SyncRun {
    pub tree: DestTree,
    pub summary: SyncSummary,
}

/// What the destination of a file holds, as a probe finds it.
pub open spec fn probe_of(tree: DestTree, to: Seq<PartView>, source: Seq<u8>) -> Option<
    (Seq<u8>, Seq<u8>),
> {
    if tree.files.contains_key(to) {
        Some((source, tree.files[to]))
    } else {
        None
    }
}

/// The run after `entry`, where each planned action is carried out and
/// succeeds: an ensured directory is there afterwards, and a copied file has
/// the bytes, and so the digest, of its source. A file is settled as
/// `SyncSummary::record` settles it.
pub open spec fn sync_entry(
    src_root: Seq<PartView>,
    dst_root: Seq<PartView>,
    rules: Set<Seq<char>>,
    run: SyncRun,
    entry: SourceEntry,
) -> SyncRun {
    match planned(src_root, dst_root, rules, entry.path, entry.kind) {
        EntryActionView::Skip => run,
        EntryActionView::EnsureDir(to) => SyncRun {
            tree: DestTree { dirs: run.tree.dirs.insert(to), files: run.tree.files },
            summary: run.summary,
        },
        EntryActionView::SyncFile(to) => SyncRun {
            tree: if copy_needed(probe_of(run.tree, to, entry.digest)) {
                DestTree { dirs: run.tree.dirs, files: run.tree.files.insert(to, entry.digest) }
            } else {
                run.tree
            },
            summary: summary_after(run.summary, probe_of(run.tree, to, entry.digest)),
        },
    }
}

/// The run after the entries of `entries`, taken in order.
pub open spec fn sync_entries(
    src_root: Seq<PartView>,
    dst_root: Seq<PartView>,
    rules: Set<Seq<char>>,
    run: SyncRun,
    entries: Seq<SourceEntry>,
) -> SyncRun
    decreases entries.len(),
{
    if entries.len() == 0 {
        run
    } else {
        sync_entry(
            src_root,
            dst_root,
            rules,
            sync_entries(src_root, dst_root, rules, run, entries.drop_last()),
            entries.last(),
        )
    }
}

/// A run from the tree `tree`, with nothing counted yet.
pub open spec fn fresh_run(tree: DestTree) -> SyncRun {
    SyncRun { tree, summary: SyncSummary { copied: 0, skipped: 0 } }
}

/// Whether `entries` can be the entries of one walk from `src_root`: each
/// path is met once, and what lies at or below the root lies plainly there.
pub open spec fn is_walk(src_root: Seq<PartView>, entries: Seq<SourceEntry>) -> bool {
    &&& forall|i: int, j: int|
        0 <= i < j < entries.len() ==> (#[trigger] entries[i]).path != (#[trigger] entries[j]).path
    &&& forall|i: int| 0 <= i < entries.len() ==> lies_plainly(src_root, (#[trigger] entries[i]).path)
}

/// The number of entries of `entries` that are files to be brought up to
/// date.
pub open spec fn files_planned(
    src_root: Seq<PartView>,
    dst_root: Seq<PartView>,
    rules: Set<Seq<char>>,
    entries: Seq<SourceEntry>,
) -> nat
    decreases entries.len(),
{
    if entries.len() == 0 {
        0
    } else {
        files_planned(src_root, dst_root, rules, entries.drop_last()) + if planned(
            src_root,
            dst_root,
            rules,
            entries.last().path,
            entries.last().kind,
        ) is SyncFile {
            1nat
        } else {
            0nat
        }
    }
}

/// Whether `tree` holds what `entry` asks for: the directory, or the file
/// with the digest of the source file.
pub open spec fn mirrors(
    src_root: Seq<PartView>,
    dst_root: Seq<PartView>,
    rules: Set<Seq<char>>,
    tree: DestTree,
    entry: SourceEntry,
) -> bool {
    match planned(src_root, dst_root, rules, entry.path, entry.kind) {
        EntryActionView::Skip => true,
        EntryActionView::EnsureDir(to) => tree.dirs.contains(to),
        EntryActionView::SyncFile(to) => tree.files.contains_key(to) && tree.files[to]
            == entry.digest,
    }
}

/// One more entry leaves what was mirrored before mirrored, as long as the
/// entry has a path of its own.
proof fn lemma_entry_keeps_mirrored(
    src_root: Seq<PartView>,
    dst_root: Seq<PartView>,
    rules: Set<Seq<char>>,
    run: SyncRun,
    entry: SourceEntry,
    earlier: SourceEntry,
)
    requires
        mirrors(src_root, dst_root, rules, run.tree, earlier),
        earlier.path != entry.path,
        lies_plainly(src_root, earlier.path),
        lies_plainly(src_root, entry.path),
    ensures
        mirrors(src_root, dst_root, rules, sync_entry(src_root, dst_root, rules, run, entry).tree, earlier),
{
    let here = planned(src_root, dst_root, rules, entry.path, entry.kind);
    let there = planned(src_root, dst_root, rules, earlier.path, earlier.kind);
    if here is SyncFile && there is SyncFile && here->SyncFile_0 == there->SyncFile_0 {
        lemma_mapping_is_injective(src_root, dst_root, earlier.path, entry.path);
    }
}

/// The entries of a walk but the last are the entries of a walk.
proof fn lemma_front_is_walk(src_root: Seq<PartView>, entries: Seq<SourceEntry>)
    requires
        is_walk(src_root, entries),
        entries.len() > 0,
    ensures
        is_walk(src_root, entries.drop_last()),
{
    let front = entries.drop_last();
    assert forall|a: int, b: int| 0 <= a < b < front.len() implies (#[trigger] front[a]).path
        != (#[trigger] front[b]).path by {
        assert(front[a] == entries[a] && front[b] == entries[b]);
    }
    assert forall|a: int| 0 <= a < front.len() implies lies_plainly(
        src_root,
        (#[trigger] front[a]).path,
    ) by {
        assert(front[a] == entries[a]);
    }
}

/// Mirror completeness. After a full synchronization in which every action
/// succeeded, the destination holds a directory for each directory of the
/// source and, for each file of the source, a file with the same digest, as
/// far as the entries lie below the source root and are not ignored.
pub proof fn lemma_full_sync_mirrors_every_entry(
    src_root: Seq<PartView>,
    dst_root: Seq<PartView>,
    rules: Set<Seq<char>>,
    start: SyncRun,
    entries: Seq<SourceEntry>,
    i: int,
)
    requires
        is_walk(src_root, entries),
        0 <= i < entries.len(),
    ensures
        mirrors(
            src_root,
            dst_root,
            rules,
            sync_entries(src_root, dst_root, rules, start, entries).tree,
            entries[i],
        ),
        src_root.is_prefix_of(entries[i].path) && entries[i].path != src_root
            && !has_ignored_component(rules, entries[i].path) ==> {
            let to = dst_root + entries[i].path.skip(src_root.len() as int);
            let tree = sync_entries(src_root, dst_root, rules, start, entries).tree;
            &&& entries[i].kind is Directory ==> tree.dirs.contains(to)
            &&& entries[i].kind is File ==> tree.files.contains_key(to) && tree.files[to]
                == entries[i].digest
        },
    decreases entries.len(),
{
    let front = entries.drop_last();
    let before = sync_entries(src_root, dst_root, rules, start, front);
    assert(lies_plainly(src_root, entries[i].path));
    if i < entries.len() - 1 {
        lemma_front_is_walk(src_root, entries);
        lemma_full_sync_mirrors_every_entry(src_root, dst_root, rules, start, front, i);
        assert(front[i] == entries[i]);
        assert(entries[i].path != entries[entries.len() - 1].path);
        assert(lies_plainly(src_root, entries[entries.len() - 1].path));
        lemma_entry_keeps_mirrored(src_root, dst_root, rules, before, entries.last(), entries[i]);
    }
}

/// Full synchronization only adds and overwrites: whatever directory or file
/// the destination held before the walk, it holds after it.
pub proof fn lemma_full_sync_removes_nothing(
    src_root: Seq<PartView>,
    dst_root: Seq<PartView>,
    rules: Set<Seq<char>>,
    start: SyncRun,
    entries: Seq<SourceEntry>,
)
    ensures
        start.tree.dirs.subset_of(sync_entries(src_root, dst_root, rules, start, entries).tree.dirs),
        start.tree.files.dom().subset_of(
            sync_entries(src_root, dst_root, rules, start, entries).tree.files.dom(),
        ),
    decreases entries.len(),
{
    if entries.len() > 0 {
        lemma_full_sync_removes_nothing(src_root, dst_root, rules, start, entries.drop_last());
    }
}

/// A walk over a tree that already mirrors every entry copies nothing, skips
/// every file that it meets and leaves the files of the tree as they are.
proof fn lemma_mirrored_tree_is_left_alone(
    src_root: Seq<PartView>,
    dst_root: Seq<PartView>,
    rules: Set<Seq<char>>,
    run: SyncRun,
    entries: Seq<SourceEntry>,
)
    requires
        forall|i: int|
            0 <= i < entries.len() ==> mirrors(src_root, dst_root, rules, run.tree, #[trigger] entries[i]),
    ensures
        sync_entries(src_root, dst_root, rules, run, entries).summary.copied == run.summary.copied,
        sync_entries(src_root, dst_root, rules, run, entries).tree.files == run.tree.files,
        run.summary.skipped + files_planned(src_root, dst_root, rules, entries) <= usize::MAX
            ==> sync_entries(src_root, dst_root, rules, run, entries).summary.skipped
            == run.summary.skipped + files_planned(src_root, dst_root, rules, entries),
    decreases entries.len(),
{
    if entries.len() > 0 {
        let front = entries.drop_last();
        assert forall|i: int| 0 <= i < front.len() implies mirrors(
            src_root,
            dst_root,
            rules,
            run.tree,
            #[trigger] front[i],
        ) by {
            assert(front[i] == entries[i]);
        }
        lemma_mirrored_tree_is_left_alone(src_root, dst_root, rules, run, front);
        assert(mirrors(src_root, dst_root, rules, run.tree, entries[entries.len() - 1]));
    }
}

/// Idempotence. A second full synchronization, with the source unchanged
/// since the first, copies nothing: every file that the walk meets is found
/// with the digest of its source and is counted as skipped, and the files of
/// the destination stay as the first run left them.
pub proof fn lemma_second_full_sync_copies_nothing(
    src_root: Seq<PartView>,
    dst_root: Seq<PartView>,
    rules: Set<Seq<char>>,
    start: DestTree,
    entries: Seq<SourceEntry>,
)
    requires
        is_walk(src_root, entries),
    ensures
        ({
            let first = sync_entries(src_root, dst_root, rules, fresh_run(start), entries);
            let second = sync_entries(src_root, dst_root, rules, fresh_run(first.tree), entries);
            &&& second.summary.copied == 0
            &&& second.tree.files == first.tree.files
            &&& files_planned(src_root, dst_root, rules, entries) <= usize::MAX
                ==> second.summary.skipped == files_planned(src_root, dst_root, rules, entries)
        }),
{
    let first = sync_entries(src_root, dst_root, rules, fresh_run(start), entries);
    assert forall|i: int| 0 <= i < entries.len() implies mirrors(
        src_root,
        dst_root,
        rules,
        first.tree,
        #[trigger] entries[i],
    ) by {
        lemma_full_sync_mirrors_every_entry(src_root, dst_root, rules, fresh_run(start), entries, i);
    }
    lemma_mirrored_tree_is_left_alone(src_root, dst_root, rules, fresh_run(first.tree), entries);
}

} // verus!
