//! Content digests, and the naming of the temporary file used to replace a
//! destination file in one step.

use crate::path::{
    file_name_of, lemma_parts_push, named, parent_of, shown_as, PartView, PathPart, SyncPath,
};
use vstd::prelude::*;
use vstd::string::StringExecFns;

verus! {

/// `blake3::Hasher`, the incremental state of the hash function. Nothing of
/// its inside is known here.
#[verifier::external_type_specification]
#[verifier::external_body]
pub struct ExHasher(blake3::Hasher);

/// The BLAKE3 hash of `input` in the regular, unkeyed mode, as 32 bytes: what
/// `blake3::Hasher::finalize` returns once `input` has been fed to a hasher
/// made by `blake3::Hasher::new`, in one piece or in several.
pub uninterp spec fn blake3_of(input: Seq<u8>) -> Seq<u8>;

/// The bytes that have been fed to `state` since it was made, in order.
pub uninterp spec fn absorbed(state: blake3::Hasher) -> Seq<u8>;

/// Whether `state` hashes in the regular mode from the start of its input:
/// it was made by `blake3::Hasher::new`, not with a key or a context, and no
/// input offset was set on it.
pub uninterp spec fn in_regular_mode(state: blake3::Hasher) -> bool;

/// `blake3::Hasher::new`: a hasher for the regular hash function, to which no
/// input has been given yet.
#[verifier::external_body]
fn hasher_new() -> (state: blake3::Hasher)
    ensures
        in_regular_mode(state),
        absorbed(state) == Seq::<u8>::empty(),
{
    blake3::Hasher::new()
}

/// `blake3::Hasher::update`: adds `input` behind the bytes given so far and
/// leaves the mode as it is. The hasher counts its input in 64 bits, so the
/// total is kept within that; within it the call does not panic.
#[verifier::external_body]
fn hasher_update(state: &mut blake3::Hasher, input: &[u8])
    requires
        in_regular_mode(*old(state)),
        absorbed(*old(state)).len() + input@.len() <= u64::MAX,
    ensures
        in_regular_mode(*final(state)),
        absorbed(*final(state)) == absorbed(*old(state)) + input@,
    no_unwind
{
    state.update(input);
}

/// `blake3::Hasher::count`: the number of bytes given so far, as long as it
/// fits the 64 bits in which the hasher counts.
#[verifier::external_body]
fn hasher_count(state: &blake3::Hasher) -> (fed: u64)
    requires
        in_regular_mode(*state),
        absorbed(*state).len() <= u64::MAX,
    ensures
        fed == absorbed(*state).len(),
{
    state.count()
}

/// `blake3::Hasher::finalize`, then `blake3::Hash::as_bytes`: the hash of all
/// the input given so far, as its 32 raw bytes. For a hasher in the regular
/// mode that is what `blake3::hash` returns for the same input. The hasher
/// itself is left as it was.
#[verifier::external_body]
fn hasher_finalize(state: &blake3::Hasher) -> (bytes: [u8; 32])
    requires
        in_regular_mode(*state),
    ensures
        bytes@ == blake3_of(absorbed(*state)),
{
    *state.finalize().as_bytes()
}

/// The fingerprint of a file's bytes: two files are taken to hold the same
/// bytes when their digests are equal.
#[derive(Clone, Copy, Debug, PartialEq, Eq, Hash)]
pub struct Digest {
    pub bytes: [u8; 32],
}

impl View for Digest {
    type V = Seq<u8>;

    open spec fn view(&self) -> Seq<u8> {
        self.bytes@
    }
}

impl Digest {
    /// Whether the two digests are the same 32 bytes.
    pub fn matches(&self, other: &Digest) -> (same: bool)
        ensures
            same == (self@ == other@),
    {
        let mut i: usize = 0;
        while i < 32
            invariant
                i <= 32,
                self@.take(i as int) == other@.take(i as int),
            decreases 32 - i,
        {
            if self.bytes[i] != other.bytes[i] {
                assert(self@[i as int] != other@[i as int]);
                return false;
            }
            assert(self@.take(i + 1) =~= self@.take(i as int).push(self@[i as int]));
            assert(other@.take(i + 1) =~= other@.take(i as int).push(other@[i as int]));
            i += 1;
        }
        assert(self@.take(32) =~= self@);
        assert(other@.take(32) =~= other@);
        true
    }
}

/// Why a chunk was not taken into a digest.
#[derive(Clone, Copy, Debug, PartialEq, Eq)]
pub enum HashError {
    /// The input would grow beyond what the hash function can count.
    InputTooLong,
}

/// A digest in the making: it is fed a file's bytes chunk by chunk, so that a
/// caller needs no more memory than one chunk, whatever the file's size.
pub struct ContentHasher {
    state: blake3::Hasher,
}

impl View for ContentHasher {
    type V = Seq<u8>;

    /// All the bytes fed so far, in order.
    closed spec fn view(&self) -> Seq<u8> {
        absorbed(self.state)
    }
}

impl ContentHasher {
    /// The hasher hashes in the regular mode, and what it was fed is within
    /// what it can count.
    #[verifier::type_invariant]
    closed spec fn countable(&self) -> bool {
        &&& in_regular_mode(self.state)
        &&& absorbed(self.state).len() <= u64::MAX
    }

    /// A hasher that has been fed nothing.
    pub fn new() -> (hasher: ContentHasher)
        ensures
            hasher@ == Seq::<u8>::empty(),
    {
        ContentHasher { state: hasher_new() }
    }

    /// Feeds `chunk` behind what was fed before. A chunk that would take the
    /// input beyond 2^64 - 1 bytes is refused, and the hasher stays as it was.
    pub fn update(&mut self, chunk: &[u8]) -> (taken: Result<(), HashError>)
        ensures
            taken is Ok <==> old(self)@.len() + chunk@.len() <= u64::MAX,
            taken is Ok ==> final(self)@ == old(self)@ + chunk@,
            taken is Err ==> final(self)@ == old(self)@,
    {
        proof {
            use_type_invariant(&*self);
        }
        let room: u64 = u64::MAX - hasher_count(&self.state);
        if chunk.len() as u64 > room {
            return Err(HashError::InputTooLong);
        }
        hasher_update(&mut self.state, chunk);
        Ok(())
    }

    /// The digest of everything fed so far. The hasher can be fed further.
    pub fn finalize(&self) -> (digest: Digest)
        ensures
            digest@ == blake3_of(self@),
    {
        proof {
            use_type_invariant(self);
        }
        Digest { bytes: hasher_finalize(&self.state) }
    }
}

/// The bytes of `chunks`, laid end to end.
pub open spec fn joined(chunks: Seq<Vec<u8>>) -> Seq<u8>
    decreases chunks.len(),
{
    if chunks.len() == 0 {
        Seq::<u8>::empty()
    } else {
        joined(chunks.drop_last()) + chunks.last()@
    }
}

/// The digest of the bytes of `chunks`, laid end to end; an error where they
/// are more than the hash function can count.
pub fn hash_chunks(chunks: &Vec<Vec<u8>>) -> (digest: Result<Digest, HashError>)
    ensures
        digest is Ok <==> joined(chunks@).len() <= u64::MAX,
        digest is Ok ==> digest->Ok_0@ == blake3_of(joined(chunks@)),
{
    let mut hasher = ContentHasher::new();
    let mut i: usize = 0;
    while i < chunks.len()
        invariant
            i <= chunks.len(),
            hasher@ == joined(chunks@.take(i as int)),
        decreases chunks.len() - i,
    {
        assert(chunks@.take(i + 1).drop_last() =~= chunks@.take(i as int));
        let taken = hasher.update(chunks[i].as_slice());
        if taken.is_err() {
            proof {
                lemma_joined_grows(chunks@, i + 1);
            }
            return Err(HashError::InputTooLong);
        }
        i += 1;
    }
    proof {
        use_type_invariant(&hasher);
        assert(chunks@.take(i as int) =~= chunks@);
    }
    Ok(hasher.finalize())
}

/// The first `n` chunks together are no longer than all of them.
proof fn lemma_joined_grows(chunks: Seq<Vec<u8>>, n: int)
    requires
        0 <= n <= chunks.len(),
    ensures
        joined(chunks.take(n)).len() <= joined(chunks).len(),
    decreases chunks.len(),
{
    if n == chunks.len() {
        assert(chunks.take(n) =~= chunks);
    } else {
        assert(chunks.drop_last().take(n) =~= chunks.take(n));
        lemma_joined_grows(chunks.drop_last(), n);
    }
}

/// Where the bytes of a file are gathered before they replace `dst`: beside
/// `dst`, under the name of `dst` followed by `.syncd.tmp`. Where `dst` does
/// not end in the name of a file, the temporary file is named
/// `file.syncd.tmp` and lies below `dst`.
pub open spec fn tmp_path_of(dst: Seq<PartView>) -> Seq<PartView> {
    match file_name_of(dst) {
        Some(name) => dst.drop_last().push(named(shown_as(name) + ".syncd.tmp"@)),
        None => dst.push(named("file"@ + ".syncd.tmp"@)),
    }
}

/// The path of the temporary file for `dst`. It depends on `dst` alone, so two
/// writers of one destination share it.
pub fn tmp_path_for(dst: &SyncPath) -> (tmp: SyncPath)
    ensures
        tmp@ == tmp_path_of(dst@),
{
    let (mut tmp, mut name) = match (dst.file_name(), dst.parent()) {
        (Some(part), Some(dir)) => (dir, part.shown().clone()),
        _ => (dst.clone(), "file".to_owned()),
    };
    name.append(".syncd.tmp");
    let part = PathPart::named(name);
    proof {
        lemma_parts_push(tmp.parts@, part);
    }
    tmp.parts.push(part);
    tmp
}

/// One file-system operation of an atomic copy.
#[derive(Debug, PartialEq, Eq)]
pub enum CopyStep {
    /// Make sure that this directory exists, with all the directories above it.
    CreateDirs(SyncPath),
    /// Write all the bytes of the file `from` into the file `to`, created or
    /// emptied first, and flush it.
    WriteTemp { from: SyncPath, to: SyncPath },
    /// Remove the file at this path if there is one.
    RemoveExisting(SyncPath),
    /// Rename the file `from` to `to`.
    Rename { from: SyncPath, to: SyncPath },
}

/// A `CopyStep` over path models.
pub enum CopyStepView {
    CreateDirs(Seq<PartView>),
    WriteTemp { from: Seq<PartView>, to: Seq<PartView> },
    RemoveExisting(Seq<PartView>),
    Rename { from: Seq<PartView>, to: Seq<PartView> },
}

impl View for CopyStep {
    type V = CopyStepView;

    open spec fn view(&self) -> CopyStepView {
        match self {
            CopyStep::CreateDirs(dir) => CopyStepView::CreateDirs(dir@),
            CopyStep::WriteTemp { from, to } => CopyStepView::WriteTemp { from: from@, to: to@ },
            CopyStep::RemoveExisting(file) => CopyStepView::RemoveExisting(file@),
            CopyStep::Rename { from, to } => CopyStepView::Rename { from: from@, to: to@ },
        }
    }
}

/// Why a file cannot be copied to a destination.
#[derive(Clone, Copy, Debug, PartialEq, Eq)]
pub enum CopyError {
    /// No directory holds the destination: its path is empty, or is a root or
    /// a prefix alone.
    NoParent,
}

/// The operations that copy the file `src` to `dst`, which lies in the
/// directory `dir`, so that `dst` never holds part of a file: the bytes go to
/// a temporary file, which takes the place of `dst` by a rename, the last
/// step.
pub open spec fn copy_steps_of(
    src: Seq<PartView>,
    dst: Seq<PartView>,
    dir: Seq<PartView>,
) -> Seq<CopyStepView> {
    seq![
        CopyStepView::CreateDirs(dir),
        CopyStepView::WriteTemp { from: src, to: tmp_path_of(dst) },
        CopyStepView::RemoveExisting(dst),
        CopyStepView::Rename { from: tmp_path_of(dst), to: dst },
    ]
}

/// The steps of `steps`, each over path models.
pub open spec fn step_views(steps: Seq<CopyStep>) -> Seq<CopyStepView> {
    Seq::new(steps.len(), |i: int| steps[i]@)
}

/// Plans the copy of the file `src` to `dst`. The steps are to be performed in
/// order, and the first that fails ends the copy. A destination that no
/// directory holds is refused, and nothing is to be done for it.
pub fn atomic_copy_steps(src: &SyncPath, dst: &SyncPath) -> (plan: Result<Vec<CopyStep>, CopyError>)
    ensures
        match plan {
            Ok(steps) => parent_of(dst@) is Some && step_views(steps@) == copy_steps_of(
                src@,
                dst@,
                parent_of(dst@)->0,
            ),
            Err(why) => parent_of(dst@) is None && why == CopyError::NoParent,
        },
{
    match dst.parent() {
        None => Err(CopyError::NoParent),
        Some(dir) => {
            let mut steps: Vec<CopyStep> = Vec::new();
            steps.push(CopyStep::CreateDirs(dir));
            steps.push(CopyStep::WriteTemp { from: src.clone(), to: tmp_path_for(dst) });
            steps.push(CopyStep::RemoveExisting(dst.clone()));
            steps.push(CopyStep::Rename { from: tmp_path_for(dst), to: dst.clone() });
            assert(step_views(steps@) =~= copy_steps_of(src@, dst@, parent_of(dst@)->0));
            Ok(steps)
        },
    }
}

/// The temporary file of a destination is never the destination itself, and
/// where the destination ends in the name of a file, it lies in the
/// destination's own directory.
pub proof fn lemma_tmp_path_beside_dst(dst: Seq<PartView>)
    ensures
        tmp_path_of(dst) != dst,
        file_name_of(dst) is Some ==> parent_of(dst) is Some && parent_of(tmp_path_of(dst))
            == parent_of(dst),
{
    reveal_strlit(".syncd.tmp");
    let tmp = tmp_path_of(dst);
    if file_name_of(dst) is Some {
        assert(tmp.drop_last() =~= dst.drop_last());
        assert(shown_as(tmp.last()).len() == shown_as(dst.last()).len() + 10);
        assert(tmp.last() != dst.last());
    } else {
        assert(tmp.len() == dst.len() + 1);
    }
}

/// The files after `step` has been carried out in full, where the files are
/// taken as a map from each file's path to its bytes. A step that cannot be
/// carried out, for want of its source, leaves the files as they are.
pub open spec fn files_after_step(
    files: Map<Seq<PartView>, Seq<u8>>,
    step: CopyStepView,
) -> Map<Seq<PartView>, Seq<u8>> {
    match step {
        CopyStepView::CreateDirs(_) => files,
        CopyStepView::WriteTemp { from, to } => if files.contains_key(from) {
            files.insert(to, files[from])
        } else {
            files
        },
        CopyStepView::RemoveExisting(file) => files.remove(file),
        CopyStepView::Rename { from, to } => if files.contains_key(from) {
            files.remove(from).insert(to, files[from])
        } else {
            files
        },
    }
}

/// The files after the steps of `steps`, carried out in order and in full.
pub open spec fn files_after(
    files: Map<Seq<PartView>, Seq<u8>>,
    steps: Seq<CopyStepView>,
) -> Map<Seq<PartView>, Seq<u8>>
    decreases steps.len(),
{
    if steps.len() == 0 {
        files
    } else {
        files_after_step(files_after(files, steps.drop_last()), steps.last())
    }
}

/// Whether `now` shows at `dst` what `before` showed there.
pub open spec fn same_at(
    before: Map<Seq<PartView>, Seq<u8>>,
    now: Map<Seq<PartView>, Seq<u8>>,
    dst: Seq<PartView>,
) -> bool {
    before.contains_key(dst) == now.contains_key(dst) && (before.contains_key(dst) ==> before[dst]
        == now[dst])
}

/// A copy carried out in full leaves at the destination the bytes of the
/// source.
pub proof fn lemma_copy_brings_source_bytes(
    files: Map<Seq<PartView>, Seq<u8>>,
    src: Seq<PartView>,
    dst: Seq<PartView>,
    dir: Seq<PartView>,
)
    requires
        files.contains_key(src),
    ensures
        files_after(files, copy_steps_of(src, dst, dir)).contains_key(dst),
        files_after(files, copy_steps_of(src, dst, dir))[dst] == files[src],
{
    let steps = copy_steps_of(src, dst, dir);
    lemma_tmp_path_beside_dst(dst);
    lemma_files_after_unfold(files, steps, 1);
    lemma_files_after_unfold(files, steps, 2);
    lemma_files_after_unfold(files, steps, 3);
    lemma_files_after_unfold(files, steps, 4);
    assert(steps.take(0) =~= Seq::<CopyStepView>::empty());
    assert(steps.take(4) =~= steps);
}

/// Atomicity. A copy that is broken off before the existing destination is
/// removed, whether before, during or after the writing of the temporary
/// file, leaves the destination as it was: the bytes written so far are in
/// the temporary file, which is another file. At every later point the
/// destination is absent or holds all the bytes of the source, so it never
/// holds part of a file. `partial` stands for what a write that was broken
/// off has left in the temporary file.
pub proof fn lemma_copy_never_shows_part_of_a_file(
    files: Map<Seq<PartView>, Seq<u8>>,
    src: Seq<PartView>,
    dst: Seq<PartView>,
    dir: Seq<PartView>,
    partial: Seq<u8>,
    done: int,
)
    requires
        files.contains_key(src),
        0 <= done <= 4,
    ensures
        done <= 2 ==> same_at(
            files,
            files_after(files, copy_steps_of(src, dst, dir).take(done)),
            dst,
        ),
        done == 1 ==> same_at(
            files,
            files_after(files, copy_steps_of(src, dst, dir).take(done)).insert(
                tmp_path_of(dst),
                partial,
            ),
            dst,
        ),
        done == 3 ==> !files_after(files, copy_steps_of(src, dst, dir).take(done)).contains_key(
            dst,
        ),
        done == 4 ==> files_after(files, copy_steps_of(src, dst, dir).take(done)).contains_key(dst)
            && files_after(files, copy_steps_of(src, dst, dir).take(done))[dst] == files[src],
{
    let steps = copy_steps_of(src, dst, dir);
    lemma_tmp_path_beside_dst(dst);
    assert(steps.take(0) =~= Seq::<CopyStepView>::empty());
    lemma_files_after_unfold(files, steps, 1);
    lemma_files_after_unfold(files, steps, 2);
    lemma_files_after_unfold(files, steps, 3);
    lemma_files_after_unfold(files, steps, 4);
}

/// The files after the first `n` steps are the files after the first `n - 1`
/// steps and then the step that follows them.
proof fn lemma_files_after_unfold(
    files: Map<Seq<PartView>, Seq<u8>>,
    steps: Seq<CopyStepView>,
    n: int,
)
    requires
        0 < n <= steps.len(),
    ensures
        files_after(files, steps.take(n)) == files_after_step(
            files_after(files, steps.take(n - 1)),
            steps[n - 1],
        ),
{
    assert(steps.take(n).drop_last() =~= steps.take(n - 1));
    assert(steps.take(n).last() == steps[n - 1]);
}

} // verus!
