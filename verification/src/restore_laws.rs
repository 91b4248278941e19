//! What holds of a restore, stated on directory entries, names and paths.

use vstd::prelude::*;

use crate::chunk::{ChunkName, ChunkNameView};
use crate::files::OpView;
use crate::metadata::PakMetadata;
use crate::path::{FilePath, PathView};
use crate::restore::{
    ActionView, PatchFile, PatchFileView, PatchRemoval, PatchRemovalView, Removal, ToolEntry,
    ToolFile, ToolFileView, TraceKind,
};

verus! {

/// Whether a file name begins and ends as those of the game's archives do.
pub open spec fn looks_like_an_archive(name: Seq<char>) -> bool {
    ".pak"@.is_suffix_of(name) && ("re_chunk_"@.is_prefix_of(name) || "re_dlc_"@.is_prefix_of(
        name,
    ))
}

/// An archive is searched for the mark of this tool exactly if its name begins and
/// ends as those of the game's archives do; a backup is known by `.pak.backup` at
/// the end of its name.
pub proof fn traces_are_known_by_their_names(name: Seq<char>)
    ensures
        crate::restore::is_archive_name(name) <==> looks_like_an_archive(name),
        crate::restore::is_backup_name(name) <==> ".pak.backup"@.is_suffix_of(name),
        !(crate::restore::is_archive_name(name) && crate::restore::is_backup_name(name)),
{
    reveal_strlit(".pak");
    reveal_strlit(".pak.backup");
    let n = name.len() as int;
    if ".pak"@.is_suffix_of(name) && ".pak.backup"@.is_suffix_of(name) {
        assert(name[n - 1] == name.subrange(n - 4, n)[3]);
        assert(name[n - 1] == name.subrange(n - 11, n)[10]);
    }
}

/// A scan for traces of earlier runs goes through the entries one by one. It finds
/// every file of this tool with what its mark says, every backup, and the name of
/// every archive.
pub proof fn a_scan_finds_traces_one_by_one(entries: Seq<ToolEntry>, next: ToolEntry)
    ensures
        crate::restore::tool_files_in(Seq::<ToolEntry>::empty()).len() == 0,
        crate::restore::backups_in(Seq::<ToolEntry>::empty()).len() == 0,
        crate::restore::chunks_in(Seq::<ToolEntry>::empty()).len() == 0,
        crate::restore::tool_files_in(entries.push(next)) == if next.is_file
            && looks_like_an_archive(next.path.name@) && next.mark is Ok
            && next.mark->Ok_0 is Some {
            crate::restore::tool_files_in(entries).push(
                ToolFileView {
                    path: PathView { dir: next.path.dir@, name: next.path.name@ },
                    full_package: next.mark->Ok_0->0.full_package,
                },
            )
        } else {
            crate::restore::tool_files_in(entries)
        },
        crate::restore::backups_in(entries.push(next)) == if next.is_file
            && ".pak.backup"@.is_suffix_of(next.path.name@) {
            crate::restore::backups_in(entries).push(
                PathView { dir: next.path.dir@, name: next.path.name@ },
            )
        } else {
            crate::restore::backups_in(entries)
        },
        crate::restore::chunks_in(entries.push(next)) == if next.is_file && looks_like_an_archive(
            next.path.name@,
        ) && crate::chunk::parsed(next.path.name@) is Some {
            crate::restore::chunks_in(entries).push(crate::chunk::parsed(next.path.name@)->0)
        } else {
            crate::restore::chunks_in(entries)
        },
{
    let more = entries.push(next);
    let n = entries.len() as int;
    crate::restore::lemma_nothing_scanned(Seq::<ToolEntry>::empty());
    assert(Seq::<ToolEntry>::empty().take(0) =~= Seq::<ToolEntry>::empty());
    crate::restore::lemma_scan_step(more, n);
    assert(more.take(n) =~= entries);
    assert(more.take(n + 1) =~= more);
    assert(more[n] == next);
    traces_are_known_by_their_names(next.path.name@);
}

/// The patches to remove are the files of this tool that took no original's place
/// and whose names can be read, in the order in which they were found.
pub proof fn patches_are_taken_one_by_one(files: Seq<ToolFileView>, next: ToolFileView)
    ensures
        crate::restore::patches_among(Seq::<ToolFileView>::empty()).len() == 0,
        crate::restore::patches_among(files.push(next)) == if !next.full_package
            && crate::chunk::parsed(next.path.name) is Some {
            crate::restore::patches_among(files).push(
                PatchFileView {
                    path: next.path,
                    name: crate::chunk::parsed(next.path.name)->0,
                },
            )
        } else {
            crate::restore::patches_among(files)
        },
{
    reveal_with_fuel(Seq::filter, 2);
    assert(files.push(next).drop_last() =~= files);
    assert(crate::restore::patches_among(files.push(next)) =~= if crate::restore::is_patch(next) {
        crate::restore::patches_among(files).push(crate::restore::patch_of(next))
    } else {
        crate::restore::patches_among(files)
    });
}

/// Whether `c` is a patch that follows `name`: a patch of the same sub chunk of the
/// same series with a higher number, or, where there is no sub chunk, a patch of the
/// base with a higher number than `name` has, if it has one.
pub open spec fn follows(c: ChunkNameView, name: ChunkNameView) -> bool {
    &&& c.major == name.major
    &&& c.sub == name.sub
    &&& if name.sub is Some {
        c.sub_patch is Some && name.sub_patch is Some && c.sub_patch->0 > name.sub_patch->0
    } else {
        c.patch is Some && (name.patch is None || c.patch->0 > name.patch->0)
    }
}

/// Whether nothing can be said of the patches behind `name`: it is a sub chunk
/// without a patch number, and one of its patches is there.
pub open spec fn is_undecided(chunks: Seq<ChunkNameView>, name: ChunkNameView) -> bool {
    name.sub is Some && name.sub_patch is None && exists|i: int|
        0 <= i < chunks.len() && (#[trigger] chunks[i]).major == name.major && chunks[i].sub
            == name.sub && chunks[i].sub_patch is Some
}

/// A patch has a higher one exactly if one of the archives follows it, be it that of
/// a chunk or of downloadable content.
pub proof fn higher_patches_follow(chunks: Seq<ChunkNameView>, name: ChunkNameView)
    ensures
        crate::restore::comparable(chunks, name) <==> !is_undecided(chunks, name),
        !is_undecided(chunks, name) ==> (crate::restore::has_higher(chunks, name) <==> exists|
            i: int,
        |
            0 <= i < chunks.len() && follows(#[trigger] chunks[i], name)),
        forall|i: int|
            0 <= i < chunks.len() && (#[trigger] chunks[i]).major == name.major && chunks[i].sub
                == name.sub && name.sub is Some && chunks[i].sub_patch is Some
                && name.sub_patch is Some && chunks[i].sub_patch->0 > name.sub_patch->0
                ==> crate::restore::has_higher(chunks, name),
{
    if is_undecided(chunks, name) {
        let i = choose|i: int|
            0 <= i < chunks.len() && (#[trigger] chunks[i]).major == name.major && chunks[i].sub
                == name.sub && chunks[i].sub_patch is Some;
        assert(crate::restore::counts_for(chunks[i], name));
    } else {
        assert(crate::restore::comparable(chunks, name)) by {
            if !crate::restore::is_placed(name) {
                assert forall|i: int| 0 <= i < chunks.len() implies !crate::restore::counts_for(
                    #[trigger] chunks[i],
                    name,
                ) by {
                    if crate::restore::counts_for(chunks[i], name) {
                        assert(chunks[i].major == name.major);
                    }
                }
            }
        }
        assert forall|i: int| 0 <= i < chunks.len() implies (crate::restore::is_above(
            #[trigger] chunks[i],
            name,
        ) <==> follows(chunks[i], name)) by {
            if crate::restore::counts_for(chunks[i], name) {
                assert(chunks[i].major == name.major);
            }
        }
        if crate::restore::has_higher(chunks, name) {
            let i = choose|i: int|
                0 <= i < chunks.len() && crate::restore::is_above(#[trigger] chunks[i], name);
            assert(follows(chunks[i], name));
        }
        if exists|i: int| 0 <= i < chunks.len() && follows(#[trigger] chunks[i], name) {
            let i = choose|i: int| 0 <= i < chunks.len() && follows(#[trigger] chunks[i], name);
            assert(crate::restore::is_above(chunks[i], name));
        }
    }
    assert forall|i: int|
        0 <= i < chunks.len() && (#[trigger] chunks[i]).major == name.major && chunks[i].sub
            == name.sub && name.sub is Some && chunks[i].sub_patch is Some
            && name.sub_patch is Some && chunks[i].sub_patch->0
            > name.sub_patch->0 implies crate::restore::has_higher(chunks, name) by {
        assert(crate::restore::is_above(chunks[i], name));
    }
}

proof fn lemma_without(
    chunks: Seq<ChunkNameView>,
    name: ChunkNameView,
    keep: spec_fn(ChunkNameView) -> bool,
)
    requires
        forall|c: ChunkNameView| #[trigger] keep(c) == (c != name),
    ensures
        crate::restore::without(chunks, name) == chunks.filter(keep),
    decreases chunks.len(),
{
    reveal_with_fuel(Seq::filter, 2);
    if chunks.len() > 0 {
        lemma_without(chunks.drop_last(), name, keep);
        assert(keep(chunks.last()) == (chunks.last() != name));
    } else {
        assert(crate::restore::without(chunks, name) =~= chunks.filter(keep));
    }
}

/// Patches are removed one by one. One that is followed by another is emptied and
/// stays; any other is deleted and is no longer there for the next. The removal
/// ends at a sub chunk without a patch number that has patches.
pub proof fn patches_are_removed_one_by_one(
    order: Seq<ChunkNameView>,
    chunks: Seq<ChunkNameView>,
    next: ChunkNameView,
)
    ensures
        crate::restore::removal(Seq::<ChunkNameView>::empty(), chunks) == (Removal {
            left: chunks,
            deleted: Seq::<bool>::empty(),
        }),
        ({
            let before = crate::restore::removal(order, chunks);
            let after = crate::restore::removal(order.push(next), chunks);
            if before.deleted.len() < order.len() || is_undecided(before.left, next) {
                after == before
            } else if exists|i: int|
                0 <= i < before.left.len() && follows(#[trigger] before.left[i], next) {
                after.left == before.left && after.deleted == before.deleted.push(false)
            } else {
                &&& after.deleted == before.deleted.push(true)
                &&& after.left == before.left.filter(|c: ChunkNameView| c != next)
            }
        }),
{
    let before = crate::restore::removal(order, chunks);
    let after = crate::restore::removal(order.push(next), chunks);
    assert(order.push(next).drop_last() =~= order);
    assert(order.push(next).last() == next);
    crate::restore::lemma_removal_count(order, chunks);
    higher_patches_follow(before.left, next);
    lemma_without(before.left, next, |c: ChunkNameView| c != next);
    if before.deleted.len() < order.len() || is_undecided(before.left, next) {
        assert(after == before);
    } else if crate::restore::has_higher(before.left, next) {
        assert(after.left == before.left);
    } else {
        assert(after.left == crate::restore::without(before.left, next));
    }
}

/// A removal leaves no gap: while a patch of a sub chunk, or of a base, is left, so is
/// every patch of it with a lower number that was there.
pub proof fn removals_leave_no_gap(
    order: Seq<ChunkNameView>,
    chunks: Seq<ChunkNameView>,
    lower: ChunkNameView,
    higher: ChunkNameView,
)
    requires
        chunks.contains(lower),
        crate::restore::removal(order, chunks).left.contains(higher),
        lower.major == higher.major,
        lower.sub == higher.sub,
    ensures
        lower.sub is Some && lower.sub_patch is Some && higher.sub_patch is Some
            && higher.sub_patch->0 > lower.sub_patch->0 ==> crate::restore::removal(
            order,
            chunks,
        ).left.contains(lower),
        lower.sub is None && higher.patch is Some && (lower.patch is None || higher.patch->0
            > lower.patch->0) ==> crate::restore::removal(order, chunks).left.contains(lower),
{
    if follows(higher, lower) {
        assert(crate::restore::is_above(higher, lower));
        crate::restore::removal_leaves_no_gap(order, chunks, lower, higher);
    }
}

/// The last patch that was found is removed first, and each step is about the file
/// of its patch.
pub proof fn steps_go_from_the_last_patch_to_the_first(
    files: Seq<PatchFileView>,
    chunks: Seq<ChunkNameView>,
)
    ensures
        ({
            let order = Seq::new(files.len(), |i: int| files[files.len() - 1 - i].name);
            let deleted = crate::restore::removal(order, chunks).deleted;
            let steps = crate::restore::removal_steps(files, chunks);
            &&& steps.len() == deleted.len()
            &&& steps.len() <= files.len()
            &&& forall|i: int|
                0 <= i < steps.len() ==> (#[trigger] steps[i]).deleted == deleted[i]
                    && steps[i].path == files[files.len() - 1 - i].path
        }),
{
    let order = Seq::new(files.len(), |i: int| files[files.len() - 1 - i].name);
    assert(crate::restore::removal_order(files) =~= order);
    crate::restore::lemma_removal_count(order, chunks);
}

/// The values of what a restore works on hold what these hold.
pub proof fn restore_values_are_their_parts(
    path: FilePath,
    metadata: PakMetadata,
    name: ChunkName,
    tools: Seq<ToolFile>,
    patches: Seq<PatchFile>,
    steps: Seq<PatchRemoval>,
    paths: Seq<FilePath>,
)
    ensures
        (ToolFile { path, metadata })@ == (ToolFileView {
            path: path@,
            full_package: metadata.full_package,
        }),
        (PatchFile { path, name })@ == (PatchFileView { path: path@, name: name@ }),
        PatchRemoval::CreateEmpty(path)@ == (PatchRemovalView { path: path@, deleted: false }),
        PatchRemoval::Delete(path)@ == (PatchRemovalView { path: path@, deleted: true }),
        crate::restore::tool_files_view(tools).len() == tools.len(),
        forall|i: int|
            0 <= i < tools.len() ==> #[trigger] crate::restore::tool_files_view(tools)[i]
                == tools[i]@,
        crate::restore::patch_files_view(patches).len() == patches.len(),
        forall|i: int|
            0 <= i < patches.len() ==> #[trigger] crate::restore::patch_files_view(patches)[i]
                == patches[i]@,
        crate::restore::removals_view(steps).len() == steps.len(),
        forall|i: int|
            0 <= i < steps.len() ==> #[trigger] crate::restore::removals_view(steps)[i]
                == steps[i]@,
        crate::restore::paths_view(paths).len() == paths.len(),
        forall|i: int|
            0 <= i < paths.len() ==> #[trigger] crate::restore::paths_view(paths)[i] == paths[i]@,
{
}

/// What an entry of a directory is to a restore is told by its name; whatever is no
/// file is nothing to it.
pub proof fn traces_are_judged_by_their_names(is_file: bool, name: Seq<char>)
    ensures
        crate::restore::kind_of(is_file, name) == TraceKind::Backup <==> is_file
            && ".pak.backup"@.is_suffix_of(name),
        crate::restore::kind_of(is_file, name) == TraceKind::Archive <==> is_file
            && looks_like_an_archive(name),
{
    traces_are_known_by_their_names(name);
}

/// A file of this tool that took an original's place gives way to its backup, which
/// is moved back, or stays where the backup is gone. Any other is a patch, to be
/// removed where its name can be read.
pub proof fn files_of_this_tool_are_taken_back(file: ToolFileView, backup_exists: bool)
    ensures
        ({
            let backup = file.path.with_extension("pak.backup"@);
            let action = crate::restore::action_for(file, backup_exists);
            &&& file.full_package && backup_exists ==> action == ActionView::RestoreBackup(
                seq![OpView::Remove(file.path), OpView::Rename(backup, file.path)],
            )
            &&& file.full_package && !backup_exists ==> action == ActionView::BackupMissing(backup)
            &&& !file.full_package && crate::chunk::parsed(file.path.name) is Some ==> action
                == ActionView::RemovePatch(crate::chunk::parsed(file.path.name)->0)
            &&& !file.full_package && crate::chunk::parsed(file.path.name) is None ==> action
                == ActionView::Keep
        }),
{
    crate::file_laws::replacing_and_restoring_move_files(file.path, file.path);
}

} // verus!
