//! Taking back what earlier runs did.

use vstd::prelude::*;

use crate::chunk::{same_number, ChunkName, ChunkNameView};
use crate::files::{backup_path, restore_backup, FileOp, OpView};
use crate::metadata::{MarkError, PakMetadata};
use crate::path::{FilePath, PathView};
use crate::text::{ends_with, starts_with};

verus! {

/// A directory entry, with what the search for its mark came to.
#[derive(Debug, PartialEq, Eq)]
pub struct ToolEntry {
    pub is_file: bool,
    pub path: FilePath,
    pub mark: Result<Option<PakMetadata>, MarkError>,
}

/// A file that this tool wrote.
#[derive(Debug, PartialEq, Eq)]
pub struct ToolFile {
    pub path: FilePath,
    pub metadata: PakMetadata,
}

/// The mathematical value of a [`ToolFile`].
pub struct ToolFileView {
    pub path: PathView,
    pub full_package: bool,
}

impl View for ToolFile {
    type V = ToolFileView;

    open spec fn view(&self) -> ToolFileView {
        ToolFileView { path: self.path@, full_package: self.metadata.full_package }
    }
}

/// A patch that this tool wrote.
#[derive(Debug, PartialEq, Eq)]
pub struct PatchFile {
    pub path: FilePath,
    pub name: ChunkName,
}

/// The mathematical value of a [`PatchFile`].
pub struct PatchFileView {
    pub path: PathView,
    pub name: ChunkNameView,
}

impl View for PatchFile {
    type V = PatchFileView;

    open spec fn view(&self) -> PatchFileView {
        PatchFileView { path: self.path@, name: self.name@ }
    }
}

/// What a scan for traces of earlier runs found.
#[derive(Debug, PartialEq, Eq)]
pub struct RestoreScan {
    pub tool_generated_files: Vec<ToolFile>,
    pub backup_files: Vec<FilePath>,
    pub all_chunks: Vec<ChunkName>,
}

/// The values of several files of this tool.
pub open spec fn tool_files_view(files: Seq<ToolFile>) -> Seq<ToolFileView> {
    files.map_values(|f: ToolFile| f@)
}

/// The values of several places.
pub open spec fn paths_view(paths: Seq<FilePath>) -> Seq<PathView> {
    paths.map_values(|p: FilePath| p@)
}

/// The values of several patches.
pub open spec fn patch_files_view(files: Seq<PatchFile>) -> Seq<PatchFileView> {
    files.map_values(|f: PatchFile| f@)
}

/// Whether a file name is that of a backup.
pub open spec fn is_backup_name(name: Seq<char>) -> bool {
    ".pak.backup"@.is_suffix_of(name)
}

/// Whether a file name may be that of an archive of this tool.
pub open spec fn is_archive_name(name: Seq<char>) -> bool {
    &&& !is_backup_name(name)
    &&& ".pak"@.is_suffix_of(name)
    &&& "re_chunk_"@.is_prefix_of(name) || "re_dlc_"@.is_prefix_of(name)
}

/// Whether an entry is a backup.
pub open spec fn is_backup(e: ToolEntry) -> bool {
    e.is_file && is_backup_name(e.path.name@)
}

/// Whether an entry is an archive with a name that can be read.
pub open spec fn is_named_archive(e: ToolEntry) -> bool {
    e.is_file && is_archive_name(e.path.name@) && crate::chunk::parsed(e.path.name@) is Some
}

/// Whether an entry is an archive that carries the mark of this tool.
pub open spec fn is_tool_file(e: ToolEntry) -> bool {
    e.is_file && is_archive_name(e.path.name@) && e.mark is Ok && e.mark->Ok_0 is Some
}

/// The archives of this tool among the entries.
pub open spec fn tool_files_in(entries: Seq<ToolEntry>) -> Seq<ToolFileView> {
    entries.filter(|e: ToolEntry| is_tool_file(e)).map_values(
        |e: ToolEntry|
            ToolFileView { path: e.path@, full_package: e.mark->Ok_0->0.full_package },
    )
}

/// The backups among the entries.
pub open spec fn backups_in(entries: Seq<ToolEntry>) -> Seq<PathView> {
    entries.filter(|e: ToolEntry| is_backup(e)).map_values(|e: ToolEntry| e.path@)
}

/// The names of the archives among the entries.
pub open spec fn chunks_in(entries: Seq<ToolEntry>) -> Seq<ChunkNameView> {
    entries.filter(|e: ToolEntry| is_named_archive(e)).map_values(
        |e: ToolEntry| crate::chunk::parsed(e.path.name@)->0,
    )
}

/// What a directory entry is to a scan for traces of earlier runs.
#[derive(Debug, Clone, Copy, PartialEq, Eq)]
pub enum TraceKind {
    /// Nothing to this tool.
    Other,
    /// A backup.
    Backup,
    /// An archive, which may carry the mark of this tool.
    Archive,
}

/// What a directory entry is, by its kind and its name.
pub open spec fn kind_of(is_file: bool, name: Seq<char>) -> TraceKind {
    if is_file && is_backup_name(name) {
        TraceKind::Backup
    } else if is_file && is_archive_name(name) {
        TraceKind::Archive
    } else {
        TraceKind::Other
    }
}

/// Judges a directory entry by its kind and its name.
pub fn trace_kind(is_file: bool, file_name: &str) -> (r: TraceKind)
    ensures
        r == if is_file && is_backup_name(file_name@) {
            TraceKind::Backup
        } else if is_file && is_archive_name(file_name@) {
            TraceKind::Archive
        } else {
            TraceKind::Other
        },
        r == kind_of(is_file, file_name@),
{
    if !is_file {
        return TraceKind::Other;
    }
    if ends_with(file_name, ".pak.backup") {
        return TraceKind::Backup;
    }
    if !ends_with(file_name, ".pak") {
        return TraceKind::Other;
    }
    let is_chunk = starts_with(file_name, "re_chunk_");
    let is_dlc = starts_with(file_name, "re_dlc_");
    if !is_chunk && !is_dlc {
        return TraceKind::Other;
    }
    TraceKind::Archive
}

proof fn lemma_filter_step<A>(s: Seq<A>, keep: spec_fn(A) -> bool, i: int)
    requires
        0 <= i < s.len(),
    ensures
        s.take(i + 1).filter(keep) == if keep(s[i]) {
            s.take(i).filter(keep).push(s[i])
        } else {
            s.take(i).filter(keep)
        },
{
    assert(s.take(i + 1).drop_last() =~= s.take(i));
    reveal_with_fuel(Seq::filter, 2);
}

/// What one more entry adds to a scan.
pub proof fn lemma_scan_step(entries: Seq<ToolEntry>, i: int)
    requires
        0 <= i < entries.len(),
    ensures
        tool_files_in(entries.take(i + 1)) == if is_tool_file(entries[i]) {
            tool_files_in(entries.take(i)).push(
                ToolFileView {
                    path: entries[i].path@,
                    full_package: entries[i].mark->Ok_0->0.full_package,
                },
            )
        } else {
            tool_files_in(entries.take(i))
        },
        backups_in(entries.take(i + 1)) == if is_backup(entries[i]) {
            backups_in(entries.take(i)).push(entries[i].path@)
        } else {
            backups_in(entries.take(i))
        },
        chunks_in(entries.take(i + 1)) == if is_named_archive(entries[i]) {
            chunks_in(entries.take(i)).push(crate::chunk::parsed(entries[i].path.name@)->0)
        } else {
            chunks_in(entries.take(i))
        },
{
    lemma_filter_step(entries, |e: ToolEntry| is_tool_file(e), i);
    lemma_filter_step(entries, |e: ToolEntry| is_backup(e), i);
    lemma_filter_step(entries, |e: ToolEntry| is_named_archive(e), i);
    let now = entries.take(i + 1);
    let before = entries.take(i);
    if is_tool_file(entries[i]) {
        assert(tool_files_in(now) =~= tool_files_in(before).push(
            ToolFileView {
                path: entries[i].path@,
                full_package: entries[i].mark->Ok_0->0.full_package,
            },
        ));
    }
    if is_backup(entries[i]) {
        assert(backups_in(now) =~= backups_in(before).push(entries[i].path@));
    }
    if is_named_archive(entries[i]) {
        assert(chunks_in(now) =~= chunks_in(before).push(
            crate::chunk::parsed(entries[i].path.name@)->0,
        ));
    }
}

/// No entry, nothing found.
pub proof fn lemma_nothing_scanned(entries: Seq<ToolEntry>)
    ensures
        tool_files_in(entries.take(0)) == Seq::<ToolFileView>::empty(),
        backups_in(entries.take(0)) == Seq::<PathView>::empty(),
        chunks_in(entries.take(0)) == Seq::<ChunkNameView>::empty(),
{
    reveal_with_fuel(Seq::filter, 1);
    assert(tool_files_in(entries.take(0)) =~= Seq::<ToolFileView>::empty());
    assert(backups_in(entries.take(0)) =~= Seq::<PathView>::empty());
    assert(chunks_in(entries.take(0)) =~= Seq::<ChunkNameView>::empty());
}

/// Scanning two directories, one after the other, finds what a scan of all their
/// entries finds.
pub proof fn scans_add_up(first: Seq<ToolEntry>, second: Seq<ToolEntry>)
    ensures
        tool_files_in(first + second) == tool_files_in(first) + tool_files_in(second),
        backups_in(first + second) == backups_in(first) + backups_in(second),
        chunks_in(first + second) == chunks_in(first) + chunks_in(second),
{
    Seq::filter_distributes_over_add(first, second, |e: ToolEntry| is_tool_file(e));
    Seq::filter_distributes_over_add(first, second, |e: ToolEntry| is_backup(e));
    Seq::filter_distributes_over_add(first, second, |e: ToolEntry| is_named_archive(e));
    assert(tool_files_in(first + second) =~= tool_files_in(first) + tool_files_in(second));
    assert(backups_in(first + second) =~= backups_in(first) + backups_in(second));
    assert(chunks_in(first + second) =~= chunks_in(first) + chunks_in(second));
}

impl RestoreScan {
    /// A scan that has not looked anywhere yet.
    pub fn new() -> (r: RestoreScan)
        ensures
            r.tool_generated_files@.len() == 0,
            r.backup_files@.len() == 0,
            r.all_chunks@.len() == 0,
    {
        RestoreScan {
            tool_generated_files: Vec::new(),
            backup_files: Vec::new(),
            all_chunks: Vec::new(),
        }
    }

    /// Adds what the entries of a directory show.
    pub fn scan_tool_files_in_directory(&mut self, entries: &Vec<ToolEntry>)
        ensures
            tool_files_view(final(self).tool_generated_files@) == tool_files_view(
                old(self).tool_generated_files@,
            ) + tool_files_in(entries@),
            paths_view(final(self).backup_files@) == paths_view(old(self).backup_files@)
                + backups_in(entries@),
            crate::output::names_view(final(self).all_chunks@) == crate::output::names_view(
                old(self).all_chunks@,
            ) + chunks_in(entries@),
    {
        let ghost tools = tool_files_view(self.tool_generated_files@);
        let ghost backups = paths_view(self.backup_files@);
        let ghost chunks = crate::output::names_view(self.all_chunks@);
        let mut i: usize = 0;
        proof {
            lemma_nothing_scanned(entries@);
        }
        while i < entries.len()
            invariant
                i <= entries.len(),
                tool_files_view(self.tool_generated_files@) =~= tools + tool_files_in(
                    entries@.take(i as int),
                ),
                paths_view(self.backup_files@) =~= backups + backups_in(entries@.take(i as int)),
                crate::output::names_view(self.all_chunks@) =~= chunks + chunks_in(
                    entries@.take(i as int),
                ),
            decreases entries.len() - i,
        {
            proof {
                lemma_scan_step(entries@, i as int);
            }
            let ghost before = *self;
            let entry = &entries[i];
            match trace_kind(entry.is_file, entry.path.name.as_str()) {
                TraceKind::Other => {},
                TraceKind::Backup => {
                    self.backup_files.push(entry.path.clone());
                    assert(paths_view(self.backup_files@) =~= paths_view(before.backup_files@).push(
                        entry.path@,
                    ));
                },
                TraceKind::Archive => {
                    if let Ok(name) = ChunkName::try_from_str(entry.path.name.as_str()) {
                        let ghost name_view = name@;
                        self.all_chunks.push(name);
                        assert(crate::output::names_view(self.all_chunks@)
                            =~= crate::output::names_view(before.all_chunks@).push(name_view));
                    }
                    if let Ok(Some(metadata)) = entry.mark {
                        let file = ToolFile { path: entry.path.clone(), metadata };
                        self.tool_generated_files.push(file);
                        assert(tool_files_view(self.tool_generated_files@) =~= tool_files_view(
                            before.tool_generated_files@,
                        ).push(file@));
                    }
                },
            }
            i += 1;
        }
        assert(entries@.take(entries.len() as int) =~= entries@);
    }

    /// Whether there is nothing to take back.
    pub fn is_empty(&self) -> (r: bool)
        ensures
            r == (self.tool_generated_files@.len() == 0 && self.backup_files@.len() == 0),
    {
        self.tool_generated_files.len() == 0 && self.backup_files.len() == 0
    }
}

/// What to do about a file of this tool.
#[derive(Debug, PartialEq, Eq)]
pub enum RestoreAction {
    /// Put the backup of the original back by these changes.
    RestoreBackup(Vec<FileOp>),
    /// The file stays: the backup, which should be at this place, is gone.
    BackupMissing(FilePath),
    /// The file is a patch with this name, to be removed.
    RemovePatch(ChunkName),
    /// The file stays: it is a patch whose name cannot be read.
    Keep,
}

/// The mathematical value of a [`RestoreAction`].
pub enum ActionView {
    RestoreBackup(Seq<OpView>),
    BackupMissing(PathView),
    RemovePatch(ChunkNameView),
    Keep,
}

impl View for RestoreAction {
    type V = ActionView;

    open spec fn view(&self) -> ActionView {
        match self {
            RestoreAction::RestoreBackup(ops) => ActionView::RestoreBackup(
                crate::files::ops_view(ops@),
            ),
            RestoreAction::BackupMissing(path) => ActionView::BackupMissing(path@),
            RestoreAction::RemovePatch(name) => ActionView::RemovePatch(name@),
            RestoreAction::Keep => ActionView::Keep,
        }
    }
}

/// What is done about a file of this tool.
pub open spec fn action_for(file: ToolFileView, backup_exists: bool) -> ActionView {
    if file.full_package {
        if backup_exists {
            ActionView::RestoreBackup(crate::files::restore_ops(file.path))
        } else {
            ActionView::BackupMissing(crate::files::backup_of(file.path))
        }
    } else {
        match crate::chunk::parsed(file.path.name) {
            Some(name) => ActionView::RemovePatch(name),
            None => ActionView::Keep,
        }
    }
}

/// Decides what to do about a file of this tool. A file that took the place of
/// an original gives way to its backup; any other is a patch.
pub fn restore_action(file: &ToolFile, backup_exists: bool) -> (r: RestoreAction)
    ensures
        match r {
            RestoreAction::RestoreBackup(ops) => {
                &&& file@.full_package && backup_exists
                &&& crate::files::ops_view(ops@) == crate::files::restore_ops(file@.path)
            },
            RestoreAction::BackupMissing(path) => {
                &&& file@.full_package && !backup_exists
                &&& path@ == crate::files::backup_of(file@.path)
            },
            RestoreAction::RemovePatch(name) => {
                &&& !file@.full_package
                &&& crate::chunk::parsed(file@.path.name) == Some(name@)
            },
            RestoreAction::Keep => {
                &&& !file@.full_package
                &&& crate::chunk::parsed(file@.path.name) is None
            },
        },
        r@ == action_for(file@, backup_exists),
{
    if file.metadata.is_full_package() {
        if backup_exists {
            RestoreAction::RestoreBackup(restore_backup(&file.path))
        } else {
            RestoreAction::BackupMissing(backup_path(&file.path))
        }
    } else {
        match ChunkName::try_from_str(file.path.name.as_str()) {
            Ok(name) => RestoreAction::RemovePatch(name),
            Err(_) => RestoreAction::Keep,
        }
    }
}

/// Whether a file of this tool is a patch to be removed.
pub open spec fn is_patch(f: ToolFileView) -> bool {
    !f.full_package && crate::chunk::parsed(f.path.name) is Some
}

/// The patch that a file of this tool is.
pub open spec fn patch_of(f: ToolFileView) -> PatchFileView {
    PatchFileView { path: f.path, name: crate::chunk::parsed(f.path.name)->0 }
}

/// The patches among the files of this tool.
pub open spec fn patches_among(files: Seq<ToolFileView>) -> Seq<PatchFileView> {
    files.filter(|f: ToolFileView| is_patch(f)).map_values(|f: ToolFileView| patch_of(f))
}

/// The patches to remove, in the order in which they were found.
pub fn patch_files_to_remove(files: &Vec<ToolFile>) -> (r: Vec<PatchFile>)
    ensures
        patch_files_view(r@) == patches_among(tool_files_view(files@)),
{
    let ghost all = tool_files_view(files@);
    let mut patches: Vec<PatchFile> = Vec::new();
    let mut i: usize = 0;
    assert(patches_among(all.take(0)) =~= Seq::<PatchFileView>::empty()) by {
        reveal_with_fuel(Seq::filter, 1);
    }
    while i < files.len()
        invariant
            i <= files.len(),
            all == tool_files_view(files@),
            patch_files_view(patches@) =~= patches_among(all.take(i as int)),
        decreases files.len() - i,
    {
        let file = &files[i];
        proof {
            assert(all[i as int] == file@);
            lemma_filter_step(all, |f: ToolFileView| is_patch(f), i as int);
        }
        let ghost before = patches@;
        if let RestoreAction::RemovePatch(name) = restore_action(file, false) {
            let patch = PatchFile { path: file.path.clone(), name };
            patches.push(patch);
            proof {
                assert(patch_files_view(patches@) =~= patch_files_view(before).push(patch@));
                assert(patches_among(all.take(i + 1)) =~= patches_among(all.take(i as int)).push(
                    patch@,
                ));
            }
        }
        i += 1;
    }
    assert(all.take(files.len() as int) =~= all);
    patches
}

/// The number of a patch in its sequence: that of its sub chunk, or, where the
/// name holds no sub chunk, that of the base. A name may have none.
pub open spec fn own_number(name: ChunkNameView) -> Option<u32> {
    if name.sub is Some {
        name.sub_patch
    } else {
        name.patch
    }
}

/// Whether two names belong to one sequence of patches: that of one sub chunk,
/// or that of the base of one series.
pub open spec fn same_sequence(a: ChunkNameView, b: ChunkNameView) -> bool {
    a.major == b.major && a.sub == b.sub
}

/// Whether `c` counts when `name` is to be removed: it is a patch of the same
/// sequence.
pub open spec fn counts_for(c: ChunkNameView, name: ChunkNameView) -> bool {
    same_sequence(c, name) && own_number(c) is Some
}

/// Whether a name has a place in its sequence: that of its number, or, for a base
/// without one, before every patch of the base.
pub open spec fn is_placed(name: ChunkNameView) -> bool {
    name.sub is None || own_number(name) is Some
}

/// Whether the name can be compared with all that count for it. That of a sub
/// chunk without a number of its own can only where none counts for it.
pub open spec fn comparable(chunks: Seq<ChunkNameView>, name: ChunkNameView) -> bool {
    is_placed(name) || forall|i: int|
        0 <= i < chunks.len() ==> !counts_for(#[trigger] chunks[i], name)
}

/// Whether `c` is a patch that comes after `name` in the sequence of both. All
/// patches come after a name without a number.
pub open spec fn is_above(c: ChunkNameView, name: ChunkNameView) -> bool {
    counts_for(c, name) && (own_number(name) matches Some(n) ==> own_number(c)->0 > n)
}

/// Whether there is a patch that comes after `name`.
pub open spec fn has_higher(chunks: Seq<ChunkNameView>, name: ChunkNameView) -> bool {
    exists|i: int| 0 <= i < chunks.len() && is_above(#[trigger] chunks[i], name)
}

/// The names that are not `name`.
pub open spec fn without(chunks: Seq<ChunkNameView>, name: ChunkNameView) -> Seq<ChunkNameView> {
    chunks.filter(|c: ChunkNameView| c != name)
}

/// The course of a removal: the archives that are left, and for each patch
/// whether it was deleted (or else emptied).
pub struct Removal {
    pub left: Seq<ChunkNameView>,
    pub deleted: Seq<bool>,
}

/// Removes the patches of `order`, one after the other. A patch with higher ones
/// behind it is emptied, so that its sequence stays continuous, be it that of a
/// sub chunk or of a base; any other is deleted and is then no longer there for
/// the next. A base without a number comes before all its patches. A sub chunk
/// without one is deleted where it has no patch, and ends the removal, untouched,
/// where it has one.
pub open spec fn removal(order: Seq<ChunkNameView>, chunks: Seq<ChunkNameView>) -> Removal
    decreases order.len(),
{
    if order.len() == 0 {
        Removal { left: chunks, deleted: seq![] }
    } else {
        let before = removal(order.drop_last(), chunks);
        if before.deleted.len() < order.len() - 1 || !comparable(before.left, order.last()) {
            before
        } else if has_higher(before.left, order.last()) {
            Removal { left: before.left, deleted: before.deleted.push(false) }
        } else {
            Removal {
                left: without(before.left, order.last()),
                deleted: before.deleted.push(true),
            }
        }
    }
}

/// What to do with a patch file.
#[derive(Debug, PartialEq, Eq)]
pub enum PatchRemoval {
    /// Put an empty patch in its place.
    CreateEmpty(FilePath),
    /// Delete it.
    Delete(FilePath),
}

/// The mathematical value of a [`PatchRemoval`].
pub struct PatchRemovalView {
    pub path: PathView,
    pub deleted: bool,
}

impl View for PatchRemoval {
    type V = PatchRemovalView;

    open spec fn view(&self) -> PatchRemovalView {
        match self {
            PatchRemoval::CreateEmpty(path) => PatchRemovalView { path: path@, deleted: false },
            PatchRemoval::Delete(path) => PatchRemovalView { path: path@, deleted: true },
        }
    }
}

/// The values of several steps.
pub open spec fn removals_view(steps: Seq<PatchRemoval>) -> Seq<PatchRemovalView> {
    steps.map_values(|s: PatchRemoval| s@)
}

/// The names of the patches, the last one first.
pub open spec fn removal_order(files: Seq<PatchFileView>) -> Seq<ChunkNameView> {
    Seq::new(files.len(), |i: int| files[files.len() - 1 - i].name)
}

/// The steps that remove the patches, the last one first.
pub open spec fn removal_steps(
    files: Seq<PatchFileView>,
    chunks: Seq<ChunkNameView>,
) -> Seq<PatchRemovalView> {
    let deleted = removal(removal_order(files), chunks).deleted;
    Seq::new(
        deleted.len(),
        |i: int|
            PatchRemovalView { path: files[files.len() - 1 - i].path, deleted: deleted[i] },
    )
}

/// The number of a patch in its sequence.
fn patch_number(name: &ChunkName) -> (r: Option<u32>)
    ensures
        r == own_number(name@),
{
    if name.sub_id().is_some() {
        name.sub_patch_id()
    } else {
        name.patch_id()
    }
}

/// Whether there is a patch that comes after `name`, or nothing if the name cannot
/// be compared with one that counts for it.
pub fn has_higher_patches(all_chunks: &Vec<ChunkName>, name: &ChunkName) -> (r: Option<bool>)
    ensures
        r is Some <==> comparable(crate::output::names_view(all_chunks@), name@),
        r matches Some(higher) ==> higher == has_higher(
            crate::output::names_view(all_chunks@),
            name@,
        ),
{
    let ghost chunks = crate::output::names_view(all_chunks@);
    let own: Option<u32> = patch_number(name);
    let mut higher: bool = false;
    let mut i: usize = 0;
    while i < all_chunks.len()
        invariant
            i <= all_chunks.len(),
            chunks == crate::output::names_view(all_chunks@),
            own == own_number(name@),
            !is_placed(name@) ==> forall|j: int|
                0 <= j < i ==> !counts_for(#[trigger] chunks[j], name@),
            higher == exists|j: int| 0 <= j < i && is_above(#[trigger] chunks[j], name@),
        decreases all_chunks.len() - i,
    {
        let c = &all_chunks[i];
        assert(chunks[i as int] == c@);
        if c.major_id().same(name.major_id()) && same_number(c.sub_id(), name.sub_id()) {
            if let Some(patch_id) = patch_number(c) {
                assert(counts_for(chunks[i as int], name@));
                match own {
                    None => {
                        if name.sub_id().is_some() {
                            return None;
                        }
                        higher = true;
                    },
                    Some(own_id) => {
                        if patch_id > own_id {
                            higher = true;
                        }
                    },
                }
            }
        }
        i += 1;
    }
    Some(higher)
}

fn remove_name(all_chunks: Vec<ChunkName>, name: &ChunkName) -> (r: Vec<ChunkName>)
    ensures
        crate::output::names_view(r@) == without(crate::output::names_view(all_chunks@), name@),
{
    let ghost chunks = crate::output::names_view(all_chunks@);
    let ghost keep = |c: ChunkNameView| c != name@;
    let mut left: Vec<ChunkName> = Vec::new();
    let mut i: usize = 0;
    assert(crate::output::names_view(left@) =~= chunks.take(0).filter(keep)) by {
        reveal_with_fuel(Seq::filter, 1);
    }
    while i < all_chunks.len()
        invariant
            i <= all_chunks.len(),
            chunks == crate::output::names_view(all_chunks@),
            keep == |c: ChunkNameView| c != name@,
            crate::output::names_view(left@) == chunks.take(i as int).filter(keep),
        decreases all_chunks.len() - i,
    {
        proof {
            lemma_filter_step(chunks, keep, i as int);
        }
        let c = &all_chunks[i];
        assert(chunks[i as int] == c@);
        if !c.same(name) {
            let ghost before = left@;
            left.push(c.clone());
            assert(crate::output::names_view(left@) =~= crate::output::names_view(before).push(
                c@,
            ));
        }
        i += 1;
    }
    assert(chunks.take(all_chunks.len() as int) =~= chunks);
    left
}

/// The steps that remove the patches, the last one first. There are fewer steps
/// than patches exactly where a patch cannot be compared with one that counts
/// for it.
pub fn plan_patch_removal(files: &Vec<PatchFile>, all_chunks: &Vec<ChunkName>) -> (r: Vec<
    PatchRemoval,
>)
    ensures
        removals_view(r@) == removal_steps(
            patch_files_view(files@),
            crate::output::names_view(all_chunks@),
        ),
{
    let ghost chunks = crate::output::names_view(all_chunks@);
    let ghost patches = patch_files_view(files@);
    let ghost order = removal_order(patches);
    let mut left = copy_names(all_chunks);
    let mut steps: Vec<PatchRemoval> = Vec::new();
    let mut i: usize = 0;
    assert(order.take(0) =~= Seq::<ChunkNameView>::empty());
    while i < files.len()
        invariant
            i <= files.len(),
            patches == patch_files_view(files@),
            order == removal_order(patches),
            chunks == crate::output::names_view(all_chunks@),
            steps@.len() == i,
            removal(order.take(i as int), chunks).deleted.len() == i,
            crate::output::names_view(left@) == removal(order.take(i as int), chunks).left,
            forall|j: int|
                0 <= j < i ==> (#[trigger] steps@[j])@ == (PatchRemovalView {
                    path: files@[files@.len() - 1 - j]@.path,
                    deleted: removal(order.take(i as int), chunks).deleted[j],
                }),
        decreases files.len() - i,
    {
        let file = &files[files.len() - 1 - i];
        let ghost before = removal(order.take(i as int), chunks);
        proof {
            assert(order.take(i + 1).drop_last() =~= order.take(i as int));
            assert(order.take(i + 1).last() == file@.name);
        }
        match has_higher_patches(&left, &file.name) {
            None => {
                proof {
                    lemma_ended_removal(order, chunks, i + 1);
                    assert(removals_view(steps@) =~= removal_steps(patches, chunks));
                }
                return steps;
            },
            Some(higher) => {
                if higher {
                    steps.push(PatchRemoval::CreateEmpty(file.path.clone()));
                } else {
                    left = remove_name(left, &file.name);
                    steps.push(PatchRemoval::Delete(file.path.clone()));
                }
                assert(removal(order.take(i + 1), chunks).deleted == before.deleted.push(!higher));
            },
        }
        i += 1;
    }
    assert(order.take(files.len() as int) =~= order);
    assert(removals_view(steps@) =~= removal_steps(patches, chunks));
    steps
}

fn copy_names(names: &Vec<ChunkName>) -> (r: Vec<ChunkName>)
    ensures
        r@ == names@,
{
    let mut copy: Vec<ChunkName> = Vec::new();
    let mut i: usize = 0;
    while i < names.len()
        invariant
            i <= names.len(),
            copy@ =~= names@.take(i as int),
        decreases names.len() - i,
    {
        copy.push(names[i].clone());
        i += 1;
    }
    assert(names@.take(names.len() as int) =~= names@);
    copy
}

/// Once a removal has ended early it stays as it is.
proof fn lemma_ended_removal(order: Seq<ChunkNameView>, chunks: Seq<ChunkNameView>, n: int)
    requires
        0 <= n <= order.len(),
        removal(order.take(n), chunks).deleted.len() < n,
    ensures
        removal(order, chunks) == removal(order.take(n), chunks),
    decreases order.len() - n,
{
    if n < order.len() {
        assert(order.take(n + 1).drop_last() =~= order.take(n));
        lemma_ended_removal(order, chunks, n + 1);
    } else {
        assert(order.take(n) =~= order);
    }
}

proof fn lemma_without(chunks: Seq<ChunkNameView>, name: ChunkNameView, c: ChunkNameView)
    ensures
        without(chunks, name).contains(c) <==> chunks.contains(c) && c != name,
    decreases chunks.len(),
{
    let keep = |c: ChunkNameView| c != name;
    reveal_with_fuel(Seq::filter, 2);
    if chunks.len() > 0 {
        let front = chunks.drop_last();
        let last = chunks.last();
        lemma_without(front, name, c);
        let kept = without(front, name);
        assert(without(chunks, name) == if keep(last) {
            kept.push(last)
        } else {
            kept
        });
        if chunks.contains(c) {
            let i = choose|i: int| 0 <= i < chunks.len() && chunks[i] == c;
            if i < front.len() {
                assert(front[i] == c);
                assert(front.contains(c));
                if c != name {
                    let j = choose|j: int| 0 <= j < kept.len() && kept[j] == c;
                    assert(kept.push(last)[j] == c);
                    assert(without(chunks, name).contains(c));
                }
            } else if c != name {
                assert(kept.push(last)[kept.len() as int] == c);
            }
        }
        if without(chunks, name).contains(c) {
            let j = choose|j: int|
                0 <= j < without(chunks, name).len() && without(chunks, name)[j] == c;
            if j < kept.len() {
                assert(kept[j] == c);
                assert(kept.contains(c));
                let i = choose|i: int| 0 <= i < front.len() && front[i] == c;
                assert(chunks[i] == c);
            } else {
                assert(chunks[chunks.len() - 1] == c);
            }
        }
    }
}

/// A removal brings in no archive, and only names of removed patches leave.
pub proof fn only_removed_patches_leave(
    order: Seq<ChunkNameView>,
    chunks: Seq<ChunkNameView>,
    c: ChunkNameView,
)
    ensures
        removal(order, chunks).left.contains(c) ==> chunks.contains(c),
        chunks.contains(c) && !order.contains(c) ==> removal(order, chunks).left.contains(c),
    decreases order.len(),
{
    if order.len() > 0 {
        let before = removal(order.drop_last(), chunks);
        only_removed_patches_leave(order.drop_last(), chunks, c);
        lemma_without(before.left, order.last(), c);
        if !order.contains(c) {
            assert(order.last() != c) by {
                assert(order[order.len() - 1] == order.last());
            }
            if order.drop_last().contains(c) {
                let i = choose|i: int|
                    0 <= i < order.drop_last().len() && order.drop_last()[i] == c;
                assert(order[i] == c);
            }
        }
    }
}

/// A removal keeps every sequence of patches continuous, that of a sub chunk as
/// that of a base: while a patch is left, all that comes before it and was
/// there is left too, be it emptied or untouched.
pub proof fn removal_leaves_no_gap(
    order: Seq<ChunkNameView>,
    chunks: Seq<ChunkNameView>,
    lower: ChunkNameView,
    higher: ChunkNameView,
)
    requires
        chunks.contains(lower),
        removal(order, chunks).left.contains(higher),
        is_above(higher, lower),
    ensures
        removal(order, chunks).left.contains(lower),
    decreases order.len(),
{
    if order.len() > 0 {
        let before = removal(order.drop_last(), chunks);
        let last = order.last();
        lemma_without(before.left, last, higher);
        lemma_without(before.left, last, lower);
        assert(before.left.contains(higher));
        removal_leaves_no_gap(order.drop_last(), chunks, lower, higher);
        if lower == last {
            let i = choose|i: int| 0 <= i < before.left.len() && before.left[i] == higher;
            assert(counts_for(before.left[i], last));
            assert(is_above(before.left[i], last));
        }
    }
}

/// The name of a deleted patch is not among the archives that are left.
pub proof fn deleted_patches_are_gone(order: Seq<ChunkNameView>, chunks: Seq<ChunkNameView>, i: int)
    requires
        0 <= i < removal(order, chunks).deleted.len(),
        removal(order, chunks).deleted[i],
    ensures
        i < order.len(),
        !removal(order, chunks).left.contains(order[i]),
    decreases order.len(),
{
    lemma_removal_count(order, chunks);
    let before = removal(order.drop_last(), chunks);
    lemma_removal_count(order.drop_last(), chunks);
    lemma_without(before.left, order.last(), order[i]);
    if i < before.deleted.len() {
        assert(before.deleted[i]);
        deleted_patches_are_gone(order.drop_last(), chunks, i);
    }
}

/// An archive that is no longer left was a patch that was deleted.
pub proof fn only_deleted_patches_leave(
    order: Seq<ChunkNameView>,
    chunks: Seq<ChunkNameView>,
    c: ChunkNameView,
)
    requires
        chunks.contains(c),
        !removal(order, chunks).left.contains(c),
    ensures
        exists|i: int|
            0 <= i < removal(order, chunks).deleted.len() && #[trigger] removal(
                order,
                chunks,
            ).deleted[i] && order[i] == c,
    decreases order.len(),
{
    if order.len() > 0 {
        let front = order.drop_last();
        let before = removal(front, chunks);
        let now = removal(order, chunks);
        lemma_removal_count(front, chunks);
        if before.left.contains(c) {
            lemma_without(before.left, order.last(), c);
            assert(now.deleted[before.deleted.len() as int]);
            assert(order[before.deleted.len() as int] == c);
        } else {
            only_deleted_patches_leave(front, chunks, c);
            let i = choose|i: int|
                0 <= i < before.deleted.len() && #[trigger] before.deleted[i] && front[i] == c;
            assert(now.deleted[i] && order[i] == c);
        }
    }
}

/// No patch gets more than one step.
pub proof fn lemma_removal_count(order: Seq<ChunkNameView>, chunks: Seq<ChunkNameView>)
    ensures
        removal(order, chunks).deleted.len() <= order.len(),
    decreases order.len(),
{
    if order.len() > 0 {
        lemma_removal_count(order.drop_last(), chunks);
    }
}

/// Every patch gets its step where each of them has a place in its sequence.
pub proof fn placed_patches_are_all_removed(order: Seq<ChunkNameView>, chunks: Seq<ChunkNameView>)
    requires
        forall|i: int| 0 <= i < order.len() ==> is_placed(#[trigger] order[i]),
    ensures
        removal(order, chunks).deleted.len() == order.len(),
    decreases order.len(),
{
    if order.len() > 0 {
        let front = order.drop_last();
        assert forall|i: int| 0 <= i < front.len() implies is_placed(#[trigger] front[i]) by {
            assert(front[i] == order[i]);
        }
        placed_patches_are_all_removed(front, chunks);
        assert(order[order.len() - 1] == order.last());
    }
}

proof fn lemma_without_absent(chunks: Seq<ChunkNameView>, name: ChunkNameView)
    requires
        !chunks.contains(name),
    ensures
        without(chunks, name) == chunks,
        without(chunks.push(name), name) == chunks,
    decreases chunks.len(),
{
    reveal_with_fuel(Seq::filter, 2);
    if chunks.len() > 0 {
        let front = chunks.drop_last();
        assert(chunks[chunks.len() - 1] == chunks.last());
        if front.contains(name) {
            let i = choose|i: int| 0 <= i < front.len() && front[i] == name;
            assert(chunks[i] == name);
        }
        lemma_without_absent(front, name);
        assert(front.push(chunks.last()) =~= chunks);
    } else {
        assert(without(chunks, name) =~= chunks);
    }
    assert(chunks.push(name).drop_last() =~= chunks);
}

/// The patches of a run, the last one first.
pub open spec fn latest_first(patches: Seq<ChunkNameView>) -> Seq<ChunkNameView> {
    Seq::new(patches.len(), |i: int| patches[patches.len() - 1 - i])
}

/// A patch is new, and none that is there when it is made comes after it.
spec fn made_last(names: Seq<ChunkNameView>, patches: Seq<ChunkNameView>, at: int) -> bool {
    let there = names + patches.take(at);
    &&& !there.contains(patches[at])
    &&& comparable(there.push(patches[at]), patches[at])
    &&& !has_higher(there.push(patches[at]), patches[at])
}

proof fn lemma_made_last(names: Seq<ChunkNameView>, selected: Seq<ChunkNameView>, at: int)
    requires
        forall|i: int| 0 <= i < selected.len() ==> (#[trigger] selected[i]).sub is Some,
        last_of_their_sub_chunks(names, crate::output::new_patches(names, selected)),
        0 <= at < crate::output::new_patches(names, selected).len(),
    ensures
        made_last(names, crate::output::new_patches(names, selected), at),
{
    let out = crate::output::new_patches(names, selected);
    let there = names + out.take(at);
    let all = names + out;
    crate::output::new_patches_come_last(names, selected, at);
    crate::output::new_patches_are_new(names, selected);
    assert(selected[at].sub is Some);
    if there.contains(out[at]) {
        let j = choose|j: int| 0 <= j < there.len() && there[j] == out[at];
        if j < names.len() {
            assert(names[j] == out[at]);
            assert(names.contains(out[at]));
        } else {
            assert(out[j - names.len()] == out[at]);
        }
    }
    let now = there.push(out[at]);
    assert forall|j: int|
        0 <= j < now.len() && counts_for(
            #[trigger] now[j],
            out[at],
        ) implies now[j].sub_patch->0 <= out[at].sub_patch->0 by {
        if j < there.len() {
            assert(now[j] == all[j]);
            assert(counts_for(all[j], out[at]));
        }
    }
}

proof fn lemma_one_deleted(
    order: Seq<ChunkNameView>,
    chunks: Seq<ChunkNameView>,
    rest: Seq<ChunkNameView>,
    last: ChunkNameView,
)
    requires
        removal(order, chunks).deleted.len() == order.len(),
        removal(order, chunks).left == rest.push(last),
        !rest.contains(last),
        comparable(rest.push(last), last),
        !has_higher(rest.push(last), last),
    ensures
        removal(order.push(last), chunks).left == rest,
        removal(order.push(last), chunks).deleted == removal(order, chunks).deleted.push(true),
{
    assert(order.push(last).drop_last() =~= order);
    lemma_without_absent(rest, last);
}

proof fn lemma_taken_back(names: Seq<ChunkNameView>, patches: Seq<ChunkNameView>, k: int)
    requires
        forall|at: int| 0 <= at < patches.len() ==> #[trigger] made_last(names, patches, at),
        0 <= k <= patches.len(),
    ensures
        ({
            let course = removal(latest_first(patches).take(k), names + patches);
            &&& course.left == names + patches.take(patches.len() - k)
            &&& course.deleted.len() == k
            &&& forall|i: int| 0 <= i < k ==> #[trigger] course.deleted[i]
        }),
    decreases k,
{
    let order = latest_first(patches);
    let chunks = names + patches;
    if k == 0 {
        assert(patches.take(patches.len() as int) =~= patches);
        assert(order.take(0) =~= Seq::<ChunkNameView>::empty());
    } else {
        lemma_taken_back(names, patches, k - 1);
        let before = removal(order.take(k - 1), chunks);
        let at = patches.len() - k;
        let rest = names + patches.take(at);
        assert(order.take(k) =~= order.take(k - 1).push(patches[at]));
        assert(before.left =~= rest.push(patches[at]));
        assert(made_last(names, patches, at));
        lemma_one_deleted(order.take(k - 1), chunks, rest, patches[at]);
    }
}

/// No archive that is there when a patch is made has a higher patch number in
/// the same sub chunk. (Within one patch of the base this always holds of new
/// patches.)
pub open spec fn last_of_their_sub_chunks(
    names: Seq<ChunkNameView>,
    patches: Seq<ChunkNameView>,
) -> bool {
    forall|i: int, j: int|
        0 <= i < patches.len() && 0 <= j < names.len() + i && counts_for(
            #[trigger] (names + patches)[j],
            #[trigger] patches[i],
        ) ==> (names + patches)[j].sub_patch->0 <= patches[i].sub_patch->0
}

/// Restoring takes a run of patch mode back: removing the patches that it made,
/// the last one first, deletes every one of them and leaves the archives that
/// were there before.
pub proof fn restore_takes_patches_back(names: Seq<ChunkNameView>, selected: Seq<ChunkNameView>)
    requires
        forall|i: int| 0 <= i < selected.len() ==> (#[trigger] selected[i]).sub is Some,
        last_of_their_sub_chunks(names, crate::output::new_patches(names, selected)),
    ensures
        ({
            let patches = crate::output::new_patches(names, selected);
            let course = removal(latest_first(patches), names + patches);
            &&& course.left == names
            &&& course.deleted.len() == patches.len()
            &&& forall|i: int| 0 <= i < patches.len() ==> #[trigger] course.deleted[i]
        }),
{
    let patches = crate::output::new_patches(names, selected);
    assert forall|at: int| 0 <= at < patches.len() implies #[trigger] made_last(
        names,
        patches,
        at,
    ) by {
        lemma_made_last(names, selected, at);
    }
    lemma_taken_back(names, patches, patches.len() as int);
    assert(latest_first(patches).take(patches.len() as int) =~= latest_first(patches));
    assert(names + patches.take(0) =~= names);
}

/// The files after the steps of a removal; `empty` is the content of an empty
/// patch.
pub open spec fn cleaned(
    files: Map<PathView, Seq<u8>>,
    steps: Seq<PatchRemovalView>,
    empty: Seq<u8>,
) -> Map<PathView, Seq<u8>>
    decreases steps.len(),
{
    if steps.len() == 0 {
        files
    } else {
        let before = cleaned(files, steps.drop_last(), empty);
        if steps.last().deleted {
            before.remove(steps.last().path)
        } else {
            before.insert(steps.last().path, empty)
        }
    }
}

/// A removal leaves no patch as it was, and touches no other file: a patch file
/// is gone or empty afterwards, and every other file has its old content.
pub proof fn removal_touches_only_patches(
    files: Map<PathView, Seq<u8>>,
    steps: Seq<PatchRemovalView>,
    empty: Seq<u8>,
    path: PathView,
)
    ensures
        (exists|i: int| 0 <= i < steps.len() && (#[trigger] steps[i]).path == path) ==> (
        cleaned(files, steps, empty).contains_key(path) ==> cleaned(files, steps, empty)[path]
            == empty),
        (forall|i: int| 0 <= i < steps.len() ==> (#[trigger] steps[i]).path != path) ==> {
            &&& cleaned(files, steps, empty).contains_key(path) == files.contains_key(path)
            &&& cleaned(files, steps, empty)[path] == files[path]
        },
    decreases steps.len(),
{
    if steps.len() > 0 {
        let front = steps.drop_last();
        removal_touches_only_patches(files, front, empty, path);
        assert(steps[steps.len() - 1] == steps.last());
        if exists|i: int| 0 <= i < steps.len() && (#[trigger] steps[i]).path == path {
            let i = choose|i: int| 0 <= i < steps.len() && (#[trigger] steps[i]).path == path;
            if i < front.len() {
                assert(front[i].path == path);
            }
        } else {
            assert forall|i: int| 0 <= i < front.len() implies (#[trigger] front[i]).path
                != path by {
                assert(steps[i].path != path);
            }
        }
    }
}

/// An archive that a scan for archives lists is found again by a scan for traces
/// of earlier runs, whatever its content has become.
pub proof fn archives_are_found_again(name: Seq<char>)
    requires
        ".pak"@.is_suffix_of(name),
        crate::chunk::parsed(name) is Some,
    ensures
        is_archive_name(name),
{
    reveal_strlit(".pak");
    reveal_strlit(".pak.backup");
    reveal_strlit("re_chunk_");
    reveal_strlit("re_dlc_");
    assert(!is_backup_name(name)) by {
        let n = name.len() as int;
        assert(name[n - 1] == name.subrange(n - 4, n)[3]);
        if is_backup_name(name) {
            assert(name[n - 1] == name.subrange(n - 11, n)[10]);
        }
    }
    crate::chunk::lemma_first_part(name);
    let first = crate::text::dot_parts(name)[0];
    assert forall|i: int| 0 <= i < first.len() implies first[i] == name[i] by {
        assert(first[i] == name.subrange(0, first.len() as int)[i]);
    }
    if "re_chunk_"@.is_prefix_of(first) {
        assert("re_chunk_"@ =~= name.subrange(0, 9)) by {
            assert forall|i: int| 0 <= i < 9 implies "re_chunk_"@[i] == name[i] by {
                assert("re_chunk_"@[i] == first.subrange(0, 9)[i]);
            }
        }
    } else {
        assert("re_dlc_"@ =~= name.subrange(0, 7)) by {
            assert forall|i: int| 0 <= i < 7 implies "re_dlc_"@[i] == name[i] by {
                assert("re_dlc_"@[i] == first.subrange(0, 7)[i]);
            }
        }
    }
}

/// The file of a patch that a run makes is found again as that patch.
pub proof fn new_patches_are_found_again(entry: ToolEntry, patch: ChunkNameView)
    requires
        patch.well_formed(),
        entry.is_file,
        entry.path.name@ == crate::chunk::spelled(patch),
        entry.mark == Ok::<Option<PakMetadata>, MarkError>(
            Some(PakMetadata { full_package: false }),
        ),
    ensures
        chunks_in(seq![entry]) == seq![patch],
        tool_files_in(seq![entry]) == seq![
            ToolFileView { path: entry.path@, full_package: false },
        ],
{
    crate::chunk::spelling_reads_back(patch);
    crate::chunk::spellings_look_like_archives(patch);
    archives_are_found_again(entry.path.name@);
    let entries = seq![entry];
    lemma_nothing_scanned(entries);
    lemma_scan_step(entries, 0);
    assert(entries.take(1) =~= entries);
    assert(chunks_in(entries) =~= seq![patch]);
    assert(tool_files_in(entries) =~= seq![
        ToolFileView { path: entry.path@, full_package: false },
    ]);
}

/// The backup of an archive is found again as a backup, and a replacement that
/// was left in the making is nothing to a later scan.
pub proof fn backups_are_found_again(name: Seq<char>)
    requires
        ".pak"@.is_suffix_of(name),
        name.len() > 4,
    ensures
        is_backup_name(crate::path::renamed(name, "pak.backup"@)),
        !is_backup_name(crate::path::renamed(name, "pak.temp"@)),
        !".pak"@.is_suffix_of(crate::path::renamed(name, "pak.temp"@)),
{
    reveal_strlit(".");
    reveal_strlit(".pak");
    reveal_strlit("pak.backup");
    reveal_strlit("pak.temp");
    reveal_strlit(".pak.backup");
    crate::path::lemma_pak_stem(name);
    let backup = crate::path::renamed(name, "pak.backup"@);
    let b = backup.len() as int;
    assert(".pak.backup"@ =~= backup.subrange(b - 11, b));
    let temp = crate::path::renamed(name, "pak.temp"@);
    let t = temp.len() as int;
    assert(temp[t - 1] == 'p' && temp[t - 2] == 'm');
    if is_backup_name(temp) {
        assert(temp.subrange(t - 11, t)[9] == temp[t - 2]);
    }
    if ".pak"@.is_suffix_of(temp) {
        assert(temp.subrange(t - 4, t)[3] == temp[t - 1]);
    }
}

} // verus!
