//! Whole runs: what packing a selection changes among all the files, and that a
//! restore takes it back.

use vstd::prelude::*;

use crate::chunk::ChunkNameView;
use crate::output::JobView;
use crate::path::PathView;
use crate::restore::{PatchFileView, PatchRemovalView, ToolEntry, ToolFileView};
use crate::selection::ChunkSelection;

verus! {

/// The files after a job: its archive is written with this content, and in
/// replace mode takes the place of its original.
pub open spec fn job_done(
    files: Map<PathView, Seq<u8>>,
    job: JobView,
    content: Seq<u8>,
    use_replace_mode: bool,
) -> Map<PathView, Seq<u8>> {
    let written = files.insert(job.output, content);
    if use_replace_mode {
        crate::files::all_applied(
            written,
            crate::files::replacement_ops(
                job.input,
                job.output,
                written.contains_key(crate::files::backup_of(job.input)),
            ),
        )
    } else {
        written
    }
}

/// The files after several jobs, one after the other; `contents` are those of the
/// archives that they write.
pub open spec fn jobs_done(
    files: Map<PathView, Seq<u8>>,
    jobs: Seq<JobView>,
    contents: Seq<Seq<u8>>,
    use_replace_mode: bool,
) -> Map<PathView, Seq<u8>>
    decreases jobs.len(),
{
    if jobs.len() == 0 {
        files
    } else {
        job_done(
            jobs_done(files, jobs.drop_last(), contents, use_replace_mode),
            jobs.last(),
            contents[jobs.len() - 1],
            use_replace_mode,
        )
    }
}

/// Whether the places are those of different archives that are there.
pub open spec fn are_there(files: Map<PathView, Seq<u8>>, paths: Seq<PathView>) -> bool {
    &&& forall|i: int|
        0 <= i < paths.len() ==> crate::restore::is_archive_name((#[trigger] paths[i]).name)
            && files.contains_key(paths[i])
    &&& forall|i: int, j: int|
        0 <= i < j < paths.len() ==> #[trigger] paths[i] != #[trigger] paths[j]
}

/// The jobs that write the replacements of several archives.
spec fn replace_jobs(paths: Seq<PathView>) -> Seq<JobView> {
    paths.map_values(|p: PathView| crate::output::replace_job(p))
}

/// The place of the replacement in the making.
spec fn temp_of(path: PathView) -> PathView {
    path.with_extension("pak.temp"@)
}

/// Whether `path` is none of the places that replacing these archives touches.
spec fn is_apart(paths: Seq<PathView>, path: PathView) -> bool {
    forall|i: int|
        0 <= i < paths.len() ==> #[trigger] paths[i] != path && crate::files::backup_of(paths[i])
            != path && temp_of(paths[i]) != path
}

/// The files after the replacement of one archive.
proof fn lemma_one_replaced(files: Map<PathView, Seq<u8>>, path: PathView, content: Seq<u8>)
    requires
        crate::restore::is_archive_name(path.name),
        files.contains_key(path),
    ensures
        job_done(files, crate::output::replace_job(path), content, true) == files.remove(
            temp_of(path),
        ).insert(path, content).insert(crate::files::backup_of(path), files[path]),
{
    crate::undo::lemma_side_places(path, path);
    crate::undo::lemma_archive_name(path.name);
    let written = files.insert(temp_of(path), content);
    crate::files::replacement_keeps_a_backup(written, path);
    assert(written.remove(temp_of(path)) =~= files.remove(temp_of(path)));
}

/// The replacement of several archives is that of the last one after that of the
/// others.
proof fn lemma_last_replaced(
    files: Map<PathView, Seq<u8>>,
    paths: Seq<PathView>,
    contents: Seq<Seq<u8>>,
)
    requires
        are_there(files, paths),
        paths.len() > 0,
        jobs_done(files, replace_jobs(paths.drop_last()), contents, true).contains_key(
            paths.last(),
        ),
    ensures
        are_there(files, paths.drop_last()),
        ({
            let before = jobs_done(files, replace_jobs(paths.drop_last()), contents, true);
            let last = paths.last();
            jobs_done(files, replace_jobs(paths), contents, true) == before.remove(
                temp_of(last),
            ).insert(last, contents[paths.len() - 1]).insert(
                crate::files::backup_of(last),
                before[last],
            )
        }),
{
    let front = paths.drop_last();
    let last = paths.last();
    assert(paths[front.len() as int] == last);
    assert forall|i: int| 0 <= i < front.len() implies #[trigger] front[i] == paths[i] by {}
    assert(replace_jobs(paths).drop_last() =~= replace_jobs(front));
    let before = jobs_done(files, replace_jobs(front), contents, true);
    lemma_one_replaced(before, last, contents[paths.len() - 1]);
}

/// Replacing archives touches no other place.
proof fn lemma_replaced_apart(
    files: Map<PathView, Seq<u8>>,
    paths: Seq<PathView>,
    contents: Seq<Seq<u8>>,
    path: PathView,
)
    requires
        are_there(files, paths),
        is_apart(paths, path),
    ensures
        jobs_done(files, replace_jobs(paths), contents, true).contains_key(path)
            == files.contains_key(path),
        jobs_done(files, replace_jobs(paths), contents, true)[path] == files[path],
    decreases paths.len(),
{
    if paths.len() > 0 {
        let front = paths.drop_last();
        let last = paths.last();
        let n = front.len() as int;
        assert(paths[n] == last);
        assert forall|i: int| 0 <= i < n implies #[trigger] front[i] == paths[i] by {}
        lemma_replaced_apart(files, front, contents, path);
        lemma_apart_from_front(files, paths);
        lemma_replaced_apart(files, front, contents, last);
        lemma_last_replaced(files, paths, contents);
    }
}

/// The places of the last archive are not those of the others.
proof fn lemma_apart_from_front(files: Map<PathView, Seq<u8>>, paths: Seq<PathView>)
    requires
        are_there(files, paths),
        paths.len() > 0,
    ensures
        are_there(files, paths.drop_last()),
        is_apart(paths.drop_last(), paths.last()),
{
    let front = paths.drop_last();
    let last = paths.last();
    assert(paths[front.len() as int] == last);
    assert forall|i: int| 0 <= i < front.len() implies #[trigger] front[i] == paths[i] by {}
    assert forall|i: int| 0 <= i < front.len() implies #[trigger] front[i] != last
        && crate::files::backup_of(front[i]) != last && temp_of(front[i]) != last by {
        assert(paths[i] != paths[front.len() as int]);
        crate::undo::lemma_side_places(paths[i], last);
    }
}

/// What replacing several archives does to the places of one of them.
proof fn lemma_replaced_at(
    files: Map<PathView, Seq<u8>>,
    paths: Seq<PathView>,
    contents: Seq<Seq<u8>>,
    i: int,
)
    requires
        are_there(files, paths),
        0 <= i < paths.len(),
    ensures
        ({
            let done = jobs_done(files, replace_jobs(paths), contents, true);
            &&& done.contains_key(paths[i])
            &&& done[paths[i]] == contents[i]
            &&& done.contains_key(crate::files::backup_of(paths[i]))
            &&& done[crate::files::backup_of(paths[i])] == files[paths[i]]
            &&& !done.contains_key(temp_of(paths[i]))
        }),
    decreases paths.len(),
{
    let front = paths.drop_last();
    let last = paths.last();
    let n = front.len() as int;
    assert(paths[n] == last);
    lemma_apart_from_front(files, paths);
    lemma_replaced_apart(files, front, contents, last);
    lemma_last_replaced(files, paths, contents);
    crate::undo::lemma_side_places(paths[i], last);
    crate::undo::lemma_side_places(last, paths[i]);
    if i < n {
        assert(front[i] == paths[i]);
        lemma_replaced_at(files, front, contents, i);
        assert(paths[i] != paths[n]);
    }
}

/// Whether an archive can be replaced and had back: nothing is at the places of
/// its backup and of its replacement in the making.
pub open spec fn has_room(files: Map<PathView, Seq<u8>>, path: PathView) -> bool {
    &&& !files.contains_key(crate::files::backup_of(path))
    &&& !files.contains_key(path.with_extension("pak.temp"@))
}

/// After archives without marks were replaced, the files of this tool are the
/// replacements.
proof fn lemma_tools_after_replacing(
    files: Map<PathView, Seq<u8>>,
    paths: Seq<PathView>,
    contents: Seq<Seq<u8>>,
    entries: Seq<ToolEntry>,
    marks: spec_fn(Seq<u8>) -> Option<bool>,
)
    requires
        are_there(files, paths),
        forall|i: int| 0 <= i < paths.len() ==> marks(#[trigger] contents[i]) == Some(true),
        forall|path: PathView| #[trigger]
            files.contains_key(path) && crate::restore::is_archive_name(path.name) ==> marks(
                files[path],
            ) is None,
        crate::undo::describes(
            entries,
            jobs_done(files, replace_jobs(paths), contents, true),
            marks,
        ),
    ensures
        forall|k: int|
            0 <= k < crate::restore::tool_files_in(entries).len() ==> {
                let f = #[trigger] crate::restore::tool_files_in(entries)[k];
                f.full_package && paths.contains(f.path)
            },
        forall|i: int|
            0 <= i < paths.len() ==> exists|k: int|
                0 <= k < crate::restore::tool_files_in(entries).len()
                    && #[trigger] crate::restore::tool_files_in(entries)[k] == (ToolFileView {
                    path: #[trigger] paths[i],
                    full_package: true,
                }),
{
    let done = jobs_done(files, replace_jobs(paths), contents, true);
    let tools = crate::restore::tool_files_in(entries);
    crate::undo::lemma_tools(entries, done, marks);
    assert forall|k: int| 0 <= k < tools.len() implies {
        let f = #[trigger] tools[k];
        f.full_package && paths.contains(f.path)
    } by {
        let path = tools[k].path;
        if paths.contains(path) {
            let i = choose|i: int| 0 <= i < paths.len() && paths[i] == path;
            lemma_replaced_at(files, paths, contents, i);
            assert(marks(contents[i]) == Some(true));
        } else {
            assert(is_apart(paths, path)) by {
                assert forall|i: int| 0 <= i < paths.len() implies #[trigger] paths[i] != path
                    && crate::files::backup_of(paths[i]) != path && temp_of(paths[i]) != path by {
                    crate::undo::lemma_side_places(paths[i], path);
                }
            }
            lemma_replaced_apart(files, paths, contents, path);
            assert(files.contains_key(path));
        }
    }
    assert forall|i: int| 0 <= i < paths.len() implies exists|k: int|
        0 <= k < tools.len() && #[trigger] tools[k] == (ToolFileView {
            path: #[trigger] paths[i],
            full_package: true,
        }) by {
        lemma_replaced_at(files, paths, contents, i);
        assert(done.contains_key(paths[i]));
        let e = choose|e: int|
            0 <= e < entries.len() && (#[trigger] entries[e]).is_file && entries[e].path@
                == paths[i];
        assert(marks(contents[i]) == Some(true));
        let k = crate::undo::lemma_tool_to(entries, e);
        assert(tools[k] == (ToolFileView { path: paths[i], full_package: true }));
    }
}

/// Restoring after a replacing run gives every place what it had.
proof fn lemma_replacing_undone(
    files: Map<PathView, Seq<u8>>,
    paths: Seq<PathView>,
    contents: Seq<Seq<u8>>,
    tools: Seq<ToolFileView>,
    path: PathView,
)
    requires
        are_there(files, paths),
        forall|i: int| 0 <= i < paths.len() ==> has_room(files, #[trigger] paths[i]),
        crate::undo::are_archives(tools),
        forall|k: int|
            0 <= k < tools.len() ==> (#[trigger] tools[k]).full_package && paths.contains(
                tools[k].path,
            ),
        forall|i: int|
            0 <= i < paths.len() ==> exists|k: int|
                0 <= k < tools.len() && #[trigger] tools[k] == (ToolFileView {
                    path: #[trigger] paths[i],
                    full_package: true,
                }),
    ensures
        ({
            let done = jobs_done(files, replace_jobs(paths), contents, true);
            let after = crate::undo::backups_restored(done, tools);
            &&& after.contains_key(path) == files.contains_key(path)
            &&& files.contains_key(path) ==> after[path] == files[path]
        }),
{
    let done = jobs_done(files, replace_jobs(paths), contents, true);
    crate::undo::lemma_backups_restored(done, tools, path);
    if paths.contains(path) {
        let i = choose|i: int| 0 <= i < paths.len() && paths[i] == path;
        lemma_replaced_at(files, paths, contents, i);
        let k = choose|k: int|
            0 <= k < tools.len() && #[trigger] tools[k] == (ToolFileView {
                path: paths[i],
                full_package: true,
            });
        assert(tools[k].full_package && tools[k].path == path);
        assert(crate::undo::gives_way(done, tools, path));
    } else {
        assert(!crate::undo::gives_way(done, tools, path));
        if exists|i: int|
            0 <= i < paths.len() && crate::files::backup_of(#[trigger] paths[i]) == path {
            let i = choose|i: int|
                0 <= i < paths.len() && crate::files::backup_of(#[trigger] paths[i]) == path;
            let k = choose|k: int|
                0 <= k < tools.len() && #[trigger] tools[k] == (ToolFileView {
                    path: paths[i],
                    full_package: true,
                });
            assert(tools[k].full_package && crate::files::backup_of(tools[k].path) == path);
            assert(crate::undo::is_used_up(tools, path));
            assert(has_room(files, paths[i]));
        } else {
            assert(!crate::undo::is_used_up(tools, path)) by {
                if crate::undo::is_used_up(tools, path) {
                    let k = choose|k: int|
                        0 <= k < tools.len() && (#[trigger] tools[k]).full_package
                            && crate::files::backup_of(tools[k].path) == path;
                    let i = choose|i: int| 0 <= i < paths.len() && paths[i] == tools[k].path;
                    assert(crate::files::backup_of(paths[i]) == path);
                }
            }
            if exists|i: int| 0 <= i < paths.len() && temp_of(#[trigger] paths[i]) == path {
                let i = choose|i: int| 0 <= i < paths.len() && temp_of(#[trigger] paths[i]) == path;
                lemma_replaced_at(files, paths, contents, i);
                assert(has_room(files, paths[i]));
            } else {
                assert(is_apart(paths, path)) by {
                    assert forall|i: int| 0 <= i < paths.len() implies #[trigger] paths[i] != path
                        && crate::files::backup_of(paths[i]) != path && temp_of(paths[i])
                        != path by {
                        assert(paths.contains(paths[i]));
                    }
                }
                lemma_replaced_apart(files, paths, contents, path);
            }
        }
    }
}

/// The places of the selected archives.
pub open spec fn selected_paths(selected: Seq<ChunkSelection>) -> Seq<PathView> {
    selected.map_values(|c: ChunkSelection| c@.path)
}

/// Replace mode and back: a restore takes a whole run of replace mode back. Where
/// no archive was one of this tool before, and nothing was at the places of the
/// backups and of the replacements in the making, every file is again as it was
/// before the run, whatever the run has written into the replacements. What a job
/// writes carries the mark of a full package exactly if the job asks for one.
pub proof fn restore_undoes_a_replacing_run(
    files: Map<PathView, Seq<u8>>,
    selected: Seq<ChunkSelection>,
    all: Seq<ChunkSelection>,
    contents: Seq<Seq<u8>>,
    entries: Seq<ToolEntry>,
    marks: spec_fn(Seq<u8>) -> Option<bool>,
    empty: Seq<u8>,
)
    requires
        are_there(files, selected_paths(selected)),
        forall|i: int|
            0 <= i < selected.len() ==> has_room(files, #[trigger] selected_paths(selected)[i]),
        contents.len() == selected.len(),
        forall|i: int|
            0 <= i < selected.len() ==> marks(#[trigger] contents[i]) == Some(
                crate::output::auto_jobs(selected, all, true)[i].use_full_package_mode,
            ),
        forall|path: PathView| #[trigger]
            files.contains_key(path) && crate::restore::is_archive_name(path.name) ==> marks(
                files[path],
            ) is None,
        crate::undo::describes(
            entries,
            jobs_done(files, crate::output::auto_jobs(selected, all, true), contents, true),
            marks,
        ),
    ensures
        crate::undo::restored(
            jobs_done(files, crate::output::auto_jobs(selected, all, true), contents, true),
            entries,
            empty,
        ) == files,
{
    let paths = selected_paths(selected);
    let jobs = crate::output::auto_jobs(selected, all, true);
    assert(jobs =~= replace_jobs(paths));
    assert forall|i: int| 0 <= i < paths.len() implies marks(#[trigger] contents[i]) == Some(
        true,
    ) by {
        assert(jobs[i] == crate::output::replace_job(paths[i]));
    }
    let done = jobs_done(files, jobs, contents, true);
    let tools = crate::restore::tool_files_in(entries);
    crate::undo::lemma_tools(entries, done, marks);
    lemma_tools_after_replacing(files, paths, contents, entries, marks);
    crate::undo::lemma_no_patches(entries);
    let after = crate::undo::backups_restored(done, tools);
    assert forall|path: PathView|
        #![trigger after.dom().contains(path)]
        #![trigger files.dom().contains(path)]
        after.dom().contains(path) == files.dom().contains(path) && (files.dom().contains(path)
            ==> after[path] == files[path]) by {
        lemma_replacing_undone(files, paths, contents, tools, path);
    }
    assert(after =~= files);
}

/// What writing archives at new places does to these places.
proof fn lemma_written_at(
    files: Map<PathView, Seq<u8>>,
    jobs: Seq<JobView>,
    contents: Seq<Seq<u8>>,
    i: int,
)
    requires
        0 <= i < jobs.len(),
        forall|j: int, k: int|
            0 <= j < k < jobs.len() ==> (#[trigger] jobs[j]).output != (#[trigger] jobs[k]).output,
    ensures
        jobs_done(files, jobs, contents, false).contains_key(jobs[i].output),
        jobs_done(files, jobs, contents, false)[jobs[i].output] == contents[i],
    decreases jobs.len(),
{
    let front = jobs.drop_last();
    let n = front.len() as int;
    assert(jobs[n] == jobs.last());
    if i < n {
        assert forall|k: int| 0 <= k < n implies #[trigger] front[k] == jobs[k] by {}
        lemma_written_at(files, front, contents, i);
        assert(jobs[i].output != jobs[n].output);
    }
}

/// Writing archives touches no other place.
proof fn lemma_written_apart(
    files: Map<PathView, Seq<u8>>,
    jobs: Seq<JobView>,
    contents: Seq<Seq<u8>>,
    path: PathView,
)
    requires
        forall|i: int| 0 <= i < jobs.len() ==> (#[trigger] jobs[i]).output != path,
    ensures
        jobs_done(files, jobs, contents, false).contains_key(path) == files.contains_key(path),
        jobs_done(files, jobs, contents, false)[path] == files[path],
    decreases jobs.len(),
{
    if jobs.len() > 0 {
        let front = jobs.drop_last();
        assert(jobs[front.len() as int] == jobs.last());
        assert forall|k: int| 0 <= k < front.len() implies #[trigger] front[k] == jobs[k] by {}
        lemma_written_apart(files, front, contents, path);
    }
}

/// Whether a list holds every archive of the files whose name can be read.
pub open spec fn lists_all(all: Seq<ChunkSelection>, files: Map<PathView, Seq<u8>>) -> bool {
    &&& forall|k: int| 0 <= k < all.len() ==> crate::selection::fits_its_file((#[trigger] all[k])@)
    &&& forall|path: PathView| #[trigger]
        files.contains_key(path) && crate::restore::is_archive_name(path.name)
            && crate::chunk::parsed(path.name) is Some ==> exists|k: int|
            0 <= k < all.len() && (#[trigger] all[k])@.path == path
}

/// Whether the selected archives can be processed.
pub open spec fn are_processable(selected: Seq<ChunkSelection>) -> bool {
    forall|k: int|
        0 <= k < selected.len() ==> crate::output::is_processable(#[trigger] selected[k])
}

/// Whether no two of the selected archives are of one sequence.
pub open spec fn are_of_different_sequences(selected: Seq<ChunkSelection>) -> bool {
    forall|i: int, j: int|
        0 <= i < j < selected.len() ==> !crate::restore::same_sequence(
            (#[trigger] selected[i])@.name,
            (#[trigger] selected[j])@.name,
        )
}

/// The patches that a run makes are archives at new places, each of the sequence
/// of its original and with a number of its own.
proof fn lemma_patches_made(
    files: Map<PathView, Seq<u8>>,
    selected: Seq<ChunkSelection>,
    all: Seq<ChunkSelection>,
    i: int,
)
    requires
        lists_all(all, files),
        are_processable(selected),
        0 <= i < crate::output::auto_jobs(selected, all, false).len(),
    ensures
        ({
            let jobs = crate::output::auto_jobs(selected, all, false);
            let patches = crate::output::new_patches(
                crate::output::selected_names(all),
                crate::output::selected_names(selected),
            );
            &&& patches.len() == jobs.len()
            &&& jobs.len() <= selected.len()
            &&& crate::chunk::parsed(jobs[i].output.name) == Some(patches[i])
            &&& crate::restore::is_archive_name(jobs[i].output.name)
            &&& crate::restore::own_number(patches[i]) == patches[i].sub_patch
            &&& patches[i].sub_patch is Some
            &&& !files.contains_key(jobs[i].output)
            &&& forall|j: int|
                0 <= j < jobs.len() && j != i ==> (#[trigger] jobs[j]).output != jobs[i].output
            &&& patches[i].sub is Some
            &&& crate::restore::same_sequence(patches[i], selected[i]@.name)
        }),
{
    let names = crate::output::selected_names(all);
    let picks = crate::output::selected_names(selected);
    let patches = crate::output::new_patches(names, picks);
    let jobs = crate::output::auto_jobs(selected, all, false);
    assert forall|k: int| 0 <= k < names.len() implies (#[trigger] names[k]).well_formed() by {
        assert(crate::selection::fits_its_file(all[k]@));
        crate::chunk::parsed_names_are_well_formed(all[k]@.path.name);
    }
    assert forall|k: int| 0 <= k < picks.len() implies (#[trigger] picks[k]).well_formed()
        && picks[k].sub is Some by {
        assert(crate::output::is_processable(selected[k]));
        crate::chunk::parsed_names_are_well_formed(selected[k]@.path.name);
    }
    crate::output::patch_files_are_new(names, picks, i);
    crate::output::new_patches_come_last(names, picks, i);
    crate::chunk::spelling_reads_back(patches[i]);
    crate::chunk::spellings_look_like_archives(patches[i]);
    crate::restore::archives_are_found_again(jobs[i].output.name);
    crate::output::patch_jobs_overwrite_nothing(selected, all, i);
    crate::output::new_patches_come_last(names, picks, jobs.len() - 1);
    assert(picks[i].sub is Some);
    if files.contains_key(jobs[i].output) {
        let k = choose|k: int|
            0 <= k < all.len() && (#[trigger] all[k])@.path == jobs[i].output;
        assert(all[k]@.path.name != jobs[i].output.name);
    }
    assert(picks[i] == selected[i]@.name);
}

/// The patches that a run in patch mode makes.
pub open spec fn patches_made(
    selected: Seq<ChunkSelection>,
    all: Seq<ChunkSelection>,
) -> Seq<ChunkNameView> {
    crate::output::new_patches(
        crate::output::selected_names(all),
        crate::output::selected_names(selected),
    )
}

/// Whether none of the names comes after one of the patches. Of the patches that a
/// run makes this holds within one patch of the base.
pub open spec fn come_last(names: Seq<ChunkNameView>, patches: Seq<ChunkNameView>) -> bool {
    forall|i: int, j: int|
        0 <= i < patches.len() && 0 <= j < names.len() ==> !crate::restore::is_above(
            #[trigger] names[j],
            #[trigger] patches[i],
        )
}

/// Whether `path` is that of a patch that a run makes.
spec fn is_made(jobs: Seq<JobView>, path: PathView) -> bool {
    exists|i: int| 0 <= i < jobs.len() && (#[trigger] jobs[i]).output == path
}

/// After a run in patch mode over archives without marks, the files of this tool
/// are the patches that it made.
proof fn lemma_tools_after_patching(
    files: Map<PathView, Seq<u8>>,
    selected: Seq<ChunkSelection>,
    all: Seq<ChunkSelection>,
    contents: Seq<Seq<u8>>,
    entries: Seq<ToolEntry>,
    marks: spec_fn(Seq<u8>) -> Option<bool>,
)
    requires
        lists_all(all, files),
        are_processable(selected),
        forall|i: int|
            0 <= i < crate::output::auto_jobs(selected, all, false).len() ==> marks(
                #[trigger] contents[i],
            ) == Some(false),
        forall|path: PathView| #[trigger]
            files.contains_key(path) && crate::restore::is_archive_name(path.name) ==> marks(
                files[path],
            ) is None,
        crate::undo::describes(
            entries,
            jobs_done(files, crate::output::auto_jobs(selected, all, false), contents, false),
            marks,
        ),
    ensures
        ({
            let jobs = crate::output::auto_jobs(selected, all, false);
            let tools = crate::restore::tool_files_in(entries);
            &&& forall|k: int|
                0 <= k < tools.len() ==> !(#[trigger] tools[k]).full_package && is_made(
                    jobs,
                    tools[k].path,
                )
            &&& forall|i: int|
                0 <= i < jobs.len() ==> exists|k: int|
                    0 <= k < tools.len() && (#[trigger] tools[k]).path == (
                    #[trigger] jobs[i]).output
        }),
{
    let jobs = crate::output::auto_jobs(selected, all, false);
    let done = jobs_done(files, jobs, contents, false);
    let tools = crate::restore::tool_files_in(entries);
    crate::undo::lemma_tools(entries, done, marks);
    assert forall|j: int, k: int| 0 <= j < k < jobs.len() implies (#[trigger] jobs[j]).output != (
    #[trigger] jobs[k]).output by {
        lemma_patches_made(files, selected, all, k);
    }
    assert forall|k: int| 0 <= k < tools.len() implies !(#[trigger] tools[k]).full_package
        && is_made(jobs, tools[k].path) by {
        let path = tools[k].path;
        if is_made(jobs, path) {
            let i = choose|i: int| 0 <= i < jobs.len() && (#[trigger] jobs[i]).output == path;
            lemma_written_at(files, jobs, contents, i);
            assert(marks(contents[i]) == Some(false));
        } else {
            lemma_written_apart(files, jobs, contents, path);
            assert(files.contains_key(path));
        }
    }
    assert forall|i: int| 0 <= i < jobs.len() implies exists|k: int|
        0 <= k < tools.len() && (#[trigger] tools[k]).path == (#[trigger] jobs[i]).output by {
        lemma_written_at(files, jobs, contents, i);
        lemma_patches_made(files, selected, all, i);
        assert(done.contains_key(jobs[i].output));
        let e = choose|e: int|
            0 <= e < entries.len() && (#[trigger] entries[e]).is_file && entries[e].path@
                == jobs[i].output;
        assert(marks(contents[i]) == Some(false));
        let k = crate::undo::lemma_tool_to(entries, e);
        assert(tools[k].path == jobs[i].output);
    }
}

/// Patches that a run made for archives of different sequences are found in
/// order, however the directory lists them.
pub proof fn patches_of_different_sequences_are_in_order(
    files: Map<PathView, Seq<u8>>,
    selected: Seq<ChunkSelection>,
    all: Seq<ChunkSelection>,
    contents: Seq<Seq<u8>>,
    entries: Seq<ToolEntry>,
    marks: spec_fn(Seq<u8>) -> Option<bool>,
)
    requires
        lists_all(all, files),
        are_processable(selected),
        are_of_different_sequences(selected),
        contents.len() == selected.len(),
        forall|i: int|
            0 <= i < crate::output::auto_jobs(selected, all, false).len() ==> marks(
                #[trigger] contents[i],
            ) == Some(crate::output::auto_jobs(selected, all, false)[i].use_full_package_mode),
        forall|path: PathView| #[trigger]
            files.contains_key(path) && crate::restore::is_archive_name(path.name) ==> marks(
                files[path],
            ) is None,
        crate::undo::describes(
            entries,
            jobs_done(files, crate::output::auto_jobs(selected, all, false), contents, false),
            marks,
        ),
    ensures
        crate::undo::are_in_order(crate::undo::patches_found(entries)),
{
    let jobs = crate::output::auto_jobs(selected, all, false);
    let done = jobs_done(files, jobs, contents, false);
    let tools = crate::restore::tool_files_in(entries);
    let found = crate::undo::patches_found(entries);
    let keep = |f: ToolFileView| crate::restore::is_patch(f);
    if jobs.len() > 0 {
        lemma_patches_made(files, selected, all, 0);
    }
    crate::undo::lemma_tools(entries, done, marks);
    lemma_tools_after_patching(files, selected, all, contents, entries, marks);
    assert forall|m: int| 0 <= m < found.len() implies crate::restore::is_placed(
        (#[trigger] found[m]).name,
    ) by {
        let k = crate::undo::lemma_patch_from(tools, m);
        let i = choose|i: int| 0 <= i < jobs.len() && (#[trigger] jobs[i]).output == tools[k].path;
        lemma_patches_made(files, selected, all, i);
    }
    assert forall|m: int, n: int| 0 <= m < n < found.len() implies !crate::restore::is_above(
        (#[trigger] found[m]).name,
        (#[trigger] found[n]).name,
    ) by {
        let r = crate::undo::lemma_kept_order(tools, keep, m, n);
        assert(tools[r.0].path != tools[r.1].path);
        let i = choose|i: int|
            0 <= i < jobs.len() && (#[trigger] jobs[i]).output == tools[r.0].path;
        let j = choose|j: int|
            0 <= j < jobs.len() && (#[trigger] jobs[j]).output == tools[r.1].path;
        lemma_patches_made(files, selected, all, i);
        lemma_patches_made(files, selected, all, j);
        if i < j {
            assert(!crate::restore::same_sequence(selected[i]@.name, selected[j]@.name));
        } else {
            assert(!crate::restore::same_sequence(selected[j]@.name, selected[i]@.name));
        }
    }
}

/// No archive that was there before a run in patch mode comes after a patch that
/// the run made.
proof fn lemma_made_highest(
    files: Map<PathView, Seq<u8>>,
    selected: Seq<ChunkSelection>,
    all: Seq<ChunkSelection>,
    i: int,
    path: PathView,
)
    requires
        lists_all(all, files),
        are_processable(selected),
        come_last(crate::output::selected_names(all), patches_made(selected, all)),
        0 <= i < crate::output::auto_jobs(selected, all, false).len(),
        files.contains_key(path),
        crate::restore::is_archive_name(path.name),
        crate::chunk::parsed(path.name) is Some,
    ensures
        !crate::restore::is_above(
            crate::chunk::parsed(path.name)->0,
            patches_made(selected, all)[i],
        ),
{
    let names = crate::output::selected_names(all);
    let patches = patches_made(selected, all);
    lemma_patches_made(files, selected, all, i);
    let k = choose|k: int| 0 <= k < all.len() && (#[trigger] all[k])@.path == path;
    assert(crate::selection::fits_its_file(all[k]@));
    assert(!crate::restore::is_above(names[k], patches[i]));
}

/// Of patches that are found in order, one that comes after another is removed
/// before it.
proof fn lemma_none_found_above(found: Seq<PatchFileView>, t: int, m: int)
    requires
        crate::undo::are_in_order(found),
        0 <= t < found.len(),
        0 <= m < found.len(),
        forall|u: int|
            0 <= u < t ==> #[trigger] crate::restore::removal_order(found)[u] != found[m].name,
    ensures
        !crate::restore::is_above(found[m].name, crate::restore::removal_order(found)[t]),
{
    let order = crate::restore::removal_order(found);
    let n = found.len() - 1 - t;
    assert(order[found.len() - 1 - m] == found[m].name);
    if m < n {
        assert(!crate::restore::is_above(found[m].name, found[n].name));
    }
}

/// Patches that a run made and that are found in order are all deleted.
proof fn lemma_all_deleted(
    files: Map<PathView, Seq<u8>>,
    selected: Seq<ChunkSelection>,
    all: Seq<ChunkSelection>,
    contents: Seq<Seq<u8>>,
    entries: Seq<ToolEntry>,
    marks: spec_fn(Seq<u8>) -> Option<bool>,
    s: int,
)
    requires
        lists_all(all, files),
        are_processable(selected),
        come_last(crate::output::selected_names(all), patches_made(selected, all)),
        crate::undo::describes(
            entries,
            jobs_done(files, crate::output::auto_jobs(selected, all, false), contents, false),
            marks,
        ),
        crate::undo::are_in_order(crate::undo::patches_found(entries)),
        ({
            let jobs = crate::output::auto_jobs(selected, all, false);
            let tools = crate::restore::tool_files_in(entries);
            &&& forall|k: int|
                0 <= k < tools.len() ==> !(#[trigger] tools[k]).full_package && is_made(
                    jobs,
                    tools[k].path,
                )
            &&& forall|i: int|
                0 <= i < jobs.len() ==> exists|k: int|
                    0 <= k < tools.len() && (#[trigger] tools[k]).path == (
                    #[trigger] jobs[i]).output
        }),
        0 <= s <= crate::undo::patch_steps(entries).len(),
    ensures
        forall|t: int| 0 <= t < s ==> (#[trigger] crate::undo::patch_steps(entries)[t]).deleted,
    decreases s,
{
    if s > 0 {
        let jobs = crate::output::auto_jobs(selected, all, false);
        let patches = patches_made(selected, all);
        let done = jobs_done(files, jobs, contents, false);
        let tools = crate::restore::tool_files_in(entries);
        let found = crate::undo::patches_found(entries);
        let chunks = crate::restore::chunks_in(entries);
        let order = crate::restore::removal_order(found);
        let steps = crate::undo::patch_steps(entries);
        let t = s - 1;
        lemma_all_deleted(files, selected, all, contents, entries, marks, t);
        crate::undo::lemma_a_step_each(entries);
        if !steps[t].deleted {
            let k = crate::undo::lemma_patch_from(tools, found.len() - 1 - t);
            let i = choose|i: int|
                0 <= i < jobs.len() && (#[trigger] jobs[i]).output == tools[k].path;
            lemma_patches_made(files, selected, all, i);
            assert(order[t] == patches[i]);
            let above = crate::undo::lemma_emptied_for_a_higher(order, chunks, t);
            let c = choose|c: int| 0 <= c < chunks.len() && chunks[c] == above;
            let e = crate::undo::lemma_chunk_from(entries, c);
            let path = entries[e].path@;
            assert(done.contains_key(path));
            if is_made(jobs, path) {
                let j = choose|j: int| 0 <= j < jobs.len() && (#[trigger] jobs[j]).output == path;
                lemma_patches_made(files, selected, all, j);
                let f = choose|f: int|
                    0 <= f < tools.len() && (#[trigger] tools[f]).path == jobs[j].output;
                let m = crate::undo::lemma_kept_to(
                    tools,
                    |f: ToolFileView| crate::restore::is_patch(f),
                    f,
                );
                assert(found[m] == crate::restore::patch_of(tools[f]));
                assert(found[m].name == above);
                assert forall|u: int| 0 <= u < t implies #[trigger] order[u] != found[m].name by {
                    assert(steps[u].deleted);
                    assert(crate::restore::removal(order, chunks).deleted[u]);
                }
                lemma_none_found_above(found, t, m);
            } else {
                lemma_written_apart(files, jobs, contents, path);
                lemma_made_highest(files, selected, all, i, path);
            }
        }
    }
}

/// Removing the patches that a run made gives every place what it had.
proof fn lemma_patching_undone(
    files: Map<PathView, Seq<u8>>,
    selected: Seq<ChunkSelection>,
    all: Seq<ChunkSelection>,
    contents: Seq<Seq<u8>>,
    tools: Seq<ToolFileView>,
    steps: Seq<PatchRemovalView>,
    empty: Seq<u8>,
    path: PathView,
)
    requires
        lists_all(all, files),
        are_processable(selected),
        forall|k: int|
            0 <= k < tools.len() ==> !(#[trigger] tools[k]).full_package && is_made(
                crate::output::auto_jobs(selected, all, false),
                tools[k].path,
            ),
        forall|i: int|
            0 <= i < crate::output::auto_jobs(selected, all, false).len() ==> exists|k: int|
                0 <= k < tools.len() && (#[trigger] tools[k]).path == (
                #[trigger] crate::output::auto_jobs(selected, all, false)[i]).output,
        ({
            let found = crate::restore::patches_among(tools);
            &&& steps.len() == found.len()
            &&& forall|i: int|
                0 <= i < steps.len() ==> (#[trigger] steps[i]).deleted && steps[i].path
                    == found[found.len() - 1 - i].path
            &&& forall|j: int, k: int|
                0 <= j < k < steps.len() ==> (#[trigger] steps[j]).path != (
                #[trigger] steps[k]).path
        }),
    ensures
        ({
            let done = jobs_done(
                files,
                crate::output::auto_jobs(selected, all, false),
                contents,
                false,
            );
            let after = crate::restore::cleaned(done, steps, empty);
            &&& after.contains_key(path) == files.contains_key(path)
            &&& files.contains_key(path) ==> after[path] == files[path]
        }),
{
    let jobs = crate::output::auto_jobs(selected, all, false);
    let done = jobs_done(files, jobs, contents, false);
    let found = crate::restore::patches_among(tools);
    if is_made(jobs, path) {
        let i = choose|i: int| 0 <= i < jobs.len() && (#[trigger] jobs[i]).output == path;
        lemma_patches_made(files, selected, all, i);
        let k = choose|k: int|
            0 <= k < tools.len() && (#[trigger] tools[k]).path == jobs[i].output;
        let m = crate::undo::lemma_kept_to(
            tools,
            |f: ToolFileView| crate::restore::is_patch(f),
            k,
        );
        assert(found[m] == crate::restore::patch_of(tools[k]));
        let s = found.len() - 1 - m;
        assert(steps[s].path == path);
        crate::undo::lemma_cleaned_at(done, steps, empty, s);
    } else {
        assert forall|s: int| 0 <= s < steps.len() implies (#[trigger] steps[s]).path != path by {
            let k = crate::undo::lemma_patch_from(tools, found.len() - 1 - s);
            assert(is_made(jobs, tools[k].path));
        }
        crate::restore::removal_touches_only_patches(done, steps, empty, path);
        lemma_written_apart(files, jobs, contents, path);
    }
}

/// Patch mode and back: a restore takes a whole run of patch mode back. Where no
/// archive was one of this tool before, none that was there comes after a patch
/// that the run made, and the patches of one sequence are found in ascending
/// order, every file is again as it was before the run.
pub proof fn restore_undoes_a_patching_run(
    files: Map<PathView, Seq<u8>>,
    selected: Seq<ChunkSelection>,
    all: Seq<ChunkSelection>,
    contents: Seq<Seq<u8>>,
    entries: Seq<ToolEntry>,
    marks: spec_fn(Seq<u8>) -> Option<bool>,
    empty: Seq<u8>,
)
    requires
        lists_all(all, files),
        are_processable(selected),
        come_last(crate::output::selected_names(all), patches_made(selected, all)),
        contents.len() == selected.len(),
        forall|i: int|
            0 <= i < crate::output::auto_jobs(selected, all, false).len() ==> marks(
                #[trigger] contents[i],
            ) == Some(crate::output::auto_jobs(selected, all, false)[i].use_full_package_mode),
        forall|path: PathView| #[trigger]
            files.contains_key(path) && crate::restore::is_archive_name(path.name) ==> marks(
                files[path],
            ) is None,
        crate::undo::describes(
            entries,
            jobs_done(files, crate::output::auto_jobs(selected, all, false), contents, false),
            marks,
        ),
        crate::undo::are_in_order(crate::undo::patches_found(entries)),
    ensures
        crate::undo::restored(
            jobs_done(files, crate::output::auto_jobs(selected, all, false), contents, false),
            entries,
            empty,
        ) == files,
{
    let jobs = crate::output::auto_jobs(selected, all, false);
    let done = jobs_done(files, jobs, contents, false);
    let tools = crate::restore::tool_files_in(entries);
    let steps = crate::undo::patch_steps(entries);
    if jobs.len() > 0 {
        lemma_patches_made(files, selected, all, 0);
    }
    crate::undo::lemma_tools(entries, done, marks);
    lemma_tools_after_patching(files, selected, all, contents, entries, marks);
    crate::undo::lemma_none_restored(done, tools);
    crate::undo::lemma_steps(entries, done, marks);
    crate::undo::lemma_a_step_each(entries);
    lemma_all_deleted(
        files,
        selected,
        all,
        contents,
        entries,
        marks,
        steps.len() as int,
    );
    let after = crate::undo::restored(done, entries, empty);
    assert forall|path: PathView|
        #![trigger after.dom().contains(path)]
        #![trigger files.dom().contains(path)]
        after.dom().contains(path) == files.dom().contains(path) && (files.dom().contains(path)
            ==> after[path] == files[path]) by {
        lemma_patching_undone(files, selected, all, contents, tools, steps, empty, path);
    }
    assert(after =~= files);
}

} // verus!
