//! Whole restores: what taking back what earlier runs did changes among all the
//! files of the searched directories.

use vstd::prelude::*;

use crate::chunk::ChunkNameView;
use crate::path::PathView;
use crate::restore::{PatchFileView, PatchRemovalView, ToolEntry, ToolFileView};

verus! {

/// The files after a file of this tool has given way to its backup. A file that
/// took no original's place, or whose backup is gone, stays.
pub open spec fn file_restored(
    files: Map<PathView, Seq<u8>>,
    file: ToolFileView,
) -> Map<PathView, Seq<u8>> {
    if file.full_package && files.contains_key(crate::files::backup_of(file.path)) {
        crate::files::all_applied(files, crate::files::restore_ops(file.path))
    } else {
        files
    }
}

/// The files after the files of this tool have given way to their backups, one
/// after the other.
pub open spec fn backups_restored(
    files: Map<PathView, Seq<u8>>,
    tools: Seq<ToolFileView>,
) -> Map<PathView, Seq<u8>>
    decreases tools.len(),
{
    if tools.len() == 0 {
        files
    } else {
        file_restored(backups_restored(files, tools.drop_last()), tools.last())
    }
}

/// The patches of this tool among the entries.
pub open spec fn patches_found(entries: Seq<ToolEntry>) -> Seq<PatchFileView> {
    crate::restore::patches_among(crate::restore::tool_files_in(entries))
}

/// The steps that remove the patches of this tool among the entries.
pub open spec fn patch_steps(entries: Seq<ToolEntry>) -> Seq<PatchRemovalView> {
    crate::restore::removal_steps(patches_found(entries), crate::restore::chunks_in(entries))
}

/// The files after a whole restore that found these entries: first the backups
/// are put back, then the patches are removed. `empty` is the content of an
/// empty patch.
pub open spec fn restored(
    files: Map<PathView, Seq<u8>>,
    entries: Seq<ToolEntry>,
    empty: Seq<u8>,
) -> Map<PathView, Seq<u8>> {
    crate::restore::cleaned(
        backups_restored(files, crate::restore::tool_files_in(entries)),
        patch_steps(entries),
        empty,
    )
}

/// The mark that was found on an entry: whether it is one of a full package.
pub open spec fn mark_of(entry: ToolEntry) -> Option<bool> {
    match entry.mark {
        Ok(Some(metadata)) => Some(metadata.full_package),
        _ => None,
    }
}

/// Whether the entries are those of the files: one for each, and on an archive
/// the mark that its content carries. `marks` says which mark a content carries.
pub open spec fn describes(
    entries: Seq<ToolEntry>,
    files: Map<PathView, Seq<u8>>,
    marks: spec_fn(Seq<u8>) -> Option<bool>,
) -> bool {
    &&& forall|i: int|
        0 <= i < entries.len() && (#[trigger] entries[i]).is_file ==> files.contains_key(
            entries[i].path@,
        )
    &&& forall|i: int, j: int|
        0 <= i < j < entries.len() && (#[trigger] entries[i]).is_file && (
        #[trigger] entries[j]).is_file ==> entries[i].path@ != entries[j].path@
    &&& forall|path: PathView| #[trigger]
        files.contains_key(path) ==> exists|i: int|
            0 <= i < entries.len() && (#[trigger] entries[i]).is_file && entries[i].path@ == path
    &&& forall|i: int|
        0 <= i < entries.len() && (#[trigger] entries[i]).is_file
            && crate::restore::is_archive_name(entries[i].path.name@) ==> mark_of(entries[i])
            == marks(files[entries[i].path@])
}

/// Whether the file at `path` gives way to its backup.
pub open spec fn gives_way(
    files: Map<PathView, Seq<u8>>,
    tools: Seq<ToolFileView>,
    path: PathView,
) -> bool {
    files.contains_key(crate::files::backup_of(path)) && exists|k: int|
        0 <= k < tools.len() && (#[trigger] tools[k]).full_package && tools[k].path == path
}

/// Whether `path` is the backup of a file that gives way to it.
pub open spec fn is_used_up(tools: Seq<ToolFileView>, path: PathView) -> bool {
    exists|k: int|
        0 <= k < tools.len() && (#[trigger] tools[k]).full_package && crate::files::backup_of(
            tools[k].path,
        ) == path
}

/// Whether the files of this tool are different archives.
pub open spec fn are_archives(tools: Seq<ToolFileView>) -> bool {
    &&& forall|k: int|
        0 <= k < tools.len() ==> crate::restore::is_archive_name((#[trigger] tools[k]).path.name)
    &&& forall|j: int, k: int|
        0 <= j < k < tools.len() ==> (#[trigger] tools[j]).path != (#[trigger] tools[k]).path
}

/// The names of the backup and of the replacement in the making of an archive.
pub proof fn lemma_archive_name(name: Seq<char>)
    requires
        crate::restore::is_archive_name(name),
    ensures
        name.len() > 4,
        ".pak"@.is_suffix_of(name),
        crate::path::is_file_name(name),
        crate::path::renamed(name, "pak.backup"@) == name + ".backup"@,
        crate::path::renamed(name, "pak.temp"@) == name + ".temp"@,
        !".pak"@.is_suffix_of(name + ".backup"@),
        !".pak"@.is_suffix_of(name + ".temp"@),
{
    reveal_strlit(".");
    reveal_strlit(".pak");
    reveal_strlit("pak.backup");
    reveal_strlit("pak.temp");
    reveal_strlit(".backup");
    reveal_strlit(".temp");
    reveal_strlit("re_chunk_");
    reveal_strlit("re_dlc_");
    crate::path::lemma_pak_stem(name);
    let stem = crate::path::stem(name);
    assert(stem + "."@ + "pak.backup"@ =~= stem + ".pak"@ + ".backup"@);
    assert(stem + "."@ + "pak.temp"@ =~= stem + ".pak"@ + ".temp"@);
    let backup = name + ".backup"@;
    let b = backup.len() as int;
    if ".pak"@.is_suffix_of(backup) {
        assert(backup.subrange(b - 4, b)[3] == backup[b - 1]);
    }
    let temp = name + ".temp"@;
    let t = temp.len() as int;
    if ".pak"@.is_suffix_of(temp) {
        assert(temp.subrange(t - 4, t)[3] == temp[t - 1]);
    }
}

/// The backups and the replacements in the making of two archives are different
/// files, and neither is an archive.
pub proof fn lemma_side_places(p: PathView, q: PathView)
    requires
        crate::restore::is_archive_name(p.name),
        crate::restore::is_archive_name(q.name),
    ensures
        crate::files::backup_of(p) == crate::files::backup_of(q) ==> p == q,
        p.with_extension("pak.temp"@) == q.with_extension("pak.temp"@) ==> p == q,
        crate::files::backup_of(p) != q.with_extension("pak.temp"@),
        crate::files::backup_of(p) != q,
        p.with_extension("pak.temp"@) != q,
        !crate::restore::is_archive_name(crate::files::backup_of(p).name),
        !crate::restore::is_archive_name(p.with_extension("pak.temp"@).name),
{
    lemma_archive_name(p.name);
    lemma_archive_name(q.name);
    reveal_strlit(".backup");
    reveal_strlit(".temp");
    let pb = p.name + ".backup"@;
    let qb = q.name + ".backup"@;
    let pt = p.name + ".temp"@;
    let qt = q.name + ".temp"@;
    if pb == qb {
        assert(pb.take(p.name.len() as int) =~= p.name);
        assert(qb.take(q.name.len() as int) =~= q.name);
    }
    if pt == qt {
        assert(pt.take(p.name.len() as int) =~= p.name);
        assert(qt.take(q.name.len() as int) =~= q.name);
    }
    assert(pb[pb.len() - 2] == 'u');
    assert(qt[qt.len() - 2] == 'm');
}

/// What putting the backups back does to the file at `path`.
pub proof fn lemma_backups_restored(
    files: Map<PathView, Seq<u8>>,
    tools: Seq<ToolFileView>,
    path: PathView,
)
    requires
        are_archives(tools),
    ensures
        backups_restored(files, tools).contains_key(path) == (gives_way(files, tools, path)
            || files.contains_key(path) && !is_used_up(tools, path)),
        backups_restored(files, tools).contains_key(path) ==> backups_restored(files, tools)[path]
            == if gives_way(files, tools, path) {
            files[crate::files::backup_of(path)]
        } else {
            files[path]
        },
    decreases tools.len(),
{
    if tools.len() > 0 {
        let front = tools.drop_last();
        let last = tools.last();
        let n = front.len() as int;
        let backup = crate::files::backup_of(last.path);
        assert(tools[n] == last);
        assert forall|k: int| 0 <= k < n implies #[trigger] front[k] == tools[k] by {}
        assert(are_archives(front));
        lemma_backups_restored(files, front, path);
        lemma_backups_restored(files, front, backup);
        lemma_archive_name(last.path.name);
        assert(!gives_way(files, front, backup)) by {
            if gives_way(files, front, backup) {
                let k = choose|k: int|
                    0 <= k < front.len() && (#[trigger] front[k]).full_package && front[k].path
                        == backup;
                lemma_side_places(last.path, tools[k].path);
            }
        }
        assert(!is_used_up(front, backup)) by {
            if is_used_up(front, backup) {
                let k = choose|k: int|
                    0 <= k < front.len() && (#[trigger] front[k]).full_package
                        && crate::files::backup_of(front[k].path) == backup;
                lemma_side_places(tools[k].path, last.path);
                assert(tools[k].path != tools[n].path);
            }
        }
        assert(gives_way(files, tools, path) == (gives_way(files, front, path) || (
        last.full_package && last.path == path && files.contains_key(backup)))) by {
            if gives_way(files, front, path) {
                let k = choose|k: int|
                    0 <= k < front.len() && (#[trigger] front[k]).full_package && front[k].path
                        == path;
                assert(tools[k].path == path);
            }
            if gives_way(files, tools, path) {
                let k = choose|k: int|
                    0 <= k < tools.len() && (#[trigger] tools[k]).full_package && tools[k].path
                        == path;
                assert(k < n ==> front[k].path == path);
            }
        }
        assert(is_used_up(tools, path) == (is_used_up(front, path) || (last.full_package && backup
            == path))) by {
            if is_used_up(front, path) {
                let k = choose|k: int|
                    0 <= k < front.len() && (#[trigger] front[k]).full_package
                        && crate::files::backup_of(front[k].path) == path;
                assert(tools[k].full_package && crate::files::backup_of(tools[k].path) == path);
            }
            if is_used_up(tools, path) {
                let k = choose|k: int|
                    0 <= k < tools.len() && (#[trigger] tools[k]).full_package
                        && crate::files::backup_of(tools[k].path) == path;
                assert(k < n ==> front[k].full_package);
            }
        }
        let before = backups_restored(files, front);
        if last.full_package && before.contains_key(backup) {
            crate::files::restoring_moves_the_backup(before, last.path);
            lemma_side_places(last.path, last.path);
        }
    }
}

/// The entries that a filter keeps are among those that it was given.
proof fn lemma_kept_from<A>(s: Seq<A>, keep: spec_fn(A) -> bool, k: int) -> (i: int)
    requires
        0 <= k < s.filter(keep).len(),
    ensures
        0 <= i < s.len(),
        keep(s[i]),
        s[i] == s.filter(keep)[k],
    decreases s.len(),
{
    reveal_with_fuel(Seq::filter, 2);
    let front = s.drop_last();
    if k < front.filter(keep).len() {
        let i = lemma_kept_from(front, keep, k);
        assert(s[i] == front[i]);
        i
    } else {
        s.len() - 1
    }
}

/// A filter keeps every entry that it is to keep.
pub proof fn lemma_kept_to<A>(s: Seq<A>, keep: spec_fn(A) -> bool, i: int) -> (k: int)
    requires
        0 <= i < s.len(),
        keep(s[i]),
    ensures
        0 <= k < s.filter(keep).len(),
        s.filter(keep)[k] == s[i],
    decreases s.len(),
{
    reveal_with_fuel(Seq::filter, 2);
    let front = s.drop_last();
    if i < front.len() {
        assert(front[i] == s[i]);
        let k = lemma_kept_to(front, keep, i);
        assert(s.filter(keep)[k] == front.filter(keep)[k]);
        k
    } else {
        front.filter(keep).len() as int
    }
}

/// A filter keeps the order of the entries.
pub proof fn lemma_kept_order<A>(s: Seq<A>, keep: spec_fn(A) -> bool, j: int, k: int) -> (r: (
    int,
    int,
))
    requires
        0 <= j < k < s.filter(keep).len(),
    ensures
        0 <= r.0 < r.1 < s.len(),
        keep(s[r.0]),
        keep(s[r.1]),
        s[r.0] == s.filter(keep)[j],
        s[r.1] == s.filter(keep)[k],
    decreases s.len(),
{
    reveal_with_fuel(Seq::filter, 2);
    let front = s.drop_last();
    if k < front.filter(keep).len() {
        let r = lemma_kept_order(front, keep, j, k);
        assert(s[r.0] == front[r.0] && s[r.1] == front[r.1]);
        r
    } else {
        let i = lemma_kept_from(front, keep, j);
        assert(s[i] == front[i]);
        (i, s.len() - 1)
    }
}

/// A file of this tool stands for an entry.
proof fn lemma_tool_from(entries: Seq<ToolEntry>, k: int) -> (i: int)
    requires
        0 <= k < crate::restore::tool_files_in(entries).len(),
    ensures
        0 <= i < entries.len(),
        crate::restore::is_tool_file(entries[i]),
        mark_of(entries[i]) == Some(crate::restore::tool_files_in(entries)[k].full_package),
        crate::restore::tool_files_in(entries)[k].path == entries[i].path@,
{
    lemma_kept_from(entries, |e: ToolEntry| crate::restore::is_tool_file(e), k)
}

/// An archive that carries a mark is a file of this tool.
pub proof fn lemma_tool_to(entries: Seq<ToolEntry>, i: int) -> (k: int)
    requires
        0 <= i < entries.len(),
        entries[i].is_file,
        crate::restore::is_archive_name(entries[i].path.name@),
        mark_of(entries[i]) is Some,
    ensures
        0 <= k < crate::restore::tool_files_in(entries).len(),
        crate::restore::tool_files_in(entries)[k] == (ToolFileView {
            path: entries[i].path@,
            full_package: mark_of(entries[i])->0,
        }),
{
    lemma_kept_to(entries, |e: ToolEntry| crate::restore::is_tool_file(e), i)
}

/// The files of this tool among the entries of files are different archives.
pub proof fn lemma_tools(
    entries: Seq<ToolEntry>,
    files: Map<PathView, Seq<u8>>,
    marks: spec_fn(Seq<u8>) -> Option<bool>,
)
    requires
        describes(entries, files, marks),
    ensures
        are_archives(crate::restore::tool_files_in(entries)),
        forall|k: int|
            0 <= k < crate::restore::tool_files_in(entries).len() ==> {
                let f = #[trigger] crate::restore::tool_files_in(entries)[k];
                files.contains_key(f.path) && marks(files[f.path]) == Some(f.full_package)
            },
{
    let tools = crate::restore::tool_files_in(entries);
    assert forall|k: int| 0 <= k < tools.len() implies {
        let f = #[trigger] tools[k];
        &&& crate::restore::is_archive_name(f.path.name)
        &&& files.contains_key(f.path)
        &&& marks(files[f.path]) == Some(f.full_package)
    } by {
        let i = lemma_tool_from(entries, k);
    }
    assert forall|j: int, k: int| 0 <= j < k < tools.len() implies (#[trigger] tools[j]).path != (
    #[trigger] tools[k]).path by {
        let r = lemma_kept_order(entries, |e: ToolEntry| crate::restore::is_tool_file(e), j, k);
        assert(entries[r.0].path@ != entries[r.1].path@);
    }
}

/// A step of the removal of patches is about a file of this tool.
proof fn lemma_step_from(entries: Seq<ToolEntry>, i: int) -> (k: int)
    requires
        0 <= i < patch_steps(entries).len(),
    ensures
        0 <= k < crate::restore::tool_files_in(entries).len(),
        crate::restore::is_patch(crate::restore::tool_files_in(entries)[k]),
        crate::restore::tool_files_in(entries)[k].path == patch_steps(entries)[i].path,
{
    let tools = crate::restore::tool_files_in(entries);
    let patches = crate::restore::patches_among(tools);
    crate::restore::lemma_removal_count(
        crate::restore::removal_order(patches),
        crate::restore::chunks_in(entries),
    );
    lemma_kept_from(
        tools,
        |f: ToolFileView| crate::restore::is_patch(f),
        patches.len() - 1 - i,
    )
}

/// Putting backups back touches only the files of this tool and their backups.
proof fn lemma_backups_touch(
    files: Map<PathView, Seq<u8>>,
    tools: Seq<ToolFileView>,
    path: PathView,
)
    requires
        forall|k: int|
            0 <= k < tools.len() ==> crate::restore::is_archive_name(
                (#[trigger] tools[k]).path.name,
            ) && files.contains_key(tools[k].path),
    ensures
        backups_restored(files, tools).contains_key(path) ==> files.contains_key(path),
        (forall|k: int|
            0 <= k < tools.len() && (#[trigger] tools[k]).full_package ==> tools[k].path != path
                && crate::files::backup_of(tools[k].path) != path) ==> {
            &&& backups_restored(files, tools).contains_key(path) == files.contains_key(path)
            &&& backups_restored(files, tools)[path] == files[path]
        },
    decreases tools.len(),
{
    if tools.len() > 0 {
        let front = tools.drop_last();
        let last = tools.last();
        assert(tools[front.len() as int] == last);
        assert forall|k: int| 0 <= k < front.len() implies #[trigger] front[k] == tools[k] by {}
        lemma_backups_touch(files, front, path);
        let before = backups_restored(files, front);
        lemma_archive_name(last.path.name);
        if last.full_package && before.contains_key(crate::files::backup_of(last.path)) {
            crate::files::restoring_moves_the_backup(before, last.path);
        }
    }
}

/// The removal of patches makes no file but at the place of a patch.
proof fn lemma_cleaning_makes_nothing(
    files: Map<PathView, Seq<u8>>,
    steps: Seq<PatchRemovalView>,
    empty: Seq<u8>,
    path: PathView,
)
    requires
        crate::restore::cleaned(files, steps, empty).contains_key(path),
    ensures
        files.contains_key(path) || exists|i: int|
            0 <= i < steps.len() && (#[trigger] steps[i]).path == path,
    decreases steps.len(),
{
    if steps.len() > 0 {
        let front = steps.drop_last();
        assert(steps[front.len() as int] == steps.last());
        if steps.last().path != path {
            lemma_cleaning_makes_nothing(files, front, empty, path);
            if exists|i: int| 0 <= i < front.len() && (#[trigger] front[i]).path == path {
                let i = choose|i: int| 0 <= i < front.len() && (#[trigger] front[i]).path == path;
                assert(steps[i].path == path);
            }
        }
    }
}

/// A restore makes no file at a new place. It changes no file but the archives of
/// this tool and the backups of those that took an original's place.
pub proof fn restore_touches_only_own_files(
    files: Map<PathView, Seq<u8>>,
    entries: Seq<ToolEntry>,
    empty: Seq<u8>,
    path: PathView,
)
    requires
        forall|i: int|
            0 <= i < entries.len() && (#[trigger] entries[i]).is_file ==> files.contains_key(
                entries[i].path@,
            ),
    ensures
        restored(files, entries, empty).contains_key(path) ==> files.contains_key(path),
        (forall|k: int|
            0 <= k < crate::restore::tool_files_in(entries).len() ==> {
                let f = #[trigger] crate::restore::tool_files_in(entries)[k];
                f.path != path && (f.full_package ==> crate::files::backup_of(f.path) != path)
            }) ==> {
            &&& restored(files, entries, empty).contains_key(path) == files.contains_key(path)
            &&& restored(files, entries, empty)[path] == files[path]
        },
{
    let tools = crate::restore::tool_files_in(entries);
    let steps = patch_steps(entries);
    let put_back = backups_restored(files, tools);
    assert forall|k: int| 0 <= k < tools.len() implies crate::restore::is_archive_name(
        (#[trigger] tools[k]).path.name,
    ) && files.contains_key(tools[k].path) by {
        let i = lemma_tool_from(entries, k);
    }
    lemma_backups_touch(files, tools, path);
    assert forall|i: int| 0 <= i < steps.len() implies exists|k: int|
        0 <= k < tools.len() && (#[trigger] tools[k]).path == (#[trigger] steps[i]).path by {
        let k = lemma_step_from(entries, i);
        assert(tools[k].path == steps[i].path);
    }
    if restored(files, entries, empty).contains_key(path) {
        lemma_cleaning_makes_nothing(put_back, steps, empty, path);
    }
    crate::restore::removal_touches_only_patches(put_back, steps, empty, path);
}

/// Where no file of this tool is a patch, none is removed.
pub proof fn lemma_no_patches(entries: Seq<ToolEntry>)
    requires
        forall|k: int|
            0 <= k < crate::restore::tool_files_in(entries).len()
                ==> (#[trigger] crate::restore::tool_files_in(entries)[k]).full_package,
    ensures
        patch_steps(entries).len() == 0,
{
    let tools = crate::restore::tool_files_in(entries);
    if patch_steps(entries).len() > 0 {
        let k = lemma_step_from(entries, 0);
        assert(tools[k].full_package);
    }
}

/// Where no full package has a backup, none gives way.
pub proof fn lemma_none_restored(files: Map<PathView, Seq<u8>>, tools: Seq<ToolFileView>)
    requires
        forall|k: int|
            0 <= k < tools.len() && (#[trigger] tools[k]).full_package ==> !files.contains_key(
                crate::files::backup_of(tools[k].path),
            ),
    ensures
        backups_restored(files, tools) == files,
    decreases tools.len(),
{
    if tools.len() > 0 {
        let front = tools.drop_last();
        assert(tools[front.len() as int] == tools.last());
        assert forall|k: int| 0 <= k < front.len() implies #[trigger] front[k] == tools[k] by {}
        lemma_none_restored(files, front);
    }
}

/// Emptying patches that are empty changes nothing.
proof fn lemma_emptied_again(
    files: Map<PathView, Seq<u8>>,
    steps: Seq<PatchRemovalView>,
    empty: Seq<u8>,
)
    requires
        forall|i: int|
            0 <= i < steps.len() ==> !(#[trigger] steps[i]).deleted && files.contains_key(
                steps[i].path,
            ) && files[steps[i].path] == empty,
    ensures
        crate::restore::cleaned(files, steps, empty) == files,
    decreases steps.len(),
{
    if steps.len() > 0 {
        let front = steps.drop_last();
        assert(steps[front.len() as int] == steps.last());
        assert forall|i: int| 0 <= i < front.len() implies #[trigger] front[i] == steps[i] by {}
        lemma_emptied_again(files, front, empty);
        assert(files.insert(steps.last().path, empty) =~= files);
    }
}

/// Of patches at different places, those are left that were not deleted.
pub proof fn lemma_cleaned_at(
    files: Map<PathView, Seq<u8>>,
    steps: Seq<PatchRemovalView>,
    empty: Seq<u8>,
    i: int,
)
    requires
        0 <= i < steps.len(),
        forall|j: int, k: int|
            0 <= j < k < steps.len() ==> (#[trigger] steps[j]).path != (#[trigger] steps[k]).path,
    ensures
        crate::restore::cleaned(files, steps, empty).contains_key(steps[i].path)
            == !steps[i].deleted,
    decreases steps.len(),
{
    let front = steps.drop_last();
    let n = front.len() as int;
    assert(steps[n] == steps.last());
    if i < n {
        assert forall|k: int| 0 <= k < n implies #[trigger] front[k] == steps[k] by {}
        lemma_cleaned_at(files, front, empty, i);
        assert(steps[i].path != steps[n].path);
    }
}

/// A patch that is emptied has a higher one among the archives that was not
/// deleted before.
pub proof fn lemma_emptied_for_a_higher(
    order: Seq<ChunkNameView>,
    chunks: Seq<ChunkNameView>,
    i: int,
) -> (c: ChunkNameView)
    requires
        0 <= i < crate::restore::removal(order, chunks).deleted.len(),
        !crate::restore::removal(order, chunks).deleted[i],
    ensures
        i < order.len(),
        chunks.contains(c),
        crate::restore::is_above(c, order[i]),
        forall|j: int|
            0 <= j < i && #[trigger] crate::restore::removal(order, chunks).deleted[j] ==> order[j]
                != c,
    decreases order.len(),
{
    let front = order.drop_last();
    let before = crate::restore::removal(front, chunks);
    let now = crate::restore::removal(order, chunks);
    crate::restore::lemma_removal_count(order, chunks);
    crate::restore::lemma_removal_count(front, chunks);
    if i < before.deleted.len() {
        let c = lemma_emptied_for_a_higher(front, chunks, i);
        assert forall|j: int| 0 <= j < i && #[trigger] now.deleted[j] implies order[j] != c by {
            assert(before.deleted[j]);
            assert(front[j] == order[j]);
        }
        c
    } else {
        let k = choose|k: int|
            0 <= k < before.left.len() && crate::restore::is_above(
                #[trigger] before.left[k],
                order.last(),
            );
        let c = before.left[k];
        assert(before.left.contains(c));
        crate::restore::only_removed_patches_leave(front, chunks, c);
        assert forall|j: int| 0 <= j < i && #[trigger] now.deleted[j] implies order[j] != c by {
            assert(before.deleted[j]);
            crate::restore::deleted_patches_are_gone(front, chunks, j);
        }
        c
    }
}

/// Where every patch has a higher one, all are emptied.
proof fn lemma_all_emptied(order: Seq<ChunkNameView>, chunks: Seq<ChunkNameView>)
    requires
        forall|i: int|
            0 <= i < order.len() ==> crate::restore::is_placed(#[trigger] order[i])
                && crate::restore::has_higher(chunks, order[i]),
    ensures
        crate::restore::removal(order, chunks).left == chunks,
        forall|i: int|
            0 <= i < crate::restore::removal(order, chunks).deleted.len()
                ==> !#[trigger] crate::restore::removal(order, chunks).deleted[i],
    decreases order.len(),
{
    if order.len() > 0 {
        let front = order.drop_last();
        assert(order[front.len() as int] == order.last());
        assert forall|i: int| 0 <= i < front.len() implies #[trigger] front[i] == order[i] by {}
        lemma_all_emptied(front, chunks);
    }
}

/// The name of an archive stands for an entry.
pub proof fn lemma_chunk_from(entries: Seq<ToolEntry>, k: int) -> (i: int)
    requires
        0 <= k < crate::restore::chunks_in(entries).len(),
    ensures
        0 <= i < entries.len(),
        crate::restore::is_named_archive(entries[i]),
        crate::restore::chunks_in(entries)[k] == crate::chunk::parsed(entries[i].path.name@)->0,
{
    lemma_kept_from(entries, |e: ToolEntry| crate::restore::is_named_archive(e), k)
}

/// An archive with a name that can be read is among the archives.
proof fn lemma_chunk_to(entries: Seq<ToolEntry>, i: int) -> (k: int)
    requires
        0 <= i < entries.len(),
        crate::restore::is_named_archive(entries[i]),
    ensures
        0 <= k < crate::restore::chunks_in(entries).len(),
        crate::restore::chunks_in(entries)[k] == crate::chunk::parsed(entries[i].path.name@)->0,
{
    lemma_kept_to(entries, |e: ToolEntry| crate::restore::is_named_archive(e), i)
}

/// Whether every patch has a place in its sequence, and none was found before one
/// that it comes after. Patches of different sequences may be found in any order.
pub open spec fn are_in_order(patches: Seq<PatchFileView>) -> bool {
    &&& forall|i: int|
        0 <= i < patches.len() ==> crate::restore::is_placed((#[trigger] patches[i]).name)
    &&& forall|i: int, j: int|
        0 <= i < j < patches.len() ==> !crate::restore::is_above(
            (#[trigger] patches[i]).name,
            (#[trigger] patches[j]).name,
        )
}

/// A patch stands for a file of this tool.
pub proof fn lemma_patch_from(tools: Seq<ToolFileView>, m: int) -> (k: int)
    requires
        0 <= m < crate::restore::patches_among(tools).len(),
    ensures
        0 <= k < tools.len(),
        crate::restore::is_patch(tools[k]),
        crate::restore::patches_among(tools)[m] == crate::restore::patch_of(tools[k]),
{
    lemma_kept_from(tools, |f: ToolFileView| crate::restore::is_patch(f), m)
}

/// The steps of a removal of patches are at different places, the last patch
/// first.
pub proof fn lemma_steps(
    entries: Seq<ToolEntry>,
    files: Map<PathView, Seq<u8>>,
    marks: spec_fn(Seq<u8>) -> Option<bool>,
)
    requires
        describes(entries, files, marks),
    ensures
        ({
            let patches = patches_found(entries);
            let steps = patch_steps(entries);
            &&& steps.len() <= patches.len()
            &&& forall|i: int|
                0 <= i < steps.len() ==> (#[trigger] steps[i]).path == patches[patches.len() - 1
                    - i].path
            &&& forall|j: int, k: int|
                0 <= j < k < steps.len() ==> (#[trigger] steps[j]).path != (
                #[trigger] steps[k]).path
        }),
{
    let tools = crate::restore::tool_files_in(entries);
    let patches = patches_found(entries);
    let steps = patch_steps(entries);
    let order = crate::restore::removal_order(patches);
    lemma_tools(entries, files, marks);
    crate::restore::lemma_removal_count(order, crate::restore::chunks_in(entries));
    assert forall|j: int, k: int| 0 <= j < k < steps.len() implies (#[trigger] steps[j]).path != (
    #[trigger] steps[k]).path by {
        let n = patches.len() as int;
        let r = lemma_kept_order(
            tools,
            |f: ToolFileView| crate::restore::is_patch(f),
            n - 1 - k,
            n - 1 - j,
        );
        assert(tools[r.0].path != tools[r.1].path);
    }
}

/// Patches that are in order get one step each.
pub proof fn lemma_a_step_each(entries: Seq<ToolEntry>)
    requires
        are_in_order(patches_found(entries)),
    ensures
        patch_steps(entries).len() == patches_found(entries).len(),
{
    let patches = patches_found(entries);
    let order = crate::restore::removal_order(patches);
    assert forall|i: int| 0 <= i < order.len() implies crate::restore::is_placed(
        #[trigger] order[i],
    ) by {
        assert(crate::restore::is_placed(patches[patches.len() - 1 - i].name));
    }
    crate::restore::placed_patches_are_all_removed(order, crate::restore::chunks_in(entries));
}

/// Whether the backups are none of this tool's archives.
pub open spec fn backups_are_unmarked(
    files: Map<PathView, Seq<u8>>,
    marks: spec_fn(Seq<u8>) -> Option<bool>,
) -> bool {
    forall|path: PathView| #[trigger]
        files.contains_key(path) && crate::restore::is_backup_name(path.name) ==> marks(
            files[path],
        ) is None
}

/// Whether the file at `path` is a patch that the removal empties.
spec fn is_emptied(entries: Seq<ToolEntry>, path: PathView) -> bool {
    exists|i: int|
        0 <= i < patch_steps(entries).len() && (#[trigger] patch_steps(entries)[i]).path == path
            && !patch_steps(entries)[i].deleted
}

/// An archive that carries a mark after a restore is a patch that was emptied, or
/// was there before with this mark and cannot be taken back.
proof fn lemma_marked_after(
    files: Map<PathView, Seq<u8>>,
    entries: Seq<ToolEntry>,
    marks: spec_fn(Seq<u8>) -> Option<bool>,
    empty: Seq<u8>,
    path: PathView,
)
    requires
        describes(entries, files, marks),
        are_in_order(patches_found(entries)),
        backups_are_unmarked(files, marks),
        marks(empty) == Some(false),
        crate::restore::is_archive_name(path.name),
        restored(files, entries, empty).contains_key(path),
        marks(restored(files, entries, empty)[path]) is Some,
    ensures
        marks(restored(files, entries, empty)[path]) == Some(true) ==> !files.contains_key(
            crate::files::backup_of(path),
        ),
        marks(restored(files, entries, empty)[path]) == Some(false) ==> (is_emptied(entries, path)
            && restored(files, entries, empty)[path] == empty) || crate::chunk::parsed(
            path.name,
        ) is None,
{
    let tools = crate::restore::tool_files_in(entries);
    let patches = patches_found(entries);
    let steps = patch_steps(entries);
    let put_back = backups_restored(files, tools);
    lemma_tools(entries, files, marks);
    lemma_steps(entries, files, marks);
    lemma_a_step_each(entries);
    crate::restore::removal_touches_only_patches(put_back, steps, empty, path);
    if exists|i: int| 0 <= i < steps.len() && (#[trigger] steps[i]).path == path {
        let i = choose|i: int| 0 <= i < steps.len() && (#[trigger] steps[i]).path == path;
        lemma_cleaned_at(put_back, steps, empty, i);
        assert(!patch_steps(entries)[i].deleted);
    } else {
        lemma_backups_restored(files, tools, path);
        lemma_archive_name(path.name);
        if gives_way(files, tools, path) {
            crate::restore::backups_are_found_again(path.name);
            assert(files.contains_key(crate::files::backup_of(path)));
        } else {
            assert(files.contains_key(path));
            let e = choose|e: int|
                0 <= e < entries.len() && (#[trigger] entries[e]).is_file && entries[e].path@
                    == path;
            let k = lemma_tool_to(entries, e);
            if tools[k].full_package {
                assert(tools[k].path == path);
            } else if crate::chunk::parsed(path.name) is Some {
                let m = lemma_kept_to(tools, |f: ToolFileView| crate::restore::is_patch(f), k);
                assert(patches[m] == crate::restore::patch_of(tools[k]));
                assert(steps[patches.len() - 1 - m].path == path);
            }
        }
    }
}

/// An archive that is no patch to be removed is there after a restore.
proof fn lemma_archive_stays(
    files: Map<PathView, Seq<u8>>,
    entries: Seq<ToolEntry>,
    marks: spec_fn(Seq<u8>) -> Option<bool>,
    empty: Seq<u8>,
    path: PathView,
)
    requires
        describes(entries, files, marks),
        files.contains_key(path),
        crate::restore::is_archive_name(path.name),
        forall|i: int|
            0 <= i < patch_steps(entries).len() ==> (#[trigger] patch_steps(entries)[i]).path
                != path,
    ensures
        restored(files, entries, empty).contains_key(path),
{
    let tools = crate::restore::tool_files_in(entries);
    lemma_tools(entries, files, marks);
    lemma_backups_restored(files, tools, path);
    assert(!is_used_up(tools, path)) by {
        if is_used_up(tools, path) {
            let k = choose|k: int|
                0 <= k < tools.len() && (#[trigger] tools[k]).full_package
                    && crate::files::backup_of(tools[k].path) == path;
            lemma_side_places(tools[k].path, path);
        }
    }
    crate::restore::removal_touches_only_patches(
        backups_restored(files, tools),
        patch_steps(entries),
        empty,
        path,
    );
}

/// The higher patch that a patch was emptied for is there after the restore.
proof fn lemma_higher_stays(
    files: Map<PathView, Seq<u8>>,
    entries: Seq<ToolEntry>,
    again: Seq<ToolEntry>,
    marks: spec_fn(Seq<u8>) -> Option<bool>,
    empty: Seq<u8>,
    path: PathView,
)
    requires
        describes(entries, files, marks),
        describes(again, restored(files, entries, empty), marks),
        are_in_order(patches_found(entries)),
        is_emptied(entries, path),
    ensures
        crate::chunk::parsed(path.name) is Some,
        crate::restore::is_placed(crate::chunk::parsed(path.name)->0),
        crate::restore::has_higher(
            crate::restore::chunks_in(again),
            crate::chunk::parsed(path.name)->0,
        ),
{
    let patches = patches_found(entries);
    let steps = patch_steps(entries);
    let chunks = crate::restore::chunks_in(entries);
    let order = crate::restore::removal_order(patches);
    lemma_steps(entries, files, marks);
    let i = choose|i: int|
        0 <= i < steps.len() && (#[trigger] steps[i]).path == path && !steps[i].deleted;
    let n = patches.len() - 1 - i;
    let k = lemma_patch_from(crate::restore::tool_files_in(entries), n);
    let name = patches[n].name;
    assert(crate::chunk::parsed(path.name) == Some(name));
    assert(crate::restore::is_placed(patches[n].name));
    let above = lemma_emptied_for_a_higher(order, chunks, i);
    let c = choose|c: int| 0 <= c < chunks.len() && chunks[c] == above;
    let e = lemma_chunk_from(entries, c);
    let higher = entries[e].path@;
    let after = restored(files, entries, empty);
    assert(after.contains_key(higher)) by {
        if exists|j: int| 0 <= j < steps.len() && (#[trigger] steps[j]).path == higher {
            let j = choose|j: int| 0 <= j < steps.len() && (#[trigger] steps[j]).path == higher;
            let m = patches.len() - 1 - j;
            let t = lemma_patch_from(crate::restore::tool_files_in(entries), m);
            assert(patches[m].name == above);
            assert(order[j] == above);
            assert(j < i) by {
                if i < j {
                    assert(!crate::restore::is_above(patches[m].name, patches[n].name));
                }
            }
            assert(!crate::restore::removal(order, chunks).deleted[j]);
            lemma_cleaned_at(
                backups_restored(files, crate::restore::tool_files_in(entries)),
                steps,
                empty,
                j,
            );
        } else {
            lemma_archive_stays(files, entries, marks, empty, higher);
        }
    }
    let f = choose|f: int|
        0 <= f < again.len() && (#[trigger] again[f]).is_file && again[f].path@ == higher;
    let d = lemma_chunk_to(again, f);
    assert(crate::restore::is_above(crate::restore::chunks_in(again)[d], name));
}

/// Restoring twice does no more than restoring once, where the patches are in
/// order and no backup is itself one of this tool's archives.
pub proof fn restoring_twice_changes_nothing(
    files: Map<PathView, Seq<u8>>,
    entries: Seq<ToolEntry>,
    again: Seq<ToolEntry>,
    marks: spec_fn(Seq<u8>) -> Option<bool>,
    empty: Seq<u8>,
)
    requires
        describes(entries, files, marks),
        describes(again, restored(files, entries, empty), marks),
        are_in_order(patches_found(entries)),
        backups_are_unmarked(files, marks),
        marks(empty) == Some(false),
    ensures
        restored(restored(files, entries, empty), again, empty) == restored(files, entries, empty),
{
    let after = restored(files, entries, empty);
    let tools = crate::restore::tool_files_in(again);
    let patches = patches_found(again);
    let chunks = crate::restore::chunks_in(again);
    let order = crate::restore::removal_order(patches);
    let steps = patch_steps(again);
    lemma_tools(again, after, marks);
    assert forall|k: int| 0 <= k < tools.len() && (
    #[trigger] tools[k]).full_package implies !after.contains_key(
        crate::files::backup_of(tools[k].path),
    ) by {
        lemma_marked_after(files, entries, marks, empty, tools[k].path);
        restore_touches_only_own_files(
            files,
            entries,
            empty,
            crate::files::backup_of(tools[k].path),
        );
    }
    lemma_none_restored(after, tools);
    assert forall|m: int| 0 <= m < patches.len() implies {
        let f = #[trigger] patches[m];
        &&& after.contains_key(f.path)
        &&& after[f.path] == empty
        &&& crate::restore::is_placed(f.name)
        &&& crate::restore::has_higher(chunks, f.name)
    } by {
        let k = lemma_patch_from(tools, m);
        lemma_marked_after(files, entries, marks, empty, tools[k].path);
        lemma_higher_stays(files, entries, again, marks, empty, tools[k].path);
    }
    assert forall|i: int| 0 <= i < order.len() implies crate::restore::is_placed(
        #[trigger] order[i],
    ) && crate::restore::has_higher(chunks, order[i]) by {
        assert(patches[patches.len() - 1 - i].name == order[i]);
    }
    lemma_all_emptied(order, chunks);
    crate::restore::lemma_removal_count(order, chunks);
    assert forall|i: int| 0 <= i < steps.len() implies !(#[trigger] steps[i]).deleted
        && after.contains_key(steps[i].path) && after[steps[i].path] == empty by {
        assert(patches[patches.len() - 1 - i].path == steps[i].path);
        assert(!crate::restore::removal(order, chunks).deleted[i]);
    }
    lemma_emptied_again(after, steps, empty);
}

/// A restore keeps every sequence of patches continuous among the files: while
/// the file of a patch is there, so is that of all that comes before it and was
/// there before the restore. This holds where no other archive bears the name of
/// the higher patch.
pub proof fn restore_leaves_no_gap(
    files: Map<PathView, Seq<u8>>,
    entries: Seq<ToolEntry>,
    marks: spec_fn(Seq<u8>) -> Option<bool>,
    empty: Seq<u8>,
    lower: PathView,
    higher: PathView,
)
    requires
        describes(entries, files, marks),
        files.contains_key(lower),
        crate::restore::is_archive_name(lower.name),
        crate::restore::is_archive_name(higher.name),
        crate::chunk::parsed(lower.name) is Some,
        crate::chunk::parsed(higher.name) is Some,
        crate::restore::is_above(
            crate::chunk::parsed(higher.name)->0,
            crate::chunk::parsed(lower.name)->0,
        ),
        forall|path: PathView| #[trigger]
            files.contains_key(path) && crate::restore::is_archive_name(path.name)
                && crate::chunk::parsed(path.name) == crate::chunk::parsed(higher.name) ==> path
                == higher,
        restored(files, entries, empty).contains_key(higher),
    ensures
        restored(files, entries, empty).contains_key(lower),
{
    let tools = crate::restore::tool_files_in(entries);
    let patches = patches_found(entries);
    let steps = patch_steps(entries);
    let chunks = crate::restore::chunks_in(entries);
    let order = crate::restore::removal_order(patches);
    let course = crate::restore::removal(order, chunks);
    let put_back = backups_restored(files, tools);
    let high = crate::chunk::parsed(higher.name)->0;
    let low = crate::chunk::parsed(lower.name)->0;
    lemma_tools(entries, files, marks);
    lemma_steps(entries, files, marks);
    restore_touches_only_own_files(files, entries, empty, higher);
    assert(files.contains_key(higher));
    let e = choose|e: int|
        0 <= e < entries.len() && (#[trigger] entries[e]).is_file && entries[e].path@ == higher;
    let h = lemma_chunk_to(entries, e);
    assert(files.contains_key(lower));
    let e = choose|e: int|
        0 <= e < entries.len() && (#[trigger] entries[e]).is_file && entries[e].path@ == lower;
    let l = lemma_chunk_to(entries, e);
    assert(chunks.contains(high) && chunks.contains(low));
    assert(course.left.contains(high)) by {
        if !course.left.contains(high) {
            crate::restore::only_deleted_patches_leave(order, chunks, high);
            let i = choose|i: int|
                0 <= i < course.deleted.len() && #[trigger] course.deleted[i] && order[i] == high;
            let k = lemma_patch_from(tools, patches.len() - 1 - i);
            assert(files.contains_key(tools[k].path));
            assert(steps[i].path == higher);
            lemma_cleaned_at(put_back, steps, empty, i);
        }
    }
    crate::restore::removal_leaves_no_gap(order, chunks, low, high);
    if exists|i: int| 0 <= i < steps.len() && (#[trigger] steps[i]).path == lower {
        let i = choose|i: int| 0 <= i < steps.len() && (#[trigger] steps[i]).path == lower;
        let k = lemma_patch_from(tools, patches.len() - 1 - i);
        assert(order[i] == low);
        if course.deleted[i] {
            crate::restore::deleted_patches_are_gone(order, chunks, i);
        }
        lemma_cleaned_at(put_back, steps, empty, i);
    } else {
        lemma_archive_stays(files, entries, marks, empty, lower);
    }
}

} // verus!
