//! Changes to files, and what they do to the contents of a file system.

use vstd::prelude::*;

use crate::path::{FilePath, PathView};

verus! {

/// A change to a file.
#[derive(Debug, PartialEq, Eq)]
pub enum FileOp {
    /// Deletes a file.
    Remove(FilePath),
    /// Moves the first file to the place of the second.
    Rename(FilePath, FilePath),
}

/// The mathematical value of a [`FileOp`].
pub enum OpView {
    Remove(PathView),
    Rename(PathView, PathView),
}

impl View for FileOp {
    type V = OpView;

    open spec fn view(&self) -> OpView {
        match self {
            FileOp::Remove(p) => OpView::Remove(p@),
            FileOp::Rename(p, q) => OpView::Rename(p@, q@),
        }
    }
}

/// The values of several changes.
pub open spec fn ops_view(ops: Seq<FileOp>) -> Seq<OpView> {
    ops.map_values(|op: FileOp| op@)
}

/// The files after a change.
pub open spec fn applied(files: Map<PathView, Seq<u8>>, op: OpView) -> Map<PathView, Seq<u8>> {
    match op {
        OpView::Remove(p) => files.remove(p),
        OpView::Rename(p, q) => if p == q {
            files
        } else {
            files.remove(p).insert(q, files[p])
        },
    }
}

/// The files after several changes, one after the other.
pub open spec fn all_applied(
    files: Map<PathView, Seq<u8>>,
    ops: Seq<OpView>,
) -> Map<PathView, Seq<u8>>
    decreases ops.len(),
{
    if ops.len() == 0 {
        files
    } else {
        applied(all_applied(files, ops.drop_last()), ops.last())
    }
}

/// The place where the original of a replaced archive is kept.
pub open spec fn backup_of(path: PathView) -> PathView {
    path.with_extension("pak.backup"@)
}

/// The changes that put a written replacement into the place of its original,
/// which is kept as a backup. A backup of an earlier run goes first.
pub open spec fn replacement_ops(
    original: PathView,
    written: PathView,
    backup_exists: bool,
) -> Seq<OpView> {
    let moves = seq![
        OpView::Rename(original, backup_of(original)),
        OpView::Rename(written, original),
    ];
    if backup_exists {
        seq![OpView::Remove(backup_of(original))] + moves
    } else {
        moves
    }
}

/// The changes that put a backup back into the place of its replacement.
pub open spec fn restore_ops(path: PathView) -> Seq<OpView> {
    seq![OpView::Remove(path), OpView::Rename(backup_of(path), path)]
}

/// The place of the backup of an archive.
pub fn backup_path(path: &FilePath) -> (r: FilePath)
    ensures
        r@ == backup_of(path@),
{
    path.with_extension("pak.backup")
}

/// The changes to make once a replacement has been written.
pub fn replace_original(original: &FilePath, written: &FilePath, backup_exists: bool) -> (r: Vec<
    FileOp,
>)
    ensures
        ops_view(r@) == replacement_ops(original@, written@, backup_exists),
{
    let backup = backup_path(original);
    let mut ops: Vec<FileOp> = Vec::new();
    if backup_exists {
        ops.push(FileOp::Remove(backup.clone()));
    }
    ops.push(FileOp::Rename(original.clone(), backup));
    ops.push(FileOp::Rename(written.clone(), original.clone()));
    assert(ops_view(ops@) =~= replacement_ops(original@, written@, backup_exists));
    ops
}

/// The changes that put the backup of an archive back.
pub fn restore_backup(path: &FilePath) -> (r: Vec<FileOp>)
    ensures
        ops_view(r@) == restore_ops(path@),
{
    let mut ops: Vec<FileOp> = Vec::new();
    ops.push(FileOp::Remove(path.clone()));
    ops.push(FileOp::Rename(backup_path(path), path.clone()));
    assert(ops_view(ops@) =~= restore_ops(path@));
    ops
}

/// The original, its backup and its replacement in the making are three files.
pub proof fn replacement_places_are_distinct(path: PathView)
    requires
        crate::path::is_file_name(path.name),
    ensures
        backup_of(path) != path,
        path.with_extension("pak.temp"@) != path,
        path.with_extension("pak.temp"@) != backup_of(path),
{
    reveal_strlit("pak.backup");
    reveal_strlit("pak.temp");
    reveal_strlit(".");
    let backup = backup_of(path).name;
    let temp = path.with_extension("pak.temp"@).name;
    assert(backup.last() == 'p' && temp.last() == 'p');
    assert(backup[backup.len() - 2] == 'u');
    assert(temp[temp.len() - 2] == 'm');
    lemma_two_dots(path.name, "pak.backup"@, 3);
    lemma_two_dots(path.name, "pak.temp"@, 3);
}

/// The last dot of a text is at least as far back as any dot.
proof fn lemma_final_dot(s: Seq<char>, i: int)
    requires
        0 < i < s.len(),
        s[i] == '.',
    ensures
        i <= crate::path::final_dot(s) < s.len(),
    decreases s.len(),
{
    if s.last() != '.' {
        lemma_final_dot(s.drop_last(), i);
    }
}

/// An extension that holds a dot itself never is the one that a name has.
pub proof fn lemma_two_dots(name: Seq<char>, extension: Seq<char>, at: int)
    requires
        crate::path::is_file_name(name),
        0 <= at < extension.len(),
        extension[at] == '.',
    ensures
        crate::path::renamed(name, extension) != name,
{
    reveal_strlit(".");
    let new_name = crate::path::renamed(name, extension);
    let stem = crate::path::stem(name);
    if new_name == name {
        assert(new_name[stem.len() + 1 + at] == '.');
        lemma_final_dot(name, stem.len() + 1 + at);
    }
}

proof fn lemma_one_more(files: Map<PathView, Seq<u8>>, ops: Seq<OpView>, k: int)
    requires
        0 <= k < ops.len(),
    ensures
        all_applied(files, ops.take(k + 1)) == applied(all_applied(files, ops.take(k)), ops[k]),
{
    assert(ops.take(k + 1).drop_last() =~= ops.take(k));
}

proof fn lemma_none_applied(files: Map<PathView, Seq<u8>>, ops: Seq<OpView>)
    ensures
        all_applied(files, ops.take(0)) == files,
        ops.take(ops.len() as int) == ops,
{
    assert(ops.take(ops.len() as int) =~= ops);
}

/// While a replacement is put in place the content of the original is always
/// there, at its own place or as the backup, however many of the changes have
/// been made.
pub proof fn original_is_never_lost(files: Map<PathView, Seq<u8>>, path: PathView, k: int)
    requires
        crate::path::is_file_name(path.name),
        files.contains_key(path),
        files.contains_key(path.with_extension("pak.temp"@)),
        0 <= k <= replacement_ops(
            path,
            path.with_extension("pak.temp"@),
            files.contains_key(backup_of(path)),
        ).len(),
    ensures
        ({
            let written = path.with_extension("pak.temp"@);
            let ops = replacement_ops(path, written, files.contains_key(backup_of(path)));
            let now = all_applied(files, ops.take(k));
            ||| now.contains_key(path) && now[path] == files[path]
            ||| now.contains_key(backup_of(path)) && now[backup_of(path)] == files[path]
        }),
{
    let written = path.with_extension("pak.temp"@);
    let ops = replacement_ops(path, written, files.contains_key(backup_of(path)));
    replacement_places_are_distinct(path);
    lemma_none_applied(files, ops);
    lemma_one_more(files, ops, 0);
    lemma_one_more(files, ops, 1);
    if ops.len() == 3 {
        lemma_one_more(files, ops, 2);
    }
}

/// Putting a replacement in place gives the archive the new content, keeps the
/// old content as the backup, and touches no other file.
pub proof fn replacement_keeps_a_backup(files: Map<PathView, Seq<u8>>, path: PathView)
    requires
        crate::path::is_file_name(path.name),
        files.contains_key(path),
        files.contains_key(path.with_extension("pak.temp"@)),
    ensures
        ({
            let written = path.with_extension("pak.temp"@);
            let ops = replacement_ops(path, written, files.contains_key(backup_of(path)));
            all_applied(files, ops) == files.remove(written).insert(path, files[written]).insert(
                backup_of(path),
                files[path],
            )
        }),
{
    let written = path.with_extension("pak.temp"@);
    let ops = replacement_ops(path, written, files.contains_key(backup_of(path)));
    replacement_places_are_distinct(path);
    lemma_none_applied(files, ops);
    lemma_one_more(files, ops, 0);
    lemma_one_more(files, ops, 1);
    if ops.len() == 3 {
        lemma_one_more(files, ops, 2);
    }
    assert(all_applied(files, ops) =~= files.remove(written).insert(path, files[written]).insert(
        backup_of(path),
        files[path],
    ));
}

/// Restoring takes a replacement back: the archive has its old content again,
/// neither the backup nor the file written for the replacement is left, and
/// every other file is as it was before.
pub proof fn restore_undoes_replacement(files: Map<PathView, Seq<u8>>, path: PathView)
    requires
        crate::path::is_file_name(path.name),
        files.contains_key(path),
        files.contains_key(path.with_extension("pak.temp"@)),
    ensures
        ({
            let written = path.with_extension("pak.temp"@);
            let ops = replacement_ops(path, written, files.contains_key(backup_of(path)));
            let replaced = all_applied(files, ops);
            &&& replaced.contains_key(backup_of(path))
            &&& all_applied(replaced, restore_ops(path)) == files.remove(written).remove(
                backup_of(path),
            )
        }),
{
    let written = path.with_extension("pak.temp"@);
    let ops = replacement_ops(path, written, files.contains_key(backup_of(path)));
    let replaced = all_applied(files, ops);
    replacement_keeps_a_backup(files, path);
    replacement_places_are_distinct(path);
    let back = restore_ops(path);
    lemma_none_applied(replaced, back);
    lemma_one_more(replaced, back, 0);
    lemma_one_more(replaced, back, 1);
    assert(all_applied(replaced, back) =~= files.remove(written).remove(backup_of(path)));
}

/// Putting a backup back gives the archive the content of the backup, which is
/// gone afterwards, and touches no other file.
pub proof fn restoring_moves_the_backup(files: Map<PathView, Seq<u8>>, path: PathView)
    requires
        crate::path::is_file_name(path.name),
        files.contains_key(backup_of(path)),
    ensures
        all_applied(files, restore_ops(path)) == files.remove(backup_of(path)).insert(
            path,
            files[backup_of(path)],
        ),
{
    let back = restore_ops(path);
    replacement_places_are_distinct(path);
    lemma_none_applied(files, back);
    lemma_one_more(files, back, 0);
    lemma_one_more(files, back, 1);
    assert(all_applied(files, back) =~= files.remove(backup_of(path)).insert(
        path,
        files[backup_of(path)],
    ));
}

/// While a backup is put back its content is always there, at its own place or
/// at that of the archive.
pub proof fn backup_is_never_lost(files: Map<PathView, Seq<u8>>, path: PathView, k: int)
    requires
        crate::path::is_file_name(path.name),
        files.contains_key(backup_of(path)),
        0 <= k <= restore_ops(path).len(),
    ensures
        ({
            let now = all_applied(files, restore_ops(path).take(k));
            ||| now.contains_key(path) && now[path] == files[backup_of(path)]
            ||| now.contains_key(backup_of(path)) && now[backup_of(path)]
                == files[backup_of(path)]
        }),
{
    let back = restore_ops(path);
    replacement_places_are_distinct(path);
    lemma_none_applied(files, back);
    lemma_one_more(files, back, 0);
    lemma_one_more(files, back, 1);
}

} // verus!
