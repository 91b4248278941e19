//! What holds of the places of files and of changes to files, stated on their names
//! and contents.

use vstd::prelude::*;

use crate::files::{FileOp, OpView};
use crate::path::{FilePath, PathView};

verus! {

proof fn lemma_last_dot(front: Seq<char>, back: Seq<char>)
    requires
        front.len() > 0,
        !back.contains('.'),
    ensures
        crate::path::final_dot(front + seq!['.'] + back) == front.len(),
    decreases back.len(),
{
    let s = front + seq!['.'] + back;
    if back.len() > 0 {
        assert(s.drop_last() =~= front + seq!['.'] + back.drop_last());
        assert(s.last() == back.last());
        assert(back.contains(back.last())) by {
            assert(back[back.len() - 1] == back.last());
        }
        let less = back.drop_last();
        assert forall|i: int| 0 <= i < less.len() implies less[i] != '.' by {
            assert(back.contains(back[i]));
        }
        lemma_last_dot(front, less);
    }
}

proof fn lemma_no_dot(s: Seq<char>)
    requires
        forall|i: int| 0 < i < s.len() ==> s[i] != '.',
    ensures
        crate::path::final_dot(s) == 0,
    decreases s.len(),
{
    if s.len() > 1 {
        assert(s[s.len() - 1] == s.last());
        assert forall|i: int| 0 < i < s.drop_last().len() implies s.drop_last()[i] != '.' by {
            assert(s[i] != '.');
        }
        lemma_no_dot(s.drop_last());
    }
}

/// What stands behind the last dot of a file name gives way to a new extension. The
/// directory stays.
pub proof fn an_extension_is_replaced(
    path: PathView,
    front: Seq<char>,
    back: Seq<char>,
    extension: Seq<char>,
)
    requires
        path.name == front + "."@ + back,
        front.len() > 0,
        !back.contains('.'),
        path.name != ".."@,
    ensures
        path.with_extension(extension).dir == path.dir,
        path.with_extension(extension).name == front + "."@ + extension,
{
    reveal_strlit(".");
    reveal_strlit("..");
    lemma_last_dot(front, back);
    assert(path.name =~= front + seq!['.'] + back);
    assert(path.name.take(front.len() as int) =~= front);
    assert(path.name.len() > 1);
}

/// A file name without a dot, or with one only at its beginning, is followed by a
/// new extension. Where there is no file name nothing changes.
pub proof fn a_missing_extension_is_added(path: PathView, extension: Seq<char>)
    ensures
        path.name.len() > 0 && path.name != "."@ && (forall|i: int|
            0 < i < path.name.len() ==> path.name[i] != '.') ==> path.with_extension(extension) == (
        PathView { dir: path.dir, name: path.name + "."@ + extension }),
        path.name.len() == 0 || path.name == "."@ || path.name == ".."@ ==> path.with_extension(
            extension,
        ) == path,
{
    reveal_strlit(".");
    reveal_strlit("..");
    if path.name.len() > 0 && path.name != "."@ && (forall|i: int|
        0 < i < path.name.len() ==> path.name[i] != '.') {
        lemma_no_dot(path.name);
        assert(path.name != ".."@) by {
            if path.name == ".."@ {
                assert(path.name[1] == '.');
            }
        }
    }
}

/// The backup of an archive stands next to it, with `.backup` behind its name; the
/// replacement in the making with `.temp`.
pub proof fn side_places_stand_next_to_the_archive(path: PathView, front: Seq<char>)
    requires
        path.name == front + ".pak"@,
        front.len() > 0,
    ensures
        crate::files::backup_of(path) == (PathView {
            dir: path.dir,
            name: front + ".pak.backup"@,
        }),
        path.with_extension("pak.temp"@) == (PathView {
            dir: path.dir,
            name: front + ".pak.temp"@,
        }),
{
    reveal_strlit(".");
    reveal_strlit("..");
    reveal_strlit("pak");
    reveal_strlit(".pak");
    reveal_strlit("pak.backup");
    reveal_strlit("pak.temp");
    reveal_strlit(".pak.backup");
    reveal_strlit(".pak.temp");
    assert(path.name =~= front + "."@ + "pak"@);
    assert(path.name.len() > 2);
    an_extension_is_replaced(path, front, "pak"@, "pak.backup"@);
    an_extension_is_replaced(path, front, "pak"@, "pak.temp"@);
    assert(front + "."@ + "pak.backup"@ =~= front + ".pak.backup"@);
    assert(front + "."@ + "pak.temp"@ =~= front + ".pak.temp"@);
}

/// A removal takes one file away; a move gives one place the content of another,
/// which is gone afterwards. No other file changes.
pub proof fn changes_touch_their_files(
    files: Map<PathView, Seq<u8>>,
    p: PathView,
    q: PathView,
    other: PathView,
)
    ensures
        !crate::files::applied(files, OpView::Remove(p)).contains_key(p),
        other != p ==> {
            let after = crate::files::applied(files, OpView::Remove(p));
            after.contains_key(other) == files.contains_key(other) && after[other] == files[other]
        },
        p != q ==> {
            let after = crate::files::applied(files, OpView::Rename(p, q));
            !after.contains_key(p) && after.contains_key(q) && after[q] == files[p]
        },
        p != q && other != p && other != q ==> {
            let after = crate::files::applied(files, OpView::Rename(p, q));
            after.contains_key(other) == files.contains_key(other) && after[other] == files[other]
        },
        crate::files::applied(files, OpView::Rename(p, p)) == files,
{
}

/// Changes are made one after the other, in the order of the list.
pub proof fn changes_are_made_in_order(
    files: Map<PathView, Seq<u8>>,
    ops: Seq<OpView>,
    next: OpView,
)
    ensures
        crate::files::all_applied(files, Seq::<OpView>::empty()) == files,
        crate::files::all_applied(files, ops.push(next)) == crate::files::applied(
            crate::files::all_applied(files, ops),
            next,
        ),
{
    assert(ops.push(next).drop_last() =~= ops);
}

/// A replacement is put in place by three changes at most: an old backup goes, the
/// original becomes the backup, and what was written takes its place. A restore
/// takes the replacement away and moves the backup back.
pub proof fn replacing_and_restoring_move_files(path: PathView, written: PathView)
    ensures
        ({
            let backup = path.with_extension("pak.backup"@);
            &&& crate::files::backup_of(path) == backup
            &&& crate::files::replacement_ops(path, written, false) == seq![
                OpView::Rename(path, backup),
                OpView::Rename(written, path),
            ]
            &&& crate::files::replacement_ops(path, written, true) == seq![
                OpView::Remove(backup),
                OpView::Rename(path, backup),
                OpView::Rename(written, path),
            ]
            &&& crate::files::restore_ops(path) == seq![
                OpView::Remove(path),
                OpView::Rename(backup, path),
            ]
        }),
{
    let backup = path.with_extension("pak.backup"@);
    assert(crate::files::replacement_ops(path, written, true) =~= seq![
        OpView::Remove(backup),
        OpView::Rename(path, backup),
        OpView::Rename(written, path),
    ]);
}

/// The values of places and changes hold what these hold.
pub proof fn place_values_are_their_parts(p: FilePath, q: FilePath, ops: Seq<FileOp>)
    ensures
        p@.dir == p.dir@,
        p@.name == p.name@,
        FileOp::Remove(p)@ == OpView::Remove(p@),
        FileOp::Rename(p, q)@ == OpView::Rename(p@, q@),
        crate::files::ops_view(ops).len() == ops.len(),
        forall|i: int| 0 <= i < ops.len() ==> #[trigger] crate::files::ops_view(ops)[i] == ops[i]@,
{
}

} // verus!
