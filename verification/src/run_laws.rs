//! What holds of a run over the archives of the game, stated on directory entries,
//! names, paths and bytes.

use vstd::prelude::*;

use crate::chunk::{ChunkName, ChunkNameView};
use crate::error::Error;
use crate::files::OpView;
use crate::metadata::PakMetadata;
use crate::mode::Mode;
use crate::output::{JobView, PackJob};
use crate::pack::{EntryAction, EntrySample, PackagePlan, TexHashes};
use crate::path::PathView;
use crate::selection::{ChunkSelection, DirEntry, FoundArchives, SelectionView};

verus! {

/// A scan goes through the entries one by one. It lists exactly the files that end
/// in `.pak` and bear the name of an archive, each under that name, with its size
/// and its path.
pub proof fn a_scan_lists_archives_one_by_one(entries: Seq<DirEntry>, next: DirEntry)
    ensures
        crate::selection::archives_in(Seq::<DirEntry>::empty()) == Seq::<SelectionView>::empty(),
        crate::selection::archives_in(entries.push(next)) == if next.is_file
            && ".pak"@.is_suffix_of(next.path.name@) && crate::chunk::parsed(
            next.path.name@,
        ) is Some {
            crate::selection::archives_in(entries).push(
                SelectionView {
                    name: crate::chunk::parsed(next.path.name@)->0,
                    size: next.size,
                    path: PathView { dir: next.path.dir@, name: next.path.name@ },
                },
            )
        } else {
            crate::selection::archives_in(entries)
        },
{
    reveal_with_fuel(Seq::filter, 2);
    assert(entries.push(next).drop_last() =~= entries);
    assert(crate::selection::archives_in(Seq::<DirEntry>::empty())
        =~= Seq::<SelectionView>::empty());
    let kept = entries.filter(|e: DirEntry| crate::selection::is_archive(e));
    if crate::selection::is_archive(next) {
        assert(crate::selection::archives_in(entries.push(next))
            =~= crate::selection::archives_in(entries).push(
            crate::selection::selection_of(next),
        ));
    }
}

/// A scan is complete: it lists every file that ends in `.pak` and bears the name
/// of an archive, and nothing else. There are as many archives as such entries.
pub proof fn a_scan_lists_every_archive(entries: Seq<DirEntry>)
    ensures
        crate::selection::archives_in(entries).len() == entries.filter(
            |e: DirEntry|
                e.is_file && ".pak"@.is_suffix_of(e.path.name@) && crate::chunk::parsed(
                    e.path.name@,
                ) is Some,
        ).len(),
        forall|i: int|
            0 <= i < entries.len() && (#[trigger] entries[i]).is_file && ".pak"@.is_suffix_of(
                entries[i].path.name@,
            ) && crate::chunk::parsed(entries[i].path.name@) is Some
                ==> crate::selection::archives_in(entries).contains(
                SelectionView {
                    name: crate::chunk::parsed(entries[i].path.name@)->0,
                    size: entries[i].size,
                    path: entries[i].path@,
                },
            ),
        forall|k: int|
            0 <= k < crate::selection::archives_in(entries).len() ==> exists|i: int| {
                &&& 0 <= i < entries.len()
                &&& (#[trigger] entries[i]).is_file
                &&& ".pak"@.is_suffix_of(entries[i].path.name@)
                &&& entries[i].path@ == (#[trigger] crate::selection::archives_in(entries)[k]).path
                &&& entries[i].size == crate::selection::archives_in(entries)[k].size
                &&& crate::chunk::parsed(entries[i].path.name@) == Some(
                    crate::selection::archives_in(entries)[k].name,
                )
            },
    decreases entries.len(),
{
    let wanted = |e: DirEntry|
        e.is_file && ".pak"@.is_suffix_of(e.path.name@) && crate::chunk::parsed(
            e.path.name@,
        ) is Some;
    let list = crate::selection::archives_in(entries);
    reveal_with_fuel(Seq::filter, 2);
    if entries.len() > 0 {
        let front = entries.drop_last();
        let last = entries.last();
        let n = front.len() as int;
        let before = crate::selection::archives_in(front);
        a_scan_lists_every_archive(front);
        a_scan_lists_archives_one_by_one(front, last);
        assert(front.push(last) =~= entries);
        assert(entries[n] == last);
        assert forall|i: int|
            0 <= i < entries.len() && wanted(#[trigger] entries[i]) implies list.contains(
            SelectionView {
                name: crate::chunk::parsed(entries[i].path.name@)->0,
                size: entries[i].size,
                path: entries[i].path@,
            },
        ) by {
            let view = SelectionView {
                name: crate::chunk::parsed(entries[i].path.name@)->0,
                size: entries[i].size,
                path: entries[i].path@,
            };
            if i < n {
                assert(front[i] == entries[i]);
                assert(wanted(front[i]));
                assert(before.contains(view));
                let k = choose|k: int| 0 <= k < before.len() && before[k] == view;
                assert(list[k] == view);
            } else {
                assert(list[before.len() as int] == view);
            }
        }
        assert forall|k: int| 0 <= k < list.len() implies exists|i: int| {
            &&& 0 <= i < entries.len()
            &&& (#[trigger] entries[i]).is_file
            &&& ".pak"@.is_suffix_of(entries[i].path.name@)
            &&& entries[i].path@ == (#[trigger] list[k]).path
            &&& entries[i].size == list[k].size
            &&& crate::chunk::parsed(entries[i].path.name@) == Some(list[k].name)
        } by {
            if k < before.len() {
                assert(list[k] == before[k]);
                let i = choose|i: int| {
                    &&& 0 <= i < front.len()
                    &&& (#[trigger] front[i]).is_file
                    &&& ".pak"@.is_suffix_of(front[i].path.name@)
                    &&& front[i].path@ == before[k].path
                    &&& front[i].size == before[k].size
                    &&& crate::chunk::parsed(front[i].path.name@) == Some(before[k].name)
                };
                assert(entries[i] == front[i]);
            } else {
                assert(entries[n].is_file);
            }
        }
    } else {
        assert(list =~= Seq::<SelectionView>::empty());
    }
}

/// The archives of the chosen places: each choice of the main directory brings its
/// archives, each choice of the directory of downloadable content brings that
/// directory's, in the order of the choices.
pub proof fn chosen_places_are_gathered(
    main: Seq<ChunkSelection>,
    dlc: Seq<ChunkSelection>,
    chosen: Seq<usize>,
    other: usize,
)
    ensures
        crate::selection::gathered(main, dlc, Seq::<usize>::empty()) == Seq::<
            ChunkSelection,
        >::empty(),
        crate::selection::gathered(main, dlc, chosen.push(0)) == crate::selection::gathered(
            main,
            dlc,
            chosen,
        ) + main,
        crate::selection::gathered(main, dlc, chosen.push(1)) == crate::selection::gathered(
            main,
            dlc,
            chosen,
        ) + dlc,
        other > 1 ==> crate::selection::gathered(main, dlc, chosen.push(other))
            == crate::selection::gathered(main, dlc, chosen),
{
    assert(chosen.push(0usize).drop_last() =~= chosen);
    assert(chosen.push(1usize).drop_last() =~= chosen);
    assert(chosen.push(other).drop_last() =~= chosen);
    let so_far = crate::selection::gathered(main, dlc, chosen);
    assert(so_far + Seq::<ChunkSelection>::empty() =~= so_far);
}

/// `after` holds every archive of `before` once, `after[i]` being the one that was
/// found at position `from[i]`; those of one name are in the order in which they
/// were found.
pub open spec fn keeps_found_order(
    before: Seq<ChunkSelection>,
    after: Seq<ChunkSelection>,
    from: Seq<int>,
) -> bool {
    &&& from.len() == before.len()
    &&& after.len() == before.len()
    &&& forall|x: int| 0 <= x < before.len() ==> #[trigger] from.contains(x)
    &&& forall|i: int|
        0 <= i < after.len() ==> 0 <= #[trigger] from[i] < before.len() && after[i]
            == before[from[i]]
    &&& forall|i: int, j: int|
        0 <= i < j < after.len() && after[i]@.name == after[j]@.name ==> #[trigger] from[i]
            < #[trigger] from[j]
}

/// A sorted list holds the same archives, none before one whose name comes earlier,
/// and those of one name in the order in which they were found.
pub proof fn sorted_lists_are_in_order(before: Seq<ChunkSelection>, after: Seq<ChunkSelection>)
    requires
        crate::selection::sorted_stably(before, after),
    ensures
        forall|i: int, j: int|
            0 <= i < j < after.len() ==> !crate::order::name_less(
                (#[trigger] after[j])@.name,
                (#[trigger] after[i])@.name,
            ),
        exists|from: Seq<int>| #[trigger] keeps_found_order(before, after, from),
{
    let from = choose|from: Seq<int>| crate::selection::rearranged(before, after, from);
    assert forall|i: int, j: int| 0 <= i < j < after.len() implies !crate::order::name_less(
        (#[trigger] after[j])@.name,
        (#[trigger] after[i])@.name,
    ) by {
        assert(crate::selection::in_place(after[i], after[j], from[i], from[j]));
        crate::order::names_are_totally_ordered(after[i]@.name, after[j]@.name);
    }
    assert forall|x: int| 0 <= x < before.len() implies #[trigger] from.contains(x) by {
        crate::selection::lemma_every_position_taken(from, x);
    }
    assert forall|i: int, j: int|
        0 <= i < j < after.len() && after[i]@.name == after[j]@.name implies #[trigger] from[i]
        < #[trigger] from[j] by {
        assert(crate::selection::in_place(after[i], after[j], from[i], from[j]));
        crate::order::names_are_totally_ordered(after[i]@.name, after[j]@.name);
    }
    assert(keeps_found_order(before, after, from));
}

/// Only sub chunks are offered, and those of a mebibyte or more are marked.
pub proof fn sub_chunks_are_offered(c: ChunkSelection)
    ensures
        crate::selection::is_sub_chunk(c) <==> c.chunk_name.sub is Some,
        crate::selection::AUTO_CHUNK_SELECTION_SIZE_THRESHOLD == 1024 * 1024,
{
}

/// What two scans found, sorted together, lists every archive of their files. So
/// the patch numbers of a run are taken from all patches that are there.
pub proof fn scanned_archives_are_all_listed(
    main_entries: Seq<DirEntry>,
    dlc_entries: Seq<DirEntry>,
    main: Seq<ChunkSelection>,
    dlc: Seq<ChunkSelection>,
    all: Seq<ChunkSelection>,
    files: Map<PathView, Seq<u8>>,
)
    requires
        crate::selection::views(main) == crate::selection::archives_in(main_entries),
        crate::selection::views(dlc) == crate::selection::archives_in(dlc_entries),
        crate::selection::sorted_stably(
            crate::selection::gathered(main, dlc, seq![0usize, 1usize]),
            all,
        ),
        forall|path: PathView| #[trigger]
            files.contains_key(path) ==> exists|i: int|
                0 <= i < (main_entries + dlc_entries).len() && (#[trigger] (main_entries
                    + dlc_entries)[i]).is_file && (main_entries + dlc_entries)[i].path@ == path,
    ensures
        crate::runs::lists_all(all, files),
        forall|path: PathView| #[trigger]
            files.contains_key(path) && ".pak"@.is_suffix_of(path.name) && crate::chunk::parsed(
                path.name,
            ) is Some ==> exists|k: int|
                0 <= k < all.len() && (#[trigger] all[k])@.path == path && Some(all[k]@.name)
                    == crate::chunk::parsed(path.name),
{
    let entries = main_entries + dlc_entries;
    let found = main + dlc;
    assert(crate::selection::gathered(main, dlc, seq![0usize, 1usize]) =~= found) by {
        let none = Seq::<usize>::empty();
        chosen_places_are_gathered(main, dlc, none, 2);
        chosen_places_are_gathered(main, dlc, none.push(0), 2);
        assert(none.push(0).push(1) =~= seq![0usize, 1usize]);
        assert(Seq::<ChunkSelection>::empty() + main =~= main);
    }
    crate::selection::sorting_keeps_selections(found, all);
    a_scan_lists_every_archive(main_entries);
    a_scan_lists_every_archive(dlc_entries);
    assert forall|x: int| 0 <= x < found.len() implies crate::selection::fits_its_file(
        (#[trigger] found[x])@,
    ) by {
        if x < main.len() {
            assert(crate::selection::views(main)[x] == main[x]@);
            assert(crate::selection::archives_in(main_entries)[x] == found[x]@);
        } else {
            let y = x - main.len();
            assert(crate::selection::views(dlc)[y] == dlc[y]@);
            assert(crate::selection::archives_in(dlc_entries)[y] == found[x]@);
        }
    }
    assert forall|k: int| 0 <= k < all.len() implies crate::selection::fits_its_file(
        (#[trigger] all[k])@,
    ) by {
        assert(all.contains(all[k]));
        let x = choose|x: int| 0 <= x < found.len() && found[x] == all[k];
        assert(crate::selection::fits_its_file(found[x]@));
    }
    assert forall|path: PathView| #[trigger]
        files.contains_key(path) && ".pak"@.is_suffix_of(path.name) && crate::chunk::parsed(
            path.name,
        ) is Some implies exists|k: int|
        0 <= k < all.len() && (#[trigger] all[k])@.path == path && Some(all[k]@.name)
            == crate::chunk::parsed(path.name) by {
        let i = choose|i: int|
            0 <= i < entries.len() && (#[trigger] entries[i]).is_file && entries[i].path@ == path;
        let view = SelectionView {
            name: crate::chunk::parsed(path.name)->0,
            size: entries[i].size,
            path,
        };
        let x = if i < main_entries.len() {
            assert(main_entries[i] == entries[i]);
            assert(crate::selection::archives_in(main_entries).contains(view));
            let x = choose|x: int| 0 <= x < main.len() && crate::selection::views(main)[x] == view;
            assert(found[x]@ == view);
            x
        } else {
            assert(dlc_entries[i - main_entries.len()] == entries[i]);
            assert(crate::selection::archives_in(dlc_entries).contains(view));
            let y = choose|y: int| 0 <= y < dlc.len() && crate::selection::views(dlc)[y] == view;
            assert(found[main.len() + y]@ == view);
            main.len() + y
        };
        assert(found.contains(found[x]));
        assert(all.contains(found[x]));
        let k = choose|k: int| 0 <= k < all.len() && all[k] == found[x];
        assert(all[k]@.path == path);
    }
}

/// The values of archives, entries and jobs hold what these hold.
pub proof fn selection_values_are_their_parts(
    c: ChunkSelection,
    list: Seq<ChunkSelection>,
    names: Seq<ChunkName>,
    jobs: Seq<PackJob>,
)
    ensures
        crate::selection::views(list).len() == list.len(),
        forall|i: int|
            0 <= i < list.len() ==> #[trigger] crate::selection::views(list)[i] == list[i]@,
        crate::output::selected_names(list).len() == list.len(),
        forall|i: int|
            0 <= i < list.len() ==> #[trigger] crate::output::selected_names(list)[i]
                == list[i]@.name,
        crate::output::names_view(names).len() == names.len(),
        forall|i: int|
            0 <= i < names.len() ==> #[trigger] crate::output::names_view(names)[i] == names[i]@,
        c@.name == c.chunk_name@,
        c@.size == c.file_size,
        c@.path == c.full_path@,
        crate::output::jobs_view(jobs).len() == jobs.len(),
        forall|i: int| 0 <= i < jobs.len() ==> {
            let view = #[trigger] crate::output::jobs_view(jobs)[i];
            &&& view.input == jobs[i].input@
            &&& view.output == jobs[i].output@
            &&& view.use_full_package_mode == jobs[i].use_full_package_mode
            &&& view.use_feature_clone == jobs[i].use_feature_clone
        },
{
}

/// In replace mode there is one job for each selected archive, in their order. It
/// reads the archive, writes a full package that keeps feature flags, and writes it
/// next to the archive, with `.temp` behind its name.
pub proof fn replace_jobs_write_full_packages(
    selected: Seq<ChunkSelection>,
    all: Seq<ChunkSelection>,
    i: int,
    front: Seq<char>,
)
    requires
        0 <= i < selected.len(),
        selected[i].full_path.name@ == front + ".pak"@,
        front.len() > 0,
    ensures
        crate::output::auto_jobs(selected, all, true).len() == selected.len(),
        ({
            let job = crate::output::auto_jobs(selected, all, true)[i];
            &&& job.input == selected[i].full_path@
            &&& job.output.dir == selected[i].full_path.dir@
            &&& job.output.name == front + ".pak.temp"@
            &&& job.use_full_package_mode
            &&& job.use_feature_clone
        }),
{
    crate::file_laws::side_places_stand_next_to_the_archive(selected[i].full_path@, front);
}

/// Whether every file is packed is decided by the mode of the run, and feature
/// flags are kept, in every job of a run. A job reads the archive that was selected
/// and writes into its directory.
pub proof fn jobs_follow_the_mode(
    selected: Seq<ChunkSelection>,
    all: Seq<ChunkSelection>,
    use_replace_mode: bool,
    i: int,
)
    requires
        0 <= i < crate::output::auto_jobs(selected, all, use_replace_mode).len(),
    ensures
        ({
            let job = crate::output::auto_jobs(selected, all, use_replace_mode)[i];
            &&& i < selected.len()
            &&& job.use_full_package_mode == use_replace_mode
            &&& job.use_feature_clone
            &&& job.input == selected[i].full_path@
            &&& job.output.dir == selected[i].full_path.dir@
        }),
        use_replace_mode ==> crate::output::auto_jobs(selected, all, use_replace_mode).len()
            == selected.len(),
{
    if !use_replace_mode {
        crate::output::new_patches_come_last(
            crate::output::selected_names(all),
            crate::output::selected_names(selected),
            i,
        );
    }
}

/// Whether two archives belong to the same sub chunk of the same patch of the same
/// base.
pub open spec fn are_siblings(a: ChunkNameView, b: ChunkNameView) -> bool {
    a.major == b.major && a.patch == b.patch && a.sub == b.sub
}

/// `numbers[i]` is the next number for the selected archive `i`: larger than that
/// of every patch of its sub chunk that is there or was made before, and the
/// smallest such, starting with one.
pub open spec fn is_next_number(
    selected: Seq<ChunkSelection>,
    all: Seq<ChunkSelection>,
    numbers: Seq<u32>,
    i: int,
) -> bool {
    let name = selected[i]@.name;
    &&& forall|j: int|
        0 <= j < all.len() && are_siblings((#[trigger] all[j])@.name, name)
            && all[j]@.name.sub_patch is Some ==> all[j]@.name.sub_patch->0 < numbers[i]
    &&& forall|k: int|
        0 <= k < i && are_siblings((#[trigger] selected[k])@.name, name) ==> numbers[k]
            < numbers[i]
    &&& numbers[i] >= 1
    &&& {
        ||| numbers[i] == 1
        ||| exists|j: int|
            0 <= j < all.len() && are_siblings((#[trigger] all[j])@.name, name)
                && all[j]@.name.sub_patch == Some((numbers[i] - 1) as u32)
        ||| exists|k: int|
            0 <= k < i && are_siblings((#[trigger] selected[k])@.name, name) && numbers[k]
                == numbers[i] - 1
    }
}

/// The job for the selected archive `i` writes the patch `numbers[i]` of it, next to
/// the archive.
pub open spec fn writes_patch(
    selected: Seq<ChunkSelection>,
    jobs: Seq<JobView>,
    numbers: Seq<u32>,
    i: int,
) -> bool {
    let name = selected[i]@.name;
    &&& jobs[i].input == selected[i].full_path@
    &&& jobs[i].output.dir == selected[i].full_path.dir@
    &&& jobs[i].output.name == crate::chunk::spelled(
        ChunkNameView {
            major: name.major,
            patch: name.patch,
            sub: name.sub,
            sub_patch: Some(numbers[i]),
        },
    )
    &&& !jobs[i].use_full_package_mode
}

proof fn lemma_next_number(
    selected: Seq<ChunkSelection>,
    all: Seq<ChunkSelection>,
    numbers: Seq<u32>,
    i: int,
)
    requires
        ({
            let patches = crate::output::new_patches(
                crate::output::selected_names(all),
                crate::output::selected_names(selected),
            );
            &&& numbers == Seq::new(patches.len(), |i: int| patches[i].sub_patch->0)
            &&& 0 <= i < patches.len()
        }),
    ensures
        i < selected.len(),
        is_next_number(selected, all, numbers, i),
        writes_patch(selected, crate::output::auto_jobs(selected, all, false), numbers, i),
{
    let names = crate::output::selected_names(all);
    let picks = crate::output::selected_names(selected);
    let patches = crate::output::new_patches(names, picks);
    crate::output::new_patches_come_last(names, picks, i);
    let there = names + patches.take(i);
    let name = selected[i]@.name;
    let highest = crate::output::highest_patch(there, picks[i]);
    crate::output::highest_patch_is_the_maximum(there, picks[i]);
    assert(picks[i] == name);
    crate::output::lemma_new_patch_at(names, picks, i);
    assert(numbers[i] == highest + 1);
    assert forall|j: int|
        0 <= j < all.len() && are_siblings((#[trigger] all[j])@.name, name)
            && all[j]@.name.sub_patch is Some implies all[j]@.name.sub_patch->0 < numbers[i] by {
        assert(there[j] == names[j]);
        assert(crate::output::same_series(there[j], picks[i]));
    }
    assert forall|k: int|
        0 <= k < i && are_siblings((#[trigger] selected[k])@.name, name) implies numbers[k]
        < numbers[i] by {
        crate::output::new_patches_come_last(names, picks, k);
        assert(there[names.len() + k] == patches[k]);
        assert(picks[k] == selected[k]@.name);
        assert(crate::output::same_series(there[names.len() + k], picks[i]));
    }
    if highest > 0 {
        let x = choose|x: int|
            0 <= x < there.len() && crate::output::same_series(#[trigger] there[x], picks[i])
                && there[x].sub_patch == Some(highest);
        if x < names.len() {
            assert(there[x] == names[x]);
            assert(are_siblings(all[x]@.name, name));
        } else {
            let k = x - names.len();
            crate::output::new_patches_come_last(names, picks, k);
            assert(there[x] == patches[k]);
            assert(picks[k] == selected[k]@.name);
            assert(are_siblings(selected[k]@.name, name));
        }
    }
}

/// In patch mode every job writes a new patch of its archive, next to it: with the
/// next number, whatever the archive belongs to. There are fewer jobs than selected
/// archives only where the next one's sub chunk has used up its numbers.
pub proof fn patch_jobs_write_the_next_patch(
    selected: Seq<ChunkSelection>,
    all: Seq<ChunkSelection>,
) -> (numbers: Seq<u32>)
    ensures
        numbers.len() == crate::output::auto_jobs(selected, all, false).len(),
        numbers.len() <= selected.len(),
        forall|i: int|
            0 <= i < numbers.len() ==> #[trigger] is_next_number(selected, all, numbers, i),
        forall|i: int|
            0 <= i < numbers.len() ==> #[trigger] writes_patch(
                selected,
                crate::output::auto_jobs(selected, all, false),
                numbers,
                i,
            ),
        numbers.len() < selected.len() ==> {
            let name = selected[numbers.len() as int]@.name;
            ||| exists|j: int|
                0 <= j < all.len() && are_siblings((#[trigger] all[j])@.name, name)
                    && all[j]@.name.sub_patch == Some(u32::MAX)
            ||| exists|k: int|
                0 <= k < numbers.len() && are_siblings((#[trigger] selected[k])@.name, name)
                    && numbers[k] == u32::MAX
        },
{
    let names = crate::output::selected_names(all);
    let picks = crate::output::selected_names(selected);
    let patches = crate::output::new_patches(names, picks);
    let numbers = Seq::new(patches.len(), |i: int| patches[i].sub_patch->0);
    crate::output::patches_end_early_only_when_full(names, picks);
    assert forall|i: int| 0 <= i < numbers.len() implies #[trigger] is_next_number(
        selected,
        all,
        numbers,
        i,
    ) by {
        lemma_next_number(selected, all, numbers, i);
    }
    assert forall|i: int| 0 <= i < numbers.len() implies #[trigger] writes_patch(
        selected,
        crate::output::auto_jobs(selected, all, false),
        numbers,
        i,
    ) by {
        lemma_next_number(selected, all, numbers, i);
    }
    let n = numbers.len() as int;
    if n < selected.len() {
        let there = names + patches;
        let name = selected[n]@.name;
        assert(picks[n] == name);
        crate::output::highest_patch_is_the_maximum(there, picks[n]);
        let x = choose|x: int|
            0 <= x < there.len() && crate::output::same_series(#[trigger] there[x], picks[n])
                && there[x].sub_patch == Some(u32::MAX);
        if x < names.len() {
            assert(there[x] == names[x]);
            assert(are_siblings(all[x]@.name, name));
        } else {
            let k = x - names.len();
            crate::output::new_patches_come_last(names, picks, k);
            assert(there[x] == patches[k]);
            assert(picks[k] == selected[k]@.name);
            assert(are_siblings(selected[k]@.name, name));
        }
    }
    numbers
}

/// The highest patch of a sub chunk is zero where it has none, and otherwise the
/// number of one of its patches, which no other exceeds.
pub proof fn the_highest_patch_is_that_of_the_siblings(
    names: Seq<ChunkNameView>,
    of: ChunkNameView,
)
    ensures
        forall|i: int|
            0 <= i < names.len() && are_siblings(#[trigger] names[i], of) && names[i].sub_patch
                is Some ==> names[i].sub_patch->0 <= crate::output::highest_patch(names, of),
        crate::output::highest_patch(names, of) > 0 ==> exists|i: int|
            0 <= i < names.len() && are_siblings(#[trigger] names[i], of) && names[i].sub_patch
                == Some(crate::output::highest_patch(names, of)),
{
    crate::output::highest_patch_is_the_maximum(names, of);
    assert forall|i: int|
        0 <= i < names.len() && are_siblings(#[trigger] names[i], of) && names[i].sub_patch
            is Some implies names[i].sub_patch->0 <= crate::output::highest_patch(names, of) by {
        assert(crate::output::same_series(names[i], of));
    }
    let h = crate::output::highest_patch(names, of);
    if h > 0 {
        let i = choose|i: int|
            0 <= i < names.len() && crate::output::same_series(#[trigger] names[i], of)
                && names[i].sub_patch == Some(h);
        assert(are_siblings(names[i], of));
    }
}

/// A file counts as a texture exactly if its first bytes could be read and stand for
/// the extension `tex`. In a full package such a file is decompressed and every
/// other is copied, whatever its extension is.
pub proof fn only_tex_files_are_textures(sample: EntrySample, extension: Option<String>)
    ensures
        crate::pack::is_texture(sample) <==> sample.magic_read && sample.extension is Some
            && sample.extension->0@ == seq!['t', 'e', 'x'],
        extension is Some && extension->0@ == seq!['t', 'e', 'x'] ==> crate::pack::action_of(
            true,
            crate::pack::extension_view(extension),
        ) == EntryAction::Decompress,
        extension is None || extension->0@ != seq!['t', 'e', 'x'] ==> crate::pack::action_of(
            true,
            crate::pack::extension_view(extension),
        ) == EntryAction::Copy,
        crate::pack::action_of(false, crate::pack::extension_view(extension))
            == EntryAction::Decompress,
{
    reveal_strlit("tex");
    assert("tex"@ =~= seq!['t', 'e', 'x']);
}

/// A package of textures is limited to the hashes of the files whose first bytes
/// stand for the extension `tex`. A full package takes every file.
pub proof fn a_texture_package_takes_the_textures(samples: Seq<EntrySample>, hash: u64)
    ensures
        crate::pack::packs(None, hash),
        crate::pack::packs(Some(crate::pack::texture_list(samples).to_set()), hash)
            <==> exists|i: int| {
            &&& 0 <= i < samples.len()
            &&& (#[trigger] samples[i]).hash == hash
            &&& samples[i].magic_read
            &&& samples[i].extension is Some
            &&& samples[i].extension->0@ == seq!['t', 'e', 'x']
        },
        crate::pack::texture_list(samples).to_set().contains(hash) <==> crate::pack::packs(
            Some(crate::pack::texture_list(samples).to_set()),
            hash,
        ),
{
    let set = crate::pack::texture_list(samples).to_set();
    crate::pack::packed_textures_are_those_detected(samples, hash);
    if crate::pack::packs(Some(set), hash) {
        let i = choose|i: int|
            0 <= i < samples.len() && crate::pack::is_texture(#[trigger] samples[i])
                && samples[i].hash == hash;
        only_tex_files_are_textures(samples[i], None);
        assert(samples[i].hash == hash);
    }
    if exists|i: int| {
        &&& 0 <= i < samples.len()
        &&& (#[trigger] samples[i]).hash == hash
        &&& samples[i].magic_read
        &&& samples[i].extension is Some
        &&& samples[i].extension->0@ == seq!['t', 'e', 'x']
    } {
        let i = choose|i: int| {
            &&& 0 <= i < samples.len()
            &&& (#[trigger] samples[i]).hash == hash
            &&& samples[i].magic_read
            &&& samples[i].extension is Some
            &&& samples[i].extension->0@ == seq!['t', 'e', 'x']
        };
        only_tex_files_are_textures(samples[i], None);
        assert(crate::pack::is_texture(samples[i]));
    }
}

/// A package takes the files that its set of hashes holds, or every file where it
/// has none; the set of a plan is the one that it holds.
pub proof fn packages_are_limited_by_hashes(limit: Set<u64>, textures: TexHashes, hash: u64)
    ensures
        crate::pack::packs(Some(limit), hash) <==> limit.contains(hash),
        crate::pack::packs(None, hash),
        crate::pack::tex_view(Some(textures)) == Some(textures.hashes@),
        crate::pack::tex_view(None) is None,
{
}

/// The attributes that a packed file keeps, where it keeps any, are those bits of
/// the original that the mask of known ones does not hold, every one of them.
pub proof fn kept_attributes_are_the_unknown_ones(all_attr: u64, known_mask: u64)
    ensures
        crate::pack::attr_kept(false, all_attr, known_mask) is None,
        crate::pack::attr_kept(true, all_attr, known_mask) is Some,
        crate::pack::attr_kept(true, all_attr, known_mask)->0 & known_mask == 0,
        crate::pack::attr_kept(true, all_attr, known_mask)->0 | (all_attr & known_mask)
            == all_attr,
        crate::pack::MAGIC_LEN == 8,
        crate::pack::MESSAGE_INTERVAL == 100,
{
    crate::pack::only_unknown_attributes_are_kept(all_attr, known_mask);
}

/// A mark is the name of the tool in capital letters, the version of its format and
/// a flag that is one for a full package and zero for a patch.
pub proof fn marks_name_the_tool(full_package: bool)
    ensures
        ({
            let bytes = crate::metadata::encoded(PakMetadata { full_package });
            let tool = "MHWS_TEX_DECOMPRESSOR"@;
            &&& bytes.len() == tool.len() + 2
            &&& forall|i: int| 0 <= i < tool.len() ==> bytes[i] as nat == #[trigger] tool[i] as nat
            &&& bytes[tool.len() as int] == 1
            &&& bytes[tool.len() as int + 1] == if full_package {
                1
            } else {
                0u8
            }
        }),
{
    reveal_strlit("MHWS_TEX_DECOMPRESSOR");
}

/// The messages of errors. A wrong entry of the menu is named by its number.
pub proof fn errors_say_what_is_missing(index: usize)
    ensures
        crate::error::message_of(Error::InvalidModeIndex(index)) == "Invalid mode index: "@
            + crate::text::decimal(index as nat),
        crate::error::message_of(Error::GameDirectoryMissing) == "game directory not exists."@,
        crate::error::message_of(Error::InputFileMissing) == "input file not exists."@,
        crate::error::message_of(Error::NoPakFiles) == "No available pak files found."@,
        crate::error::message_of(Error::NoChunksSelected) == "No chunks selected."@,
{
}

/// For an archive named by the user, the package is written next to it, with
/// `uncompressed` before the `.pak` at its end. It is a full one, and keeps feature
/// flags, exactly if the second entry of the menu was chosen.
pub proof fn manual_jobs_write_next_to_the_archive(
    input: PathView,
    front: Seq<char>,
    full_package: usize,
    feature_clone: usize,
)
    requires
        input.name == front + ".pak"@,
        front.len() > 0,
    ensures
        ({
            let job = crate::output::manual_job_for(input, full_package, feature_clone);
            &&& job.input == input
            &&& job.output.dir == input.dir
            &&& job.output.name == front + ".uncompressed.pak"@
            &&& job.use_full_package_mode <==> full_package == 1
            &&& job.use_feature_clone <==> feature_clone == 1
        }),
{
    reveal_strlit(".");
    reveal_strlit("..");
    reveal_strlit("pak");
    reveal_strlit(".pak");
    reveal_strlit("uncompressed.pak");
    reveal_strlit(".uncompressed.pak");
    assert(input.name =~= front + "."@ + "pak"@);
    assert(input.name.len() > 2);
    crate::file_laws::an_extension_is_replaced(input, front, "pak"@, "uncompressed.pak"@);
    assert(front + "."@ + "uncompressed.pak"@ =~= front + ".uncompressed.pak"@);
}

/// The answers of the user decide on a manual job alike for every file; a file name
/// of another kind gets the same extension.
pub proof fn manual_jobs_follow_the_answers(
    input: PathView,
    full_package: usize,
    feature_clone: usize,
)
    ensures
        ({
            let job = crate::output::manual_job_for(input, full_package, feature_clone);
            &&& job.input == input
            &&& job.output == input.with_extension("uncompressed.pak"@)
            &&& job.use_full_package_mode <==> full_package == 1
            &&& job.use_feature_clone <==> feature_clone == 1
        }),
{
}

/// A job in patch mode changes no file but the one that it writes. One in replace
/// mode ends with the new content at the place of the original, the old content at
/// that of the backup, and nothing at that where the new one was written.
pub proof fn finished_jobs_put_files_in_place(
    files: Map<PathView, Seq<u8>>,
    job: JobView,
    backup_exists: bool,
    front: Seq<char>,
)
    requires
        files.contains_key(job.input),
        files.contains_key(job.output),
        job.input.name == front + ".pak"@,
        front.len() > 0,
        job.output == job.input.with_extension("pak.temp"@),
    ensures
        crate::files::all_applied(files, crate::output::finishing_ops(job, false, backup_exists))
            == files,
        ({
            let backup = PathView { dir: job.input.dir, name: front + ".pak.backup"@ };
            let after = crate::files::all_applied(
                files,
                crate::output::finishing_ops(job, true, backup_exists),
            );
            &&& after.contains_key(job.input) && after[job.input] == files[job.output]
            &&& after.contains_key(backup) && after[backup] == files[job.input]
            &&& !after.contains_key(job.output)
            &&& forall|other: PathView|
                other != job.input && other != job.output && other != backup ==> (
                #[trigger] after.contains_key(other) == files.contains_key(other) && after[other]
                    == files[other])
        }),
        crate::output::finishing_ops(job, true, true).len() == 3,
        crate::output::finishing_ops(job, true, false).len() == 2,
{
    let path = job.input;
    let written = job.output;
    reveal_strlit(".");
    reveal_strlit("..");
    reveal_strlit(".pak");
    assert(path.name.len() > 4);
    assert(crate::path::is_file_name(path.name));
    crate::file_laws::side_places_stand_next_to_the_archive(path, front);
    crate::file_laws::replacing_and_restoring_move_files(path, written);
    crate::files::replacement_places_are_distinct(path);
    let backup = crate::files::backup_of(path);
    let ops = crate::output::finishing_ops(job, true, backup_exists);
    let none = Seq::<OpView>::empty();
    crate::file_laws::changes_are_made_in_order(files, none, OpView::Remove(backup));
    crate::file_laws::changes_are_made_in_order(files, none, OpView::Rename(path, backup));
    let first = if backup_exists {
        none.push(OpView::Remove(backup))
    } else {
        none
    };
    crate::file_laws::changes_are_made_in_order(files, first, OpView::Rename(path, backup));
    let second = first.push(OpView::Rename(path, backup));
    crate::file_laws::changes_are_made_in_order(files, second, OpView::Rename(written, path));
    assert(ops =~= second.push(OpView::Rename(written, path)));
    assert(crate::output::finishing_ops(job, false, backup_exists) =~= none);
}

/// The user is asked for the places to work on only where both hold archives.
/// Otherwise the one that does is taken.
pub proof fn places_are_settled_without_a_choice(main: nat, dlc: nat)
    ensures
        FoundArchives::settled(main, dlc) is None <==> main > 0 && dlc > 0,
        main > 0 && dlc == 0 ==> FoundArchives::settled(main, dlc) == Some(seq![0usize]),
        main == 0 && dlc > 0 ==> FoundArchives::settled(main, dlc) == Some(seq![1usize]),
        main == 0 && dlc == 0 ==> FoundArchives::settled(main, dlc) == Some(
            Seq::<usize>::empty(),
        ),
{
}

/// An archive is marked beforehand from one mebibyte on. The picks of the user are
/// taken by their positions, in their order.
pub proof fn marks_and_picks_follow_the_list(
    size: u64,
    chunks: Seq<ChunkSelection>,
    positions: Seq<usize>,
    next: usize,
)
    ensures
        crate::selection::is_marked(size) <==> size >= 1048576,
        crate::selection::at_positions(chunks, Seq::<usize>::empty()).len() == 0,
        crate::selection::at_positions(chunks, positions.push(next))
            == crate::selection::at_positions(chunks, positions).push(chunks[next as int]),
{
    assert(crate::selection::at_positions(chunks, positions.push(next))
        =~= crate::selection::at_positions(chunks, positions).push(chunks[next as int]));
}

/// A package has one place more than it has files, for its mark. A full one has all
/// files of its original; one of textures has those with the given hashes, and is
/// marked as a patch.
pub proof fn plans_keep_a_place_for_the_mark(hashes: Set<u64>, total: nat)
    ensures
        ({
            let full = crate::pack::planned(None, total);
            &&& full.limit is None
            &&& full.entries == total
            &&& full.slots == total + 1
            &&& full.full_package
        }),
        ({
            let patch = crate::pack::planned(Some(hashes), total);
            &&& patch.limit == Some(hashes)
            &&& patch.entries == hashes.len()
            &&& patch.slots == hashes.len() + 1
            &&& !patch.full_package
        }),
{
}

/// The value of a plan holds what the plan holds.
pub proof fn plan_values_are_their_parts(plan: PackagePlan)
    ensures
        plan.tex_hashes is None <==> plan@.limit is None,
        plan.tex_hashes matches Some(textures) ==> plan@.limit == Some(textures.hashes@),
        plan@.entries == plan.entry_count,
        plan@.slots == plan.slot_count,
        plan@.full_package == plan.metadata.full_package,
{
}

/// The menu has three entries.
pub proof fn the_menu_has_three_modes(index: usize)
    ensures
        crate::mode::mode_at(index) == Some(Mode::Automatic) <==> index == 0,
        crate::mode::mode_at(index) == Some(Mode::Manual) <==> index == 1,
        crate::mode::mode_at(index) == Some(Mode::Restore) <==> index == 2,
        crate::mode::mode_at(index) is None <==> index > 2,
{
}

} // verus!
