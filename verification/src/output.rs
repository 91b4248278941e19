//! Where the processed archives go.
//!
//! In replace mode an archive is first written beside the original, which it
//! then takes the place of. In patch mode it becomes a new patch behind all
//! patches that its sub chunk already has.

use vstd::prelude::*;

use crate::chunk::{same_number, ChunkName, ChunkNameView};
use crate::files::{replace_original, FileOp, OpView};
use crate::path::{FilePath, PathView};
use crate::selection::ChunkSelection;

verus! {

/// One archive to write.
#[derive(Debug, PartialEq, Eq)]
pub struct PackJob {
    pub input: FilePath,
    pub output: FilePath,
    /// Whether every file is packed, or only the textures.
    pub use_full_package_mode: bool,
    /// Whether the files keep the feature flags that they had.
    pub use_feature_clone: bool,
}

/// The mathematical value of a [`PackJob`].
pub struct JobView {
    pub input: PathView,
    pub output: PathView,
    pub use_full_package_mode: bool,
    pub use_feature_clone: bool,
}

impl View for PackJob {
    type V = JobView;

    open spec fn view(&self) -> JobView {
        JobView {
            input: self.input@,
            output: self.output@,
            use_full_package_mode: self.use_full_package_mode,
            use_feature_clone: self.use_feature_clone,
        }
    }
}

/// The values of several jobs.
pub open spec fn jobs_view(jobs: Seq<PackJob>) -> Seq<JobView> {
    jobs.map_values(|j: PackJob| j@)
}

/// The values of several names.
pub open spec fn names_view(names: Seq<ChunkName>) -> Seq<ChunkNameView> {
    names.map_values(|n: ChunkName| n@)
}

/// The names of several selections.
pub open spec fn selected_names(selections: Seq<ChunkSelection>) -> Seq<ChunkNameView> {
    selections.map_values(|c: ChunkSelection| c@.name)
}

/// Whether two names differ at most in the patch of their sub chunk.
pub open spec fn same_series(a: ChunkNameView, b: ChunkNameView) -> bool {
    a.major == b.major && a.patch == b.patch && a.sub == b.sub
}

/// The highest patch number in the series of `of`, or zero if it has no patch.
pub open spec fn highest_patch(names: Seq<ChunkNameView>, of: ChunkNameView) -> u32
    decreases names.len(),
{
    if names.len() == 0 {
        0
    } else {
        let before = highest_patch(names.drop_last(), of);
        match names.last().sub_patch {
            Some(id) => if same_series(names.last(), of) && id > before {
                id
            } else {
                before
            },
            None => before,
        }
    }
}

/// The names of the new patches of the selected archives, each behind all that
/// are there and behind those made before it. The list ends early where a
/// series has no number left.
pub open spec fn new_patches(
    names: Seq<ChunkNameView>,
    selected: Seq<ChunkNameView>,
) -> Seq<ChunkNameView>
    decreases selected.len(),
{
    if selected.len() == 0 {
        seq![]
    } else {
        let before = new_patches(names, selected.drop_last());
        let highest = highest_patch(names + before, selected.last());
        if before.len() < selected.len() - 1 || highest == u32::MAX {
            before
        } else {
            before.push(selected.last().with_sub_patch((highest + 1) as u32))
        }
    }
}

/// The job that writes the replacement of an archive.
pub open spec fn replace_job(path: PathView) -> JobView {
    JobView {
        input: path,
        output: path.with_extension("pak.temp"@),
        use_full_package_mode: true,
        use_feature_clone: true,
    }
}

/// The job that writes a new patch next to an archive.
pub open spec fn patch_job(path: PathView, patch: ChunkNameView) -> JobView {
    JobView {
        input: path,
        output: PathView { dir: path.dir, name: crate::chunk::spelled(patch) },
        use_full_package_mode: false,
        use_feature_clone: true,
    }
}

/// The jobs for the selected archives, among all that there are.
pub open spec fn auto_jobs(
    selected: Seq<ChunkSelection>,
    all: Seq<ChunkSelection>,
    use_replace_mode: bool,
) -> Seq<JobView> {
    if use_replace_mode {
        selected.map_values(|c: ChunkSelection| replace_job(c@.path))
    } else {
        let patches = new_patches(selected_names(all), selected_names(selected));
        Seq::new(patches.len(), |i: int| patch_job(selected[i]@.path, patches[i]))
    }
}

/// The highest patch number in the series of a name, or zero.
pub fn max_sub_patch(names: &Vec<ChunkName>, of: &ChunkName) -> (r: u32)
    ensures
        r == highest_patch(names_view(names@), of@),
{
    let mut highest: u32 = 0;
    let mut i: usize = 0;
    assert(names_view(names@.take(0)) =~= Seq::<ChunkNameView>::empty());
    while i < names.len()
        invariant
            i <= names.len(),
            highest == highest_patch(names_view(names@.take(i as int)), of@),
        decreases names.len() - i,
    {
        let c = &names[i];
        proof {
            let now = names_view(names@.take(i + 1));
            assert(now.drop_last() =~= names_view(names@.take(i as int)));
            assert(now.last() == c@);
        }
        if c.major_id().same(of.major_id()) && same_number(c.patch_id(), of.patch_id())
            && same_number(c.sub_id(), of.sub_id()) {
            if let Some(id) = c.sub_patch_id() {
                if id > highest {
                    highest = id;
                }
            }
        }
        i += 1;
    }
    assert(names@.take(names.len() as int) =~= names@);
    highest
}

/// The jobs of a run over the selected archives, among all that there are. In
/// patch mode there are fewer jobs than selected archives exactly where a
/// series has no patch number left.
pub fn plan_jobs(
    selected: &Vec<ChunkSelection>,
    all: &Vec<ChunkSelection>,
    use_replace_mode: bool,
) -> (r: Vec<PackJob>)
    ensures
        jobs_view(r@) == auto_jobs(selected@, all@, use_replace_mode),
{
    if use_replace_mode {
        plan_replacements(selected)
    } else {
        plan_patches(selected, all)
    }
}

fn plan_replacements(selected: &Vec<ChunkSelection>) -> (r: Vec<PackJob>)
    ensures
        jobs_view(r@) == selected@.map_values(|c: ChunkSelection| replace_job(c@.path)),
{
    let mut jobs: Vec<PackJob> = Vec::new();
    let mut i: usize = 0;
    while i < selected.len()
        invariant
            i <= selected.len(),
            jobs@.len() == i,
            forall|j: int| 0 <= j < i ==> (#[trigger] jobs@[j])@ == replace_job(selected@[j]@.path),
        decreases selected.len() - i,
    {
        let path = &selected[i].full_path;
        jobs.push(
            PackJob {
                input: path.clone(),
                output: path.with_extension("pak.temp"),
                use_full_package_mode: true,
                use_feature_clone: true,
            },
        );
        i += 1;
    }
    assert(jobs_view(jobs@) =~= selected@.map_values(
        |c: ChunkSelection| replace_job(c@.path),
    ));
    jobs
}

fn names_of(selections: &Vec<ChunkSelection>) -> (r: Vec<ChunkName>)
    ensures
        names_view(r@) == selected_names(selections@),
{
    let mut names: Vec<ChunkName> = Vec::new();
    let mut i: usize = 0;
    while i < selections.len()
        invariant
            i <= selections.len(),
            names@.len() == i,
            forall|j: int| 0 <= j < i ==> (#[trigger] names@[j])@ == selections@[j]@.name,
        decreases selections.len() - i,
    {
        names.push(selections[i].chunk_name.clone());
        i += 1;
    }
    assert(names_view(names@) =~= selected_names(selections@));
    names
}

fn plan_patches(selected: &Vec<ChunkSelection>, all: &Vec<ChunkSelection>) -> (r: Vec<PackJob>)
    ensures
        jobs_view(r@) == auto_jobs(selected@, all@, false),
{
    let ghost names = selected_names(all@);
    let ghost picks = selected_names(selected@);
    let mut all_chunk_names = names_of(all);
    let mut jobs: Vec<PackJob> = Vec::new();
    let mut i: usize = 0;
    assert(picks.take(0) =~= Seq::<ChunkNameView>::empty());
    assert(names_view(all_chunk_names@) =~= names + new_patches(names, picks.take(0)));
    while i < selected.len()
        invariant
            i <= selected.len(),
            picks == selected_names(selected@),
            names == selected_names(all@),
            jobs@.len() == i,
            new_patches(names, picks.take(i as int)).len() == i,
            names_view(all_chunk_names@) == names + new_patches(names, picks.take(i as int)),
            forall|j: int|
                0 <= j < i ==> (#[trigger] jobs@[j])@ == patch_job(
                    selected@[j]@.path,
                    new_patches(names, picks.take(i as int))[j],
                ),
        decreases selected.len() - i,
    {
        let chunk_name = &selected[i].chunk_name;
        let path = &selected[i].full_path;
        let ghost before = new_patches(names, picks.take(i as int));
        proof {
            assert(picks.take(i + 1).drop_last() =~= picks.take(i as int));
            assert(picks.take(i + 1).last() == chunk_name@);
        }
        let max_patch_id: u32 = max_sub_patch(&all_chunk_names, chunk_name);
        if max_patch_id == u32::MAX {
            proof {
                lemma_ended_patches(names, picks, i + 1);
                assert(jobs_view(jobs@) =~= auto_jobs(selected@, all@, false));
            }
            return jobs;
        }
        let output_chunk_name = chunk_name.set_sub_patch(max_patch_id + 1);
        let output_name = output_chunk_name.to_string();
        let ghost old_names = all_chunk_names@;
        let ghost new_name = output_chunk_name@;
        all_chunk_names.push(output_chunk_name);
        proof {
            assert(new_patches(names, picks.take(i + 1)) == before.push(new_name));
            assert(names_view(all_chunk_names@) =~= names_view(old_names).push(new_name));
            assert(names_view(all_chunk_names@) =~= names + before.push(new_name));
        }
        jobs.push(
            PackJob {
                input: path.clone(),
                output: FilePath { dir: path.dir.clone(), name: output_name },
                use_full_package_mode: false,
                use_feature_clone: true,
            },
        );
        i += 1;
    }
    assert(picks.take(selected.len() as int) =~= picks);
    assert(jobs_view(jobs@) =~= auto_jobs(selected@, all@, false));
    jobs
}

/// Once the list of new patches has ended early it stays as it is.
proof fn lemma_ended_patches(names: Seq<ChunkNameView>, picks: Seq<ChunkNameView>, n: int)
    requires
        0 <= n <= picks.len(),
        new_patches(names, picks.take(n)).len() < n,
    ensures
        new_patches(names, picks) == new_patches(names, picks.take(n)),
    decreases picks.len() - n,
{
    if n < picks.len() {
        assert(picks.take(n + 1).drop_last() =~= picks.take(n));
        lemma_ended_patches(names, picks, n + 1);
    } else {
        assert(picks.take(n) =~= picks);
    }
}

/// Whether a menu of `False` and `True` was answered with `True`.
pub fn is_true_selection(index: usize) -> (r: bool)
    ensures
        r == (index == 1),
{
    index == 1
}

/// The job for one archive named by the user.
pub open spec fn manual_job_for(
    input: PathView,
    full_package: usize,
    feature_clone: usize,
) -> JobView {
    JobView {
        input,
        output: input.with_extension("uncompressed.pak"@),
        use_full_package_mode: full_package == 1,
        use_feature_clone: feature_clone == 1,
    }
}

/// The job for one archive named by the user, with the answers to the questions
/// whether to pack every file and whether to keep feature flags.
pub fn manual_job(input: &FilePath, full_package: usize, feature_clone: usize) -> (r: PackJob)
    ensures
        r@ == (JobView {
            input: input@,
            output: input@.with_extension("uncompressed.pak"@),
            use_full_package_mode: full_package == 1,
            use_feature_clone: feature_clone == 1,
        }),
        r@ == manual_job_for(input@, full_package, feature_clone),
        crate::path::is_file_name(input@.name) ==> r@.output != r@.input,
{
    proof {
        if crate::path::is_file_name(input@.name) {
            manual_output_is_another_file(input@);
        }
    }
    PackJob {
        input: input.clone(),
        output: input.with_extension("uncompressed.pak"),
        use_full_package_mode: is_true_selection(full_package),
        use_feature_clone: is_true_selection(feature_clone),
    }
}

/// The archive that is written for one named by the user is another file.
pub proof fn manual_output_is_another_file(input: PathView)
    requires
        crate::path::is_file_name(input.name),
    ensures
        input.with_extension("uncompressed.pak"@) != input,
{
    reveal_strlit("uncompressed.pak");
    crate::files::lemma_two_dots(input.name, "uncompressed.pak"@, 12);
}

/// The changes that finish a job once its archive is written.
pub open spec fn finishing_ops(
    job: JobView,
    use_replace_mode: bool,
    backup_exists: bool,
) -> Seq<OpView> {
    if use_replace_mode {
        crate::files::replacement_ops(job.input, job.output, backup_exists)
    } else {
        seq![]
    }
}

/// The changes to make once the archive of a job is written. In replace mode it
/// takes the place of its original; a patch stays where it is.
pub fn finish_job(job: &PackJob, use_replace_mode: bool, backup_exists: bool) -> (r: Vec<FileOp>)
    ensures
        crate::files::ops_view(r@) == if use_replace_mode {
            crate::files::replacement_ops(job@.input, job@.output, backup_exists)
        } else {
            Seq::empty()
        },
        crate::files::ops_view(r@) == finishing_ops(job@, use_replace_mode, backup_exists),
{
    if use_replace_mode {
        replace_original(&job.input, &job.output, backup_exists)
    } else {
        let ops: Vec<FileOp> = Vec::new();
        assert(crate::files::ops_view(ops@) =~= Seq::<OpView>::empty());
        ops
    }
}

/// The highest patch number is no lower than any in the series, and if it is
/// not zero the series has a patch with that number.
pub proof fn highest_patch_is_the_maximum(names: Seq<ChunkNameView>, of: ChunkNameView)
    ensures
        forall|i: int|
            0 <= i < names.len() && same_series(#[trigger] names[i], of) && names[i].sub_patch
                is Some ==> names[i].sub_patch->0 <= highest_patch(names, of),
        highest_patch(names, of) > 0 ==> exists|i: int|
            0 <= i < names.len() && same_series(#[trigger] names[i], of) && names[i].sub_patch
                == Some(highest_patch(names, of)),
    decreases names.len(),
{
    if names.len() > 0 {
        let front = names.drop_last();
        highest_patch_is_the_maximum(front, of);
        assert forall|i: int|
            0 <= i < names.len() && same_series(#[trigger] names[i], of) && names[i].sub_patch
                is Some implies names[i].sub_patch->0 <= highest_patch(names, of) by {
            if i < front.len() {
                assert(front[i] == names[i]);
            }
        }
        let h = highest_patch(names, of);
        if h > 0 {
            if h == highest_patch(front, of) {
                let i = choose|i: int|
                    0 <= i < front.len() && same_series(#[trigger] front[i], of)
                        && front[i].sub_patch == Some(h);
                assert(names[i] == front[i]);
            } else {
                assert(names[names.len() - 1] == names.last());
            }
        }
    }
}

/// What the new patches of the first archives are does not depend on the
/// archives behind them.
pub proof fn lemma_new_patch_at(names: Seq<ChunkNameView>, selected: Seq<ChunkNameView>, i: int)
    requires
        0 <= i < new_patches(names, selected).len(),
    ensures
        new_patches(names, selected).len() <= selected.len(),
        ({
            let out = new_patches(names, selected);
            let highest = highest_patch(names + out.take(i), selected[i]);
            &&& highest < u32::MAX
            &&& out[i] == selected[i].with_sub_patch((highest + 1) as u32)
        }),
    decreases selected.len(),
{
    let out = new_patches(names, selected);
    let front = selected.drop_last();
    let before = new_patches(names, front);
    lemma_patch_count(names, front);
    if i < before.len() {
        lemma_new_patch_at(names, front, i);
        assert(out.take(i) =~= before.take(i));
    } else {
        assert(out.take(i) =~= before);
    }
}

proof fn lemma_patch_count(names: Seq<ChunkNameView>, selected: Seq<ChunkNameView>)
    ensures
        new_patches(names, selected).len() <= selected.len(),
    decreases selected.len(),
{
    if selected.len() > 0 {
        lemma_patch_count(names, selected.drop_last());
    }
}

/// A new patch belongs to the series of its archive, and its number is one more
/// than the highest of all patches of the series, those made before it
/// included.
pub proof fn new_patches_come_last(names: Seq<ChunkNameView>, selected: Seq<ChunkNameView>, i: int)
    requires
        0 <= i < new_patches(names, selected).len(),
    ensures
        i < selected.len(),
        same_series(new_patches(names, selected)[i], selected[i]),
        new_patches(names, selected)[i].sub_patch == Some(
            (highest_patch(names + new_patches(names, selected).take(i), selected[i]) + 1) as u32,
        ),
        forall|j: int|
            0 <= j < names.len() + i && same_series(
                #[trigger] (names + new_patches(names, selected))[j],
                selected[i],
            ) && (names + new_patches(names, selected))[j].sub_patch is Some ==> (names
                + new_patches(names, selected))[j].sub_patch->0 < new_patches(
                names,
                selected,
            )[i].sub_patch->0,
{
    let out = new_patches(names, selected);
    lemma_new_patch_at(names, selected, i);
    let there = names + out.take(i);
    highest_patch_is_the_maximum(there, selected[i]);
    assert forall|j: int|
        0 <= j < names.len() + i && same_series(#[trigger] (names + out)[j], selected[i]) && (names
            + out)[j].sub_patch is Some implies (names + out)[j].sub_patch->0
        < out[i].sub_patch->0 by {
        assert(there[j] == (names + out)[j]);
    }
}

/// No new patch has the name of an archive that is there or of another new
/// patch.
pub proof fn new_patches_are_new(names: Seq<ChunkNameView>, selected: Seq<ChunkNameView>)
    ensures
        forall|i: int|
            0 <= i < new_patches(names, selected).len() ==> !names.contains(
                #[trigger] new_patches(names, selected)[i],
            ),
        new_patches(names, selected).no_duplicates(),
{
    let out = new_patches(names, selected);
    let all = names + out;
    assert forall|i: int| 0 <= i < out.len() implies !names.contains(#[trigger] out[i]) by {
        new_patches_come_last(names, selected, i);
        if names.contains(out[i]) {
            let j = choose|j: int| 0 <= j < names.len() && names[j] == out[i];
            assert(all[j] == out[i]);
        }
    }
    assert forall|i: int, j: int| 0 <= i < j < out.len() implies out[i] != out[j] by {
        new_patches_come_last(names, selected, j);
        new_patches_come_last(names, selected, i);
        assert(all[names.len() + i] == out[i]);
    }
}

/// The file of a new patch is none of the files that are there: patch mode
/// overwrites no archive, old or new.
pub proof fn patch_files_are_new(names: Seq<ChunkNameView>, selected: Seq<ChunkNameView>, i: int)
    requires
        0 <= i < new_patches(names, selected).len(),
        forall|k: int| 0 <= k < names.len() ==> (#[trigger] names[k]).well_formed(),
        forall|k: int| 0 <= k < selected.len() ==> (#[trigger] selected[k]).well_formed(),
        forall|k: int| 0 <= k < selected.len() ==> (#[trigger] selected[k]).sub is Some,
    ensures
        new_patches(names, selected)[i].well_formed(),
        forall|k: int|
            0 <= k < names.len() ==> crate::chunk::spelled(#[trigger] names[k])
                != crate::chunk::spelled(new_patches(names, selected)[i]),
        forall|k: int|
            0 <= k < new_patches(names, selected).len() && k != i ==> crate::chunk::spelled(
                #[trigger] new_patches(names, selected)[k],
            ) != crate::chunk::spelled(new_patches(names, selected)[i]),
{
    let out = new_patches(names, selected);
    lemma_patch_count(names, selected);
    assert forall|k: int| 0 <= k < out.len() implies (#[trigger] out[k]).well_formed() by {
        lemma_new_patch_at(names, selected, k);
        assert(selected[k].well_formed() && selected[k].sub is Some);
    }
    new_patches_are_new(names, selected);
    assert forall|k: int| 0 <= k < names.len() implies crate::chunk::spelled(#[trigger] names[k])
        != crate::chunk::spelled(out[i]) by {
        assert(!names.contains(out[i]));
        if crate::chunk::spelled(names[k]) == crate::chunk::spelled(out[i]) {
            crate::chunk::spellings_are_distinct(names[k], out[i]);
        }
    }
    assert forall|k: int| 0 <= k < out.len() && k != i implies crate::chunk::spelled(
        #[trigger] out[k],
    ) != crate::chunk::spelled(out[i]) by {
        if crate::chunk::spelled(out[k]) == crate::chunk::spelled(out[i]) {
            crate::chunk::spellings_are_distinct(out[k], out[i]);
        }
    }
}

/// Whether a selection can be processed: it carries the name that its file
/// spells, and it is a sub chunk.
pub open spec fn is_processable(c: ChunkSelection) -> bool {
    crate::selection::fits_its_file(c@) && crate::selection::is_sub_chunk(c)
}

/// Patch mode overwrites no archive: the file that a job writes is none of the
/// archives that are there, however their names are spelled, and no other job
/// writes a file of that name.
pub proof fn patch_jobs_overwrite_nothing(
    selected: Seq<ChunkSelection>,
    all: Seq<ChunkSelection>,
    i: int,
)
    requires
        0 <= i < auto_jobs(selected, all, false).len(),
        forall|k: int|
            0 <= k < all.len() ==> crate::selection::fits_its_file((#[trigger] all[k])@),
        forall|k: int| 0 <= k < selected.len() ==> is_processable(#[trigger] selected[k]),
    ensures
        forall|k: int|
            0 <= k < all.len() ==> (#[trigger] all[k])@.path.name != auto_jobs(
                selected,
                all,
                false,
            )[i].output.name,
        forall|k: int|
            0 <= k < auto_jobs(selected, all, false).len() && k != i ==> (
            #[trigger] auto_jobs(selected, all, false)[k]).output.name != auto_jobs(
                selected,
                all,
                false,
            )[i].output.name,
{
    let jobs = auto_jobs(selected, all, false);
    let names = selected_names(all);
    let picks = selected_names(selected);
    let patches = new_patches(names, picks);
    assert forall|k: int| 0 <= k < names.len() implies (#[trigger] names[k]).well_formed() by {
        assert(crate::selection::fits_its_file(all[k]@));
        crate::chunk::parsed_names_are_well_formed(all[k]@.path.name);
    }
    assert forall|k: int| 0 <= k < picks.len() implies (#[trigger] picks[k]).well_formed()
        && picks[k].sub is Some by {
        assert(is_processable(selected[k]));
        crate::chunk::parsed_names_are_well_formed(selected[k]@.path.name);
    }
    patch_files_are_new(names, picks, i);
    crate::chunk::spelling_reads_back(patches[i]);
    new_patches_are_new(names, picks);
    assert forall|k: int| 0 <= k < all.len() implies (#[trigger] all[k])@.path.name
        != jobs[i].output.name by {
        assert(crate::selection::fits_its_file(all[k]@));
        if all[k]@.path.name == jobs[i].output.name {
            assert(names[k] == patches[i]);
            assert(names.contains(patches[i]));
        }
    }
    assert forall|k: int| 0 <= k < jobs.len() && k != i implies (#[trigger] jobs[k]).output.name
        != jobs[i].output.name by {
        assert(crate::chunk::spelled(patches[k]) != crate::chunk::spelled(patches[i]));
    }
}

/// Every selected archive gets its patch unless a series has used up its
/// numbers: where the list ends early, the next archive's series is full.
pub proof fn patches_end_early_only_when_full(
    names: Seq<ChunkNameView>,
    selected: Seq<ChunkNameView>,
)
    ensures
        new_patches(names, selected).len() <= selected.len(),
        new_patches(names, selected).len() < selected.len() ==> highest_patch(
            names + new_patches(names, selected),
            selected[new_patches(names, selected).len() as int],
        ) == u32::MAX,
    decreases selected.len(),
{
    if selected.len() > 0 {
        patches_end_early_only_when_full(names, selected.drop_last());
    }
}

} // verus!
