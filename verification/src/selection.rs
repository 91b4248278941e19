//! Which archives a run works on.

use vstd::prelude::*;

use crate::chunk::{ChunkName, ChunkNameError, ChunkNameView};
use crate::error::Error;
use crate::order::name_before;
use crate::path::{FilePath, PathView};
use crate::text::ends_with;
use crate::util::human_bytes;

verus! {

/// Archives of at least this many bytes are marked for processing beforehand.
pub const AUTO_CHUNK_SELECTION_SIZE_THRESHOLD: u64 = 1048576;

/// An archive that can be chosen.
#[derive(Debug, PartialEq, Eq)]
pub struct ChunkSelection {
    pub chunk_name: ChunkName,
    pub file_size: u64,
    pub full_path: FilePath,
}

/// The mathematical value of a [`ChunkSelection`].
pub struct SelectionView {
    pub name: ChunkNameView,
    pub size: u64,
    pub path: PathView,
}

impl View for ChunkSelection {
    type V = SelectionView;

    open spec fn view(&self) -> SelectionView {
        SelectionView { name: self.chunk_name@, size: self.file_size, path: self.full_path@ }
    }
}

impl Clone for ChunkSelection {
    fn clone(&self) -> (r: Self)
        ensures
            r == *self,
    {
        ChunkSelection {
            chunk_name: self.chunk_name.clone(),
            file_size: self.file_size,
            full_path: self.full_path.clone(),
        }
    }
}

/// The values of several selections.
pub open spec fn views(selections: Seq<ChunkSelection>) -> Seq<SelectionView> {
    selections.map_values(|c: ChunkSelection| c@)
}

impl ChunkSelection {
    /// The line that stands for the archive in a list, given its size as text.
    pub fn label(&self, size_text: &str) -> (r: String)
        ensures
            r@ == crate::chunk::spelled(self@.name) + " ("@ + size_text@ + ")"@,
    {
        let mut r = self.chunk_name.to_string();
        r.append(" (");
        r.append(size_text);
        r.append(")");
        r
    }

    /// The line that stands for the archive in a list.
    pub fn to_string(&self) -> (r: String)
        ensures
            r@ == crate::chunk::spelled(self@.name) + " ("@ + crate::util::human_bytes_text(
                self@.size,
            ) + ")"@,
    {
        let size_text = human_bytes(self.file_size);
        self.label(size_text.as_str())
    }
}

/// A directory entry as the file system reports it.
#[derive(Debug, PartialEq, Eq)]
pub struct DirEntry {
    pub is_file: bool,
    pub path: FilePath,
    pub size: u64,
}

/// What a directory entry is to a scan for archives.
#[derive(Debug, PartialEq, Eq)]
pub enum PakVerdict {
    /// Not a `.pak` file.
    Ignored,
    /// A `.pak` file whose name is not that of an archive.
    Invalid(ChunkNameError),
    /// An archive.
    Chunk(ChunkName),
}

/// Judges a directory entry by its kind and its name.
pub fn pak_verdict(is_file: bool, file_name: &str) -> (r: PakVerdict)
    ensures
        r is Ignored <==> !is_file || !".pak"@.is_suffix_of(file_name@),
        r is Invalid ==> crate::chunk::parsed(file_name@) is None,
        r matches PakVerdict::Invalid(e) ==> e.name@ == file_name@,
        r matches PakVerdict::Chunk(name) ==> crate::chunk::parsed(file_name@) == Some(name@),
{
    if !is_file {
        return PakVerdict::Ignored;
    }
    if !ends_with(file_name, ".pak") {
        return PakVerdict::Ignored;
    }
    match ChunkName::try_from_str(file_name) {
        Ok(name) => PakVerdict::Chunk(name),
        Err(e) => PakVerdict::Invalid(e),
    }
}

/// Whether a directory entry is an archive.
pub open spec fn is_archive(entry: DirEntry) -> bool {
    entry.is_file && ".pak"@.is_suffix_of(entry.path.name@) && crate::chunk::parsed(
        entry.path.name@,
    ) is Some
}

/// The selection that stands for an archive.
pub open spec fn selection_of(entry: DirEntry) -> SelectionView {
    SelectionView {
        name: crate::chunk::parsed(entry.path.name@)->0,
        size: entry.size,
        path: entry.path@,
    }
}

/// The archives among the entries of a directory, in the order of the entries.
pub open spec fn archives_in(entries: Seq<DirEntry>) -> Seq<SelectionView> {
    entries.filter(|e: DirEntry| is_archive(e)).map_values(|e: DirEntry| selection_of(e))
}

proof fn lemma_archives_step(entries: Seq<DirEntry>, i: int)
    requires
        0 <= i < entries.len(),
    ensures
        archives_in(entries.take(i + 1)) == if is_archive(entries[i]) {
            archives_in(entries.take(i)).push(selection_of(entries[i]))
        } else {
            archives_in(entries.take(i))
        },
{
    let now = entries.take(i + 1);
    assert(now.drop_last() =~= entries.take(i));
    assert(now.last() == entries[i]);
    reveal_with_fuel(Seq::filter, 2);
    assert(archives_in(now) =~= if is_archive(entries[i]) {
        archives_in(entries.take(i)).push(selection_of(entries[i]))
    } else {
        archives_in(entries.take(i))
    });
}

/// Appends the archives among the entries of a directory.
pub fn scan_pak_files_in_dir(entries: &Vec<DirEntry>, all_chunks: &mut Vec<ChunkSelection>)
    ensures
        views(final(all_chunks)@) == views(old(all_chunks)@) + archives_in(entries@),
{
    let ghost before = views(all_chunks@);
    let mut i: usize = 0;
    assert(archives_in(entries@.take(0)) =~= Seq::<SelectionView>::empty()) by {
        reveal_with_fuel(Seq::filter, 1);
    }
    while i < entries.len()
        invariant
            i <= entries.len(),
            views(all_chunks@) =~= before + archives_in(entries@.take(i as int)),
        decreases entries.len() - i,
    {
        proof {
            lemma_archives_step(entries@, i as int);
        }
        let ghost so_far = all_chunks@;
        let entry = &entries[i];
        if let PakVerdict::Chunk(chunk_name) = pak_verdict(
            entry.is_file,
            entry.path.name.as_str(),
        ) {
            let found = ChunkSelection {
                chunk_name,
                file_size: entry.size,
                full_path: entry.path.clone(),
            };
            all_chunks.push(found);
            assert(views(all_chunks@) =~= views(so_far).push(found@));
        }
        i += 1;
    }
    assert(entries@.take(entries.len() as int) =~= entries@);
}

/// The archives of one place: 0 is the main directory, 1 the directory of
/// downloadable content, and there are no others.
pub open spec fn place(
    main: Seq<ChunkSelection>,
    dlc: Seq<ChunkSelection>,
    index: usize,
) -> Seq<ChunkSelection> {
    if index == 0 {
        main
    } else if index == 1 {
        dlc
    } else {
        seq![]
    }
}

/// The archives of the selected places, one place after the other.
pub open spec fn gathered(
    main: Seq<ChunkSelection>,
    dlc: Seq<ChunkSelection>,
    selected: Seq<usize>,
) -> Seq<ChunkSelection>
    decreases selected.len(),
{
    if selected.len() == 0 {
        seq![]
    } else {
        gathered(main, dlc, selected.drop_last()) + place(main, dlc, selected.last())
    }
}

/// `after` holds the selections of `before`, `after[i]` being `before[from[i]]`,
/// in the order of their names, and those with one name in their old order.
pub open spec fn rearranged(
    before: Seq<ChunkSelection>,
    after: Seq<ChunkSelection>,
    from: Seq<int>,
) -> bool {
    &&& after.len() == before.len()
    &&& from.len() == before.len()
    &&& from.no_duplicates()
    &&& forall|i: int| 0 <= i < from.len() ==> 0 <= #[trigger] from[i] < before.len()
    &&& forall|i: int| 0 <= i < from.len() ==> #[trigger] after[i] == before[from[i]]
    &&& forall|i: int, j: int|
        0 <= i < j < from.len() ==> in_place(#[trigger] after[i], #[trigger] after[j], from[i], from[j])
}

/// Two selections stand in the right order: by name, or, with one name, by
/// their old positions.
pub open spec fn in_place(a: ChunkSelection, b: ChunkSelection, from_a: int, from_b: int) -> bool {
    crate::order::name_less(a@.name, b@.name) || (a@.name == b@.name && from_a < from_b)
}

/// `after` is `before`, sorted by name, selections with one name keeping their
/// order.
pub open spec fn sorted_stably(before: Seq<ChunkSelection>, after: Seq<ChunkSelection>) -> bool {
    exists|from: Seq<int>| rearranged(before, after, from)
}

/// Puts the next selection into a sorted list, behind those that do not come
/// after it.
fn insert_sorted(
    sorted: &mut Vec<ChunkSelection>,
    next: ChunkSelection,
    Ghost(before): Ghost<Seq<ChunkSelection>>,
)
    requires
        sorted_stably(before, old(sorted)@),
    ensures
        sorted_stably(before.push(next), final(sorted)@),
{
    let ghost old_list = sorted@;
    let ghost from = choose|from: Seq<int>| rearranged(before, old_list, from);
    let mut at: usize = sorted.len();
    while at > 0 && name_before(&next.chunk_name, &sorted[at - 1].chunk_name)
        invariant
            sorted@ == old_list,
            at <= sorted.len(),
            forall|i: int|
                at <= i < old_list.len() ==> crate::order::name_less(
                    next@.name,
                    (#[trigger] old_list[i])@.name,
                ),
        decreases at,
    {
        at -= 1;
    }
    sorted.insert(at, next);
    proof {
        let new_from = from.insert(at as int, before.len() as int);
        let more = before.push(next);
        assert forall|i: int| 0 <= i < at implies !crate::order::name_less(
            next@.name,
            (#[trigger] old_list[i])@.name,
        ) by {
            let last = old_list[at - 1];
            crate::order::names_are_totally_ordered(next@.name, old_list[i]@.name);
            if i < at - 1 {
                assert(in_place(old_list[i], last, from[i], from[at - 1]));
                if crate::order::name_less(next@.name, old_list[i]@.name) {
                    if old_list[i]@.name != last@.name {
                        crate::order::name_order_is_transitive(
                            next@.name,
                            old_list[i]@.name,
                            last@.name,
                        );
                    }
                }
            }
        }
        assert forall|i: int, j: int| 0 <= i < j < new_from.len() implies in_place(
            #[trigger] sorted@[i],
            #[trigger] sorted@[j],
            new_from[i],
            new_from[j],
        ) by {
            let a: int = if i > at { i - 1 } else { i };
            let b: int = if j > at { j - 1 } else { j };
            if i == at {
                assert(sorted@[j] == old_list[b]);
            } else if j == at {
                assert(sorted@[i] == old_list[a]);
                assert(0 <= from[a] < before.len());
                crate::order::names_are_totally_ordered(next@.name, old_list[a]@.name);
            } else {
                assert(sorted@[i] == old_list[a] && sorted@[j] == old_list[b]);
                assert(in_place(old_list[a], old_list[b], from[a], from[b]));
            }
        }
        assert forall|i: int, j: int|
            0 <= i < new_from.len() && 0 <= j < new_from.len() && i != j implies new_from[i]
            != new_from[j] by {
            let a: int = if i > at { i - 1 } else { i };
            let b: int = if j > at { j - 1 } else { j };
            if i == at {
                assert(0 <= from[b] < before.len());
            } else if j == at {
                assert(0 <= from[a] < before.len());
            } else {
                assert(from[a] != from[b]);
            }
        }
        assert forall|i: int| 0 <= i < new_from.len() implies 0 <= #[trigger] new_from[i]
            < more.len() by {
            let a: int = if i > at { i - 1 } else { i };
            if i != at {
                assert(0 <= from[a] < before.len());
            }
        }
        assert forall|i: int| 0 <= i < new_from.len() implies #[trigger] sorted@[i]
            == more[new_from[i]] by {
            let a: int = if i > at { i - 1 } else { i };
            if i != at {
                assert(0 <= from[a] < before.len());
                assert(old_list[a] == before[from[a]]);
            }
        }
        assert(rearranged(more, sorted@, new_from));
    }
}

/// Sorts selections by name; those with one name keep their order.
pub fn sort_by_name(chunks: &Vec<ChunkSelection>) -> (r: Vec<ChunkSelection>)
    ensures
        sorted_stably(chunks@, r@),
{
    let mut sorted: Vec<ChunkSelection> = Vec::new();
    let mut i: usize = 0;
    assert(rearranged(chunks@.take(0), sorted@, Seq::<int>::empty()));
    while i < chunks.len()
        invariant
            i <= chunks.len(),
            sorted_stably(chunks@.take(i as int), sorted@),
        decreases chunks.len() - i,
    {
        let next = chunks[i].clone();
        insert_sorted(&mut sorted, next, Ghost(chunks@.take(i as int)));
        assert(chunks@.take(i as int).push(chunks@[i as int]) =~= chunks@.take(i + 1));
        i += 1;
    }
    assert(chunks@.take(chunks.len() as int) =~= chunks@);
    sorted
}

/// The archives that were found, by place.
#[derive(Debug, PartialEq, Eq)]
pub struct FoundArchives {
    pub main: Vec<ChunkSelection>,
    pub dlc: Vec<ChunkSelection>,
}

impl FoundArchives {
    /// The archives of the game directory and of its `dlc` directory, where
    /// there is one.
    pub fn scan_all_pak_files(
        main_entries: &Vec<DirEntry>,
        dlc_entries: &Option<Vec<DirEntry>>,
    ) -> (r: FoundArchives)
        ensures
            views(r.main@) == archives_in(main_entries@),
            views(r.dlc@) == match dlc_entries {
                Some(entries) => archives_in(entries@),
                None => Seq::empty(),
            },
    {
        let mut main: Vec<ChunkSelection> = Vec::new();
        let mut dlc: Vec<ChunkSelection> = Vec::new();
        assert(views(main@) =~= Seq::<SelectionView>::empty());
        assert(views(dlc@) =~= Seq::<SelectionView>::empty());
        scan_pak_files_in_dir(main_entries, &mut main);
        assert(views(main@) =~= archives_in(main_entries@));
        if let Some(entries) = dlc_entries {
            scan_pak_files_in_dir(entries, &mut dlc);
            assert(views(dlc@) =~= archives_in(entries@));
        }
        FoundArchives { main, dlc }
    }

    /// The places to work on, by how many archives each has, where there is no
    /// choice.
    pub open spec fn settled(main: nat, dlc: nat) -> Option<Seq<usize>> {
        if main > 0 && dlc > 0 {
            None
        } else if main > 0 {
            Some(seq![0usize])
        } else if dlc > 0 {
            Some(seq![1usize])
        } else {
            Some(seq![])
        }
    }

    /// The places to work on where there is no choice. There is none exactly
    /// where both places hold archives: then the user is asked.
    pub fn fixed_locations(&self) -> (r: Option<Vec<usize>>)
        ensures
            r is None <==> self.main@.len() > 0 && self.dlc@.len() > 0,
            r matches Some(places) ==> places@ == (if self.main@.len() > 0 {
                seq![0usize]
            } else if self.dlc@.len() > 0 {
                seq![1usize]
            } else {
                seq![]
            }),
            r is Some <==> FoundArchives::settled(self.main@.len(), self.dlc@.len()) is Some,
            r matches Some(places) ==> FoundArchives::settled(self.main@.len(), self.dlc@.len())
                == Some(places@),
    {
        if self.main.len() > 0 && self.dlc.len() > 0 {
            None
        } else if self.main.len() > 0 {
            Some(vec![0])
        } else if self.dlc.len() > 0 {
            Some(vec![1])
        } else {
            Some(Vec::new())
        }
    }

    /// The archives of the selected places, sorted by name; an archive of a
    /// place that was selected first stands before one with the same name of a
    /// later place.
    pub fn merge(&self, selected: &Vec<usize>) -> (r: Vec<ChunkSelection>)
        ensures
            sorted_stably(gathered(self.main@, self.dlc@, selected@), r@),
    {
        let mut all: Vec<ChunkSelection> = Vec::new();
        let mut i: usize = 0;
        while i < selected.len()
            invariant
                i <= selected.len(),
                all@ == gathered(self.main@, self.dlc@, selected@.take(i as int)),
            decreases selected.len() - i,
        {
            assert(selected@.take(i + 1).drop_last() =~= selected@.take(i as int));
            let index: usize = selected[i];
            if index == 0 {
                append_all(&mut all, &self.main);
            } else if index == 1 {
                append_all(&mut all, &self.dlc);
            } else {
                assert(all@ + place(self.main@, self.dlc@, index) =~= all@);
            }
            i += 1;
        }
        assert(selected@.take(selected.len() as int) =~= selected@);
        sort_by_name(&all)
    }
}

fn append_all(all: &mut Vec<ChunkSelection>, more: &Vec<ChunkSelection>)
    ensures
        final(all)@ == old(all)@ + more@,
{
    let ghost before = all@;
    let mut i: usize = 0;
    while i < more.len()
        invariant
            i <= more.len(),
            all@ =~= before + more@.take(i as int),
        decreases more.len() - i,
    {
        all.push(more[i].clone());
        assert(more@.take(i + 1) =~= more@.take(i as int).push(more@[i as int]));
        i += 1;
    }
    assert(more@.take(more.len() as int) =~= more@);
}

/// Whether a selection carries the name that its file spells.
pub open spec fn fits_its_file(c: SelectionView) -> bool {
    crate::chunk::parsed(c.path.name) == Some(c.name)
}

/// Every archive that a scan lists is a `.pak` file of the directory and carries
/// the name that its file spells.
pub proof fn listed_archives_fit_their_files(entries: Seq<DirEntry>, k: int)
    requires
        0 <= k < archives_in(entries).len(),
    ensures
        fits_its_file(archives_in(entries)[k]),
        ".pak"@.is_suffix_of(archives_in(entries)[k].path.name),
        exists|i: int| 0 <= i < entries.len() && (#[trigger] entries[i]).path@
            == archives_in(entries)[k].path,
{
    let keep = |e: DirEntry| is_archive(e);
    let kept = entries.filter(keep);
    entries.lemma_filter_pred(keep, k);
    entries.lemma_filter_contains_rev(keep, kept[k]);
    let i = choose|i: int| 0 <= i < entries.len() && entries[i] == kept[k];
    assert(entries[i].path@ == archives_in(entries)[k].path);
}

/// Whether a selection is a sub chunk: only those are offered.
pub open spec fn is_sub_chunk(c: ChunkSelection) -> bool {
    c@.name.sub is Some
}

/// The sub chunks among the archives, in their order. It is an error if there
/// are none.
pub fn sub_chunks(all: &Vec<ChunkSelection>) -> (r: Result<Vec<ChunkSelection>, Error>)
    ensures
        r is Ok <==> (exists|i: int| 0 <= i < all@.len() && is_sub_chunk(#[trigger] all@[i])),
        r matches Ok(subs) ==> subs@ == all@.filter(|c: ChunkSelection| is_sub_chunk(c)),
        r matches Err(e) ==> e == Error::NoPakFiles,
{
    let ghost keep = |c: ChunkSelection| is_sub_chunk(c);
    let mut subs: Vec<ChunkSelection> = Vec::new();
    let mut i: usize = 0;
    assert(all@.take(0).filter(keep) =~= Seq::<ChunkSelection>::empty()) by {
        reveal_with_fuel(Seq::filter, 1);
    }
    while i < all.len()
        invariant
            i <= all.len(),
            keep == |c: ChunkSelection| is_sub_chunk(c),
            subs@ == all@.take(i as int).filter(keep),
            subs@.len() > 0 <==> (exists|j: int|
                0 <= j < i && is_sub_chunk(#[trigger] all@[j])),
        decreases all.len() - i,
    {
        proof {
            assert(all@.take(i + 1).drop_last() =~= all@.take(i as int));
            reveal_with_fuel(Seq::filter, 2);
        }
        if all[i].chunk_name.sub_id().is_some() {
            subs.push(all[i].clone());
            assert(is_sub_chunk(all@[i as int]));
        }
        i += 1;
    }
    assert(all@.take(all.len() as int) =~= all@);
    if subs.len() == 0 {
        Err(Error::NoPakFiles)
    } else {
        Ok(subs)
    }
}

/// Whether an archive of this size is marked beforehand.
pub open spec fn is_marked(size: u64) -> bool {
    size >= AUTO_CHUNK_SELECTION_SIZE_THRESHOLD
}

/// Which of the offered archives are marked beforehand: the large ones.
pub fn default_marks(chunks: &Vec<ChunkSelection>) -> (r: Vec<bool>)
    ensures
        r@ == chunks@.map_values(
            |c: ChunkSelection| c@.size >= AUTO_CHUNK_SELECTION_SIZE_THRESHOLD,
        ),
        r@.len() == chunks@.len(),
        forall|i: int| 0 <= i < r@.len() ==> #[trigger] r@[i] == is_marked(chunks@[i]@.size),
{
    let mut marks: Vec<bool> = Vec::new();
    let mut i: usize = 0;
    while i < chunks.len()
        invariant
            i <= chunks.len(),
            marks@.len() == i,
            forall|j: int|
                0 <= j < i ==> #[trigger] marks@[j] == (chunks@[j]@.size
                    >= AUTO_CHUNK_SELECTION_SIZE_THRESHOLD),
        decreases chunks.len() - i,
    {
        marks.push(chunks[i].file_size >= AUTO_CHUNK_SELECTION_SIZE_THRESHOLD);
        i += 1;
    }
    assert(marks@ =~= chunks@.map_values(
        |c: ChunkSelection| c@.size >= AUTO_CHUNK_SELECTION_SIZE_THRESHOLD,
    ));
    marks
}

/// The archives at these positions of a list.
pub open spec fn at_positions(
    chunks: Seq<ChunkSelection>,
    positions: Seq<usize>,
) -> Seq<ChunkSelection> {
    Seq::new(positions.len(), |i: int| chunks[positions[i] as int])
}

/// The archives that the user picked from a list, in the order of the picks. It
/// is an error if the user left the list without an answer.
pub fn picked(chunks: &Vec<ChunkSelection>, picks: &Option<Vec<usize>>) -> (r: Result<
    Vec<ChunkSelection>,
    Error,
>)
    requires
        picks matches Some(indices) ==> forall|i: int|
            0 <= i < indices@.len() ==> (#[trigger] indices@[i]) < chunks@.len(),
    ensures
        r is Ok <==> picks is Some,
        r matches Ok(chosen) ==> chosen@ == picks->0@.map_values(|i: usize| chunks@[i as int]),
        r matches Ok(chosen) ==> chosen@ == at_positions(chunks@, picks->0@),
        r matches Err(e) ==> e == Error::NoChunksSelected,
{
    match picks {
        None => Err(Error::NoChunksSelected),
        Some(indices) => {
            let mut chosen: Vec<ChunkSelection> = Vec::new();
            let mut i: usize = 0;
            while i < indices.len()
                invariant
                    i <= indices.len(),
                    forall|j: int|
                        0 <= j < indices@.len() ==> (#[trigger] indices@[j]) < chunks@.len(),
                    chosen@.len() == i,
                    forall|j: int|
                        0 <= j < i ==> #[trigger] chosen@[j] == chunks@[indices@[j] as int],
                decreases indices.len() - i,
            {
                assert(indices@[i as int] < chunks@.len());
                chosen.push(chunks[indices[i]].clone());
                i += 1;
            }
            assert(chosen@ =~= indices@.map_values(|i: usize| chunks@[i as int]));
            assert(chosen@ =~= at_positions(chunks@, indices@));
            Ok(chosen)
        },
    }
}

/// The order that a stable sort puts old positions into.
spec fn goes_first(before: Seq<ChunkSelection>, x: int, y: int) -> bool {
    in_place(before[x], before[y], x, y)
}

/// Different positions, as many as there are, are all positions.
pub proof fn lemma_every_position_taken(from: Seq<int>, x: int)
    requires
        from.no_duplicates(),
        forall|i: int| 0 <= i < from.len() ==> 0 <= #[trigger] from[i] < from.len(),
        0 <= x < from.len(),
    ensures
        from.contains(x),
{
    let n = from.len() as int;
    let all = vstd::set_lib::set_int_range(0, n);
    vstd::set_lib::lemma_int_range(0, n);
    from.unique_seq_to_set();
    assert(from.to_set().subset_of(all)) by {
        assert forall|v: int| from.to_set().contains(v) implies all.contains(v) by {
            let i = choose|i: int| 0 <= i < from.len() && from[i] == v;
            assert(0 <= from[i] < from.len());
        }
    }
    vstd::set_lib::lemma_subset_equality(from.to_set(), all);
    assert(all.contains(x));
}

/// Where two sorts agree on everything before a position, the one does not put
/// anything there that goes before what the other puts there.
proof fn lemma_not_earlier(
    before: Seq<ChunkSelection>,
    a: Seq<ChunkSelection>,
    f: Seq<int>,
    b: Seq<ChunkSelection>,
    g: Seq<int>,
    i: int,
)
    requires
        rearranged(before, a, f),
        rearranged(before, b, g),
        0 <= i < before.len(),
        forall|k: int| 0 <= k < i ==> f[k] == g[k],
    ensures
        !goes_first(before, f[i], g[i]),
{
    if goes_first(before, f[i], g[i]) {
        lemma_every_position_taken(g, f[i]);
        let m = choose|m: int| 0 <= m < g.len() && g[m] == f[i];
        crate::order::names_are_totally_ordered(before[f[i]]@.name, before[g[i]]@.name);
        if m < i {
            assert(f[m] == f[i]);
        } else if m > i {
            assert(in_place(b[i], b[m], g[i], g[m]));
            assert(b[i] == before[g[i]] && b[m] == before[g[m]]);
        }
    }
}

proof fn lemma_same_positions(
    before: Seq<ChunkSelection>,
    a: Seq<ChunkSelection>,
    f: Seq<int>,
    b: Seq<ChunkSelection>,
    g: Seq<int>,
    n: int,
)
    requires
        rearranged(before, a, f),
        rearranged(before, b, g),
        0 <= n <= before.len(),
    ensures
        forall|k: int| 0 <= k < n ==> f[k] == g[k],
    decreases n,
{
    if n > 0 {
        lemma_same_positions(before, a, f, b, g, n - 1);
        lemma_not_earlier(before, a, f, b, g, n - 1);
        lemma_not_earlier(before, b, g, a, f, n - 1);
        crate::order::names_are_totally_ordered(
            before[f[n - 1]]@.name,
            before[g[n - 1]]@.name,
        );
    }
}

/// Sorting has one result: `sorted_stably` leaves nothing open.
pub proof fn sorting_has_one_result(
    before: Seq<ChunkSelection>,
    a: Seq<ChunkSelection>,
    b: Seq<ChunkSelection>,
)
    requires
        sorted_stably(before, a),
        sorted_stably(before, b),
    ensures
        a == b,
{
    let f = choose|from: Seq<int>| rearranged(before, a, from);
    let g = choose|from: Seq<int>| rearranged(before, b, from);
    lemma_same_positions(before, a, f, b, g, before.len() as int);
    assert forall|i: int| 0 <= i < a.len() implies a[i] == b[i] by {
        assert(a[i] == before[f[i]]);
        assert(b[i] == before[g[i]]);
    }
    assert(a =~= b);
}

/// Sorting loses no selection and brings in none.
pub proof fn sorting_keeps_selections(before: Seq<ChunkSelection>, after: Seq<ChunkSelection>)
    requires
        sorted_stably(before, after),
    ensures
        after.len() == before.len(),
        forall|c: ChunkSelection| after.contains(c) <==> before.contains(c),
{
    let from = choose|from: Seq<int>| rearranged(before, after, from);
    assert forall|c: ChunkSelection| after.contains(c) <==> before.contains(c) by {
        if after.contains(c) {
            let i = choose|i: int| 0 <= i < after.len() && after[i] == c;
            assert(0 <= from[i] < before.len());
            assert(before[from[i]] == c);
        }
        if before.contains(c) {
            let x = choose|x: int| 0 <= x < before.len() && before[x] == c;
            lemma_every_position_taken(from, x);
            let i = choose|i: int| 0 <= i < from.len() && from[i] == x;
            assert(after[i] == c);
        }
    }
}

} // verus!
