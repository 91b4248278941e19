//! Names of the game's archives, such as `re_chunk_000.pak.sub_000.pak`.
//!
//! A name is a base (`re_chunk_<number>.pak`, or `re_dlc_<id>.pak` for
//! downloadable content), then optionally `.patch_<number>.pak`, then
//! optionally `.sub_<number>.pak`, which may itself be followed by
//! `.patch_<number>.pak`.

use vstd::prelude::*;
use vstd::slice::slice_subrange;

use crate::text::{append_padded, same_text, split_dots, starts_with};

verus! {

/// What an archive series belongs to.
#[derive(Debug, PartialEq, Eq)]
pub enum MajorId {
    /// `re_chunk_<number>`
    Chunk(u32),
    /// `re_dlc_<id>`
    Dlc(String),
}

/// The mathematical value of a [`MajorId`].
pub enum MajorView {
    Chunk(u32),
    Dlc(Seq<char>),
}

impl View for MajorId {
    type V = MajorView;

    open spec fn view(&self) -> MajorView {
        match self {
            MajorId::Chunk(id) => MajorView::Chunk(*id),
            MajorId::Dlc(id) => MajorView::Dlc(id@),
        }
    }
}

impl Clone for MajorId {
    fn clone(&self) -> (r: Self)
        ensures
            r == *self,
    {
        match self {
            MajorId::Chunk(id) => MajorId::Chunk(*id),
            MajorId::Dlc(id) => MajorId::Dlc(id.clone()),
        }
    }
}

impl MajorId {
    /// Whether two series belong to the same thing.
    pub fn same(&self, other: &MajorId) -> (r: bool)
        ensures
            r == (self@ == other@),
    {
        match (self, other) {
            (MajorId::Chunk(a), MajorId::Chunk(b)) => *a == *b,
            (MajorId::Dlc(a), MajorId::Dlc(b)) => same_text(a.as_str(), b.as_str()),
            _ => false,
        }
    }
}

/// The parsed name of an archive.
#[derive(Debug, PartialEq, Eq)]
pub struct ChunkName {
    pub major: MajorId,
    pub patch: Option<u32>,
    pub sub: Option<u32>,
    pub sub_patch: Option<u32>,
}

/// The mathematical value of a [`ChunkName`].
pub struct ChunkNameView {
    pub major: MajorView,
    pub patch: Option<u32>,
    pub sub: Option<u32>,
    pub sub_patch: Option<u32>,
}

impl View for ChunkName {
    type V = ChunkNameView;

    open spec fn view(&self) -> ChunkNameView {
        ChunkNameView {
            major: self.major@,
            patch: self.patch,
            sub: self.sub,
            sub_patch: self.sub_patch,
        }
    }
}

impl Clone for ChunkName {
    fn clone(&self) -> (r: Self)
        ensures
            r == *self,
    {
        ChunkName {
            major: self.major.clone(),
            patch: self.patch,
            sub: self.sub,
            sub_patch: self.sub_patch,
        }
    }
}

/// A file name that is not the name of an archive.
#[derive(Debug, PartialEq, Eq)]
pub struct ChunkNameError {
    pub name: String,
}

impl ChunkNameError {
    /// The message shown to the user.
    pub fn message(&self) -> (r: String)
        ensures
            r@ == "Invalid chunk name: "@ + self.name@,
    {
        let mut r = "Invalid chunk name: ".to_owned();
        r.append(self.name.as_str());
        r
    }
}

impl ChunkNameView {
    /// A name that has a spelling: a patch of a sub chunk needs the sub chunk,
    /// and an id has characters, none of which is a dot.
    pub open spec fn well_formed(self) -> bool {
        &&& self.sub_patch is Some ==> self.sub is Some
        &&& match self.major {
            MajorView::Chunk(_) => true,
            MajorView::Dlc(id) => id.len() > 0 && !id.contains('.'),
        }
    }

    /// The same name with `id` as the patch of its sub chunk.
    pub open spec fn with_sub_patch(self, id: u32) -> ChunkNameView {
        ChunkNameView { sub_patch: Some(id), ..self }
    }
}

/// The number behind `label` in a part of a name.
pub open spec fn labelled(part: Seq<char>, label: Seq<char>) -> Option<u32> {
    if label.is_prefix_of(part) {
        crate::text::number_of(part.skip(label.len() as int))
    } else {
        None
    }
}

/// What the first part of a name says.
pub open spec fn major_of(part: Seq<char>) -> Option<MajorView> {
    if "re_chunk_"@.is_prefix_of(part) {
        match labelled(part, "re_chunk_"@) {
            Some(id) => Some(MajorView::Chunk(id)),
            None => None,
        }
    } else if "re_dlc_"@.is_prefix_of(part) && part.len() > "re_dlc_"@.len() {
        Some(MajorView::Dlc(part.skip("re_dlc_"@.len() as int)))
    } else {
        None
    }
}

/// What the components `sub_<number>`, `patch_<number>` of a sub chunk say.
pub open spec fn sub_of(components: Seq<Seq<char>>) -> Option<(Option<u32>, Option<u32>)> {
    if components.len() == 0 {
        Some((None, None))
    } else {
        match labelled(components[0], "sub_"@) {
            None => None,
            Some(sub) => if components.len() == 1 {
                Some((Some(sub), None))
            } else if components.len() == 2 {
                match labelled(components[1], "patch_"@) {
                    None => None,
                    Some(patch) => Some((Some(sub), Some(patch))),
                }
            } else {
                None
            },
        }
    }
}

/// The name that a base and the components behind it make up.
pub open spec fn assembled(major: MajorView, components: Seq<Seq<char>>) -> Option<ChunkNameView> {
    let patch = if components.len() > 0 {
        labelled(components[0], "patch_"@)
    } else {
        None
    };
    let rest = if patch is Some {
        components.skip(1)
    } else {
        components
    };
    match sub_of(rest) {
        None => None,
        Some((sub, sub_patch)) => Some(ChunkNameView { major, patch, sub, sub_patch }),
    }
}

/// Whether the parts come in pairs that end in `pak`.
pub open spec fn paired_with_pak(parts: Seq<Seq<char>>) -> bool {
    &&& parts.len() % 2 == 0
    &&& forall|i: int| 0 <= i < parts.len() && i % 2 == 1 ==> #[trigger] parts[i] == "pak"@
}

/// The components behind the base of a name.
pub open spec fn components_of(parts: Seq<Seq<char>>) -> Seq<Seq<char>> {
    Seq::new((parts.len() / 2 - 1) as nat, |i: int| parts[2 * i + 2])
}

/// The name that the parts of a file name make up.
pub open spec fn parsed_parts(parts: Seq<Seq<char>>) -> Option<ChunkNameView> {
    if parts.len() > 0 && paired_with_pak(parts) {
        match major_of(parts[0]) {
            None => None,
            Some(major) => assembled(major, components_of(parts)),
        }
    } else {
        None
    }
}

/// The archive name that a file name spells.
pub open spec fn parsed(s: Seq<char>) -> Option<ChunkNameView> {
    parsed_parts(crate::text::dot_parts(s))
}

/// The part of a spelling that names the series.
pub open spec fn major_text(major: MajorView) -> Seq<char> {
    match major {
        MajorView::Chunk(id) => "re_chunk_"@ + crate::text::padded(id as nat),
        MajorView::Dlc(id) => "re_dlc_"@ + id,
    }
}

/// `s` with a numbered component behind it, if there is a number.
pub open spec fn with_component(s: Seq<char>, label: Seq<char>, number: Option<u32>) -> Seq<char> {
    match number {
        Some(n) => s + "."@ + (label + crate::text::padded(n as nat)) + ".pak"@,
        None => s,
    }
}

/// The file name of an archive.
pub open spec fn spelled(name: ChunkNameView) -> Seq<char> {
    let base = major_text(name.major) + ".pak"@;
    let patched = with_component(base, "patch_"@, name.patch);
    let sub = with_component(patched, "sub_"@, name.sub);
    with_component(sub, "patch_"@, name.sub_patch)
}

fn labelled_number(part: &Vec<char>, label: &str) -> (r: Option<u32>)
    ensures
        r == labelled(part@, label@),
{
    let prefix = crate::text::chars_of(label);
    if prefix.len() > part.len() {
        return None;
    }
    let mut i: usize = 0;
    while i < prefix.len()
        invariant
            prefix@ == label@,
            i <= prefix.len() <= part.len(),
            forall|j: int| 0 <= j < i ==> part@[j] == prefix@[j],
        decreases prefix.len() - i,
    {
        if part[i] != prefix[i] {
            assert(part@.subrange(0, label@.len() as int)[i as int] == part@[i as int]);
            return None;
        }
        i += 1;
    }
    assert(label@ =~= part@.subrange(0, label@.len() as int));
    assert(part@.skip(label@.len() as int) =~= part@.subrange(
        label@.len() as int,
        part@.len() as int,
    ));
    crate::text::parse_number(slice_subrange(part.as_slice(), prefix.len(), part.len()))
}

fn is_pak(part: &Vec<char>) -> (r: bool)
    ensures
        r == (part@ == "pak"@),
{
    proof {
        reveal_strlit("pak");
    }
    let r = part.len() == 3 && part[0] == 'p' && part[1] == 'a' && part[2] == 'k';
    assert(r ==> part@ =~= "pak"@);
    r
}

/// The first part of a file name is what it begins with.
pub proof fn lemma_first_part(s: Seq<char>)
    ensures
        crate::text::dot_parts(s).len() > 0,
        crate::text::dot_parts(s)[0].is_prefix_of(s),
    decreases s.len(),
{
    if s.len() > 0 {
        lemma_first_part(s.drop_last());
        let before = crate::text::dot_parts(s.drop_last());
        let now = crate::text::dot_parts(s);
        if s.last() == '.' || before.len() > 1 {
            assert(now[0] == before[0]);
            assert(now[0] =~= s.subrange(0, now[0].len() as int));
        } else {
            lemma_one_part(s.drop_last());
            assert(now[0] =~= s.subrange(0, now[0].len() as int));
        }
    }
}

proof fn lemma_one_part(s: Seq<char>)
    requires
        crate::text::dot_parts(s).len() == 1,
    ensures
        crate::text::dot_parts(s)[0] == s,
    decreases s.len(),
{
    if s.len() > 0 {
        crate::text::lemma_parts_of_joined(s.drop_last(), Seq::empty());
        lemma_parts_nonempty(s.drop_last());
        lemma_one_part(s.drop_last());
        assert(crate::text::dot_parts(s)[0] =~= s);
    } else {
        assert(s =~= Seq::<char>::empty());
    }
}

/// A text has at least one part.
pub proof fn lemma_parts_nonempty(s: Seq<char>)
    ensures
        crate::text::dot_parts(s).len() > 0,
{
    crate::text::lemma_parts_of_joined(Seq::empty(), s);
}

/// The first part of `s` read as the base of a name.
fn parse_major(s: &str, part: &Vec<char>) -> (r: Option<MajorId>)
    requires
        part@.is_prefix_of(s@),
    ensures
        r is Some <==> major_of(part@) is Some,
        r matches Some(major) ==> major_of(part@) == Some(major@),
{
    proof {
        reveal_strlit("re_chunk_");
        reveal_strlit("re_dlc_");
    }
    let first = s.substring_char(0, part.len());
    assert(first@ == part@);
    if starts_with(first, "re_chunk_") {
        match labelled_number(part, "re_chunk_") {
            Some(id) => Some(MajorId::Chunk(id)),
            None => None,
        }
    } else if starts_with(first, "re_dlc_") && part.len() > 7 {
        let id = s.substring_char(7, part.len());
        assert(id@ =~= part@.skip(7)) by {
            assert forall|i: int| 0 <= i < id@.len() implies id@[i] == part@.skip(7)[i] by {
                assert(id@[i] == s@[i + 7]);
                assert(part@[i + 7] == s@.subrange(0, part@.len() as int)[i + 7]);
            }
        }
        Some(MajorId::Dlc(id.to_owned()))
    } else {
        None
    }
}

/// The components behind the base, read as the end of a name.
fn parse_components(major: MajorId, parts: &Vec<Vec<char>>) -> (r: Option<ChunkName>)
    requires
        parts.len() >= 2,
        parts.len() % 2 == 0,
    ensures
        r is Some <==> assembled(major@, components_of(crate::text::texts(parts@))) is Some,
        r matches Some(name) ==> assembled(major@, components_of(crate::text::texts(parts@)))
            == Some(name@),
{
    let ghost components = components_of(crate::text::texts(parts@));
    let count: usize = parts.len() / 2 - 1;
    assert(forall|i: int| 0 <= i < count ==> #[trigger] components[i] == parts@[2 * i + 2]@);
    let mut next: usize = 0;
    let mut patch: Option<u32> = None;
    if count > 0 {
        assert(components[0] == parts@[2]@);
        patch = labelled_number(&parts[2], "patch_");
        if patch.is_some() {
            next = 1;
        }
    }
    let ghost rest = if patch is Some {
        components.skip(1)
    } else {
        components
    };
    let left: usize = count - next;
    if left == 0 {
        return Some(ChunkName { major, patch, sub: None, sub_patch: None });
    }
    assert(rest[0] == components[next as int]);
    match labelled_number(&parts[2 * next + 2], "sub_") {
        None => None,
        Some(sub) => {
            if left == 1 {
                Some(ChunkName { major, patch, sub: Some(sub), sub_patch: None })
            } else if left == 2 {
                assert(rest[1] == components[next + 1]);
                match labelled_number(&parts[2 * next + 4], "patch_") {
                    None => None,
                    Some(id) => Some(
                        ChunkName { major, patch, sub: Some(sub), sub_patch: Some(id) },
                    ),
                }
            } else {
                None
            }
        },
    }
}

fn all_paired(parts: &Vec<Vec<char>>) -> (r: bool)
    ensures
        r == paired_with_pak(crate::text::texts(parts@)),
{
    let ghost texts = crate::text::texts(parts@);
    if parts.len() % 2 != 0 {
        return false;
    }
    let mut i: usize = 0;
    while i < parts.len()
        invariant
            i <= parts.len(),
            texts == crate::text::texts(parts@),
            parts.len() % 2 == 0,
            forall|j: int| 0 <= j < i && j % 2 == 1 ==> #[trigger] texts[j] == "pak"@,
        decreases parts.len() - i,
    {
        if i % 2 == 1 && !is_pak(&parts[i]) {
            assert(texts[i as int] != "pak"@);
            return false;
        }
        i += 1;
    }
    true
}

impl ChunkName {
    /// Reads a file name. It is refused exactly when it spells no archive.
    pub fn try_from_str(s: &str) -> (r: Result<ChunkName, ChunkNameError>)
        ensures
            r is Ok <==> parsed(s@) is Some,
            r matches Ok(name) ==> parsed(s@) == Some(name@),
            r matches Err(e) ==> e.name@ == s@,
    {
        let parts = split_dots(s);
        proof {
            lemma_first_part(s@);
            assert(crate::text::texts(parts@)[0] == parts@[0]@);
        }
        if all_paired(&parts) {
            if let Some(major) = parse_major(s, &parts[0]) {
                if let Some(name) = parse_components(major, &parts) {
                    return Ok(name);
                }
            }
        }
        Err(ChunkNameError { name: s.to_owned() })
    }

    /// What the archive belongs to.
    pub fn major_id(&self) -> (r: &MajorId)
        ensures
            r@ == self@.major,
    {
        &self.major
    }

    /// The number of the patch of the base, if the name holds one.
    pub fn patch_id(&self) -> (r: Option<u32>)
        ensures
            r == self@.patch,
    {
        self.patch
    }

    /// The number of the sub chunk, if the name holds one.
    pub fn sub_id(&self) -> (r: Option<u32>)
        ensures
            r == self@.sub,
    {
        self.sub
    }

    /// The number of the patch of the sub chunk, if the name holds one.
    pub fn sub_patch_id(&self) -> (r: Option<u32>)
        ensures
            r == self@.sub_patch,
    {
        self.sub_patch
    }

    /// The same name as another patch of its sub chunk.
    pub fn set_sub_patch(&self, id: u32) -> (r: ChunkName)
        ensures
            r@ == self@.with_sub_patch(id),
    {
        ChunkName {
            major: self.major.clone(),
            patch: self.patch,
            sub: self.sub,
            sub_patch: Some(id),
        }
    }

    /// Whether two names are the same.
    pub fn same(&self, other: &ChunkName) -> (r: bool)
        ensures
            r == (self@ == other@),
    {
        self.major.same(&other.major) && same_number(self.patch, other.patch) && same_number(
            self.sub,
            other.sub,
        ) && same_number(self.sub_patch, other.sub_patch)
    }

    /// The file name of the archive.
    pub fn to_string(&self) -> (r: String)
        ensures
            r@ == spelled(self@),
    {
        let mut r = String::new();
        match &self.major {
            MajorId::Chunk(id) => {
                r.append("re_chunk_");
                append_padded(&mut r, *id);
                assert(r@ =~= major_text(self@.major));
            },
            MajorId::Dlc(id) => {
                r.append("re_dlc_");
                r.append(id.as_str());
                assert(r@ =~= major_text(self@.major));
            },
        }
        r.append(".pak");
        append_component(&mut r, "patch_", self.patch);
        append_component(&mut r, "sub_", self.sub);
        append_component(&mut r, "patch_", self.sub_patch);
        r
    }
}

/// Whether two optional numbers are the same.
pub fn same_number(a: Option<u32>, b: Option<u32>) -> (r: bool)
    ensures
        r == (a == b),
{
    match (a, b) {
        (Some(x), Some(y)) => x == y,
        (None, None) => true,
        _ => false,
    }
}

fn append_component(out: &mut String, label: &str, number: Option<u32>)
    ensures
        final(out)@ == with_component(old(out)@, label@, number),
{
    let ghost before = out@;
    if let Some(n) = number {
        out.append(".");
        out.append(label);
        append_padded(out, n);
        out.append(".pak");
        assert(out@ =~= with_component(before, label@, number));
    }
}

/// No part of a text holds a dot.
pub proof fn lemma_parts_dotless(s: Seq<char>)
    ensures
        forall|i: int|
            0 <= i < crate::text::dot_parts(s).len() ==> !(
            #[trigger] crate::text::dot_parts(s)[i]).contains('.'),
    decreases s.len(),
{
    if s.len() > 0 {
        let before = crate::text::dot_parts(s.drop_last());
        let now = crate::text::dot_parts(s);
        lemma_parts_nonempty(s.drop_last());
        lemma_parts_dotless(s.drop_last());
        assert forall|i: int| 0 <= i < now.len() implies !(#[trigger] now[i]).contains('.') by {
            if i < before.len() - 1 || s.last() == '.' {
                if i < before.len() {
                    assert(now[i] == before[i]);
                }
            } else {
                let old_part = before.last();
                assert(old_part == before[before.len() - 1]);
                assert(now[i] == old_part.push(s.last()));
                assert forall|k: int| 0 <= k < now[i].len() implies now[i][k] != '.' by {
                    if k < old_part.len() {
                        assert(old_part.contains(old_part[k]));
                    }
                }
            }
        }
    }
}

/// Every name that is read from a file name is well formed.
pub proof fn parsed_names_are_well_formed(s: Seq<char>)
    ensures
        parsed(s) matches Some(name) ==> name.well_formed(),
{
    if let Some(name) = parsed(s) {
        let first = crate::text::dot_parts(s)[0];
        lemma_parts_nonempty(s);
        lemma_parts_dotless(s);
        reveal_strlit("re_dlc_");
        if let MajorView::Dlc(id) = name.major {
            assert(id == first.skip(7));
            assert forall|k: int| 0 <= k < id.len() implies id[k] != '.' by {
                assert(first.contains(first[k + 7]));
            }
        }
    }
}

proof fn lemma_padded_dotless(n: u32)
    ensures
        !crate::text::padded(n as nat).contains('.'),
{
    crate::text::lemma_padded_reads_back(n);
    let p = crate::text::padded(n as nat);
    assert forall|i: int| 0 <= i < p.len() implies p[i] != '.' by {
        assert(crate::text::is_digit(p[i]));
    }
}

/// A dotless component adds two parts: itself and `pak`.
pub proof fn lemma_component_parts(s: Seq<char>, component: Seq<char>)
    requires
        !component.contains('.'),
    ensures
        crate::text::dot_parts(s + "."@ + component + ".pak"@) == crate::text::dot_parts(s)
            + seq![component, "pak"@],
        crate::text::dot_parts(component + ".pak"@) == seq![component, "pak"@],
{
    reveal_strlit(".");
    reveal_strlit("pak");
    reveal_strlit(".pak");
    let pak = "pak"@;
    assert(!pak.contains('.'));
    let tail = component + seq!['.'] + pak;
    assert(component + ".pak"@ =~= tail);
    assert(s + "."@ + component + ".pak"@ =~= s + seq!['.'] + tail);
    crate::text::lemma_dotless(component);
    crate::text::lemma_dotless(pak);
    crate::text::lemma_parts_of_joined(component, pak);
    crate::text::lemma_parts_of_joined(s, tail);
    assert(seq![component] + seq![pak] =~= seq![component, pak]);
}

proof fn lemma_labelled_number(label: Seq<char>, n: u32)
    ensures
        labelled(label + crate::text::padded(n as nat), label) == Some(n),
{
    let p = crate::text::padded(n as nat);
    crate::text::lemma_padded_reads_back(n);
    assert(label =~= (label + p).subrange(0, label.len() as int));
    assert((label + p).skip(label.len() as int) =~= p);
}

proof fn lemma_labels_apart(n: u32)
    ensures
        labelled("sub_"@ + crate::text::padded(n as nat), "patch_"@) is None,
{
    reveal_strlit("sub_");
    reveal_strlit("patch_");
    let part = "sub_"@ + crate::text::padded(n as nat);
    if "patch_"@.is_prefix_of(part) {
        assert(part.subrange(0, 6)[0] == part[0]);
    }
}

/// The parts that a numbered component adds to a name.
spec fn component_parts(label: Seq<char>, number: Option<u32>) -> Seq<Seq<char>> {
    match number {
        Some(n) => seq![label + crate::text::padded(n as nat), "pak"@],
        None => seq![],
    }
}

proof fn lemma_with_component(s: Seq<char>, label: Seq<char>, number: Option<u32>)
    requires
        !label.contains('.'),
    ensures
        crate::text::dot_parts(with_component(s, label, number)) == crate::text::dot_parts(s)
            + component_parts(label, number),
{
    match number {
        Some(n) => {
            let p = crate::text::padded(n as nat);
            lemma_padded_dotless(n);
            assert forall|i: int| 0 <= i < (label + p).len() implies (label + p)[i] != '.' by {
                if i < label.len() {
                    assert(label.contains(label[i]));
                } else {
                    assert(p.contains(p[i - label.len()]));
                }
            }
            lemma_component_parts(s, label + p);
        },
        None => {
            assert(crate::text::dot_parts(s) + component_parts(label, number)
                =~= crate::text::dot_parts(s));
        },
    }
}

/// The component that a number adds to a name.
spec fn component(label: Seq<char>, number: Option<u32>) -> Seq<Seq<char>> {
    match number {
        Some(n) => seq![label + crate::text::padded(n as nat)],
        None => seq![],
    }
}

proof fn lemma_component_added(parts: Seq<Seq<char>>, label: Seq<char>, number: Option<u32>)
    requires
        parts.len() >= 2,
        paired_with_pak(parts),
    ensures
        paired_with_pak(parts + component_parts(label, number)),
        components_of(parts + component_parts(label, number)) == components_of(parts)
            + component(label, number),
{
    let more = parts + component_parts(label, number);
    assert forall|i: int| 0 <= i < more.len() && i % 2 == 1 implies #[trigger] more[i]
        == "pak"@ by {
        if i < parts.len() {
            assert(more[i] == parts[i]);
        }
    }
    let list = components_of(parts) + component(label, number);
    assert(components_of(more).len() == list.len());
    assert forall|i: int| 0 <= i < list.len() implies components_of(more)[i] == list[i] by {
        assert(components_of(more)[i] == more[2 * i + 2]);
        if i < components_of(parts).len() {
            assert(2 * i + 2 < parts.len());
        }
    }
    assert(components_of(more) =~= list);
}

proof fn lemma_assembled(name: ChunkNameView)
    requires
        name.well_formed(),
    ensures
        assembled(
            name.major,
            component("patch_"@, name.patch) + component("sub_"@, name.sub) + component(
                "patch_"@,
                name.sub_patch,
            ),
        ) == Some(name),
{
    let a = component("patch_"@, name.patch);
    let b = component("sub_"@, name.sub);
    let c = component("patch_"@, name.sub_patch);
    let list = a + b + c;
    let rest = b + c;
    assert(list.skip(a.len() as int) =~= rest);
    if let Some(n) = name.patch {
        lemma_labelled_number("patch_"@, n);
        assert(list[0] == a[0]);
    }
    if let Some(n) = name.sub {
        lemma_labelled_number("sub_"@, n);
        lemma_labels_apart(n);
        assert(rest[0] == b[0]);
        if let Some(m) = name.sub_patch {
            lemma_labelled_number("patch_"@, m);
            assert(rest[1] == c[0]);
        }
        if name.patch is None {
            assert(list =~= rest);
        }
    }
    assert(sub_of(rest) == Some((name.sub, name.sub_patch)));
    if name.patch is None {
        assert(list =~= rest);
    }
}

proof fn lemma_major_reads_back(major: MajorView)
    requires
        major matches MajorView::Dlc(id) ==> id.len() > 0 && !id.contains('.'),
    ensures
        !major_text(major).contains('.'),
        major_of(major_text(major)) == Some(major),
{
    let s = major_text(major);
    reveal_strlit("re_chunk_");
    reveal_strlit("re_dlc_");
    match major {
        MajorView::Chunk(id) => {
            let p = crate::text::padded(id as nat);
            lemma_padded_dotless(id);
            assert forall|i: int| 0 <= i < s.len() implies s[i] != '.' by {
                if i >= 9 {
                    assert(p.contains(p[i - 9]));
                }
            }
            lemma_labelled_number("re_chunk_"@, id);
            assert("re_chunk_"@ =~= s.subrange(0, 9));
        },
        MajorView::Dlc(id) => {
            assert forall|i: int| 0 <= i < s.len() implies s[i] != '.' by {
                if i >= 7 {
                    assert(id.contains(id[i - 7]));
                }
            }
            assert(s[3] == 'd');
            if "re_chunk_"@.is_prefix_of(s) {
                assert(s.subrange(0, 9)[3] == s[3]);
            }
            assert("re_dlc_"@ =~= s.subrange(0, 7));
            assert(s.skip(7) =~= id);
        },
    }
}

/// The file name of an archive reads back as the archive's name.
pub proof fn spelling_reads_back(name: ChunkNameView)
    requires
        name.well_formed(),
    ensures
        parsed(spelled(name)) == Some(name),
{
    let major = major_text(name.major);
    lemma_major_reads_back(name.major);
    assert(!"patch_"@.contains('.') && !"sub_"@.contains('.')) by {
        reveal_strlit("patch_");
        reveal_strlit("sub_");
    }
    let base = major + ".pak"@;
    let patched = with_component(base, "patch_"@, name.patch);
    let sub = with_component(patched, "sub_"@, name.sub);
    lemma_component_parts(Seq::empty(), major);
    lemma_with_component(base, "patch_"@, name.patch);
    lemma_with_component(patched, "sub_"@, name.sub);
    lemma_with_component(sub, "patch_"@, name.sub_patch);
    let p0 = seq![major, "pak"@];
    let p1 = p0 + component_parts("patch_"@, name.patch);
    let p2 = p1 + component_parts("sub_"@, name.sub);
    assert(components_of(p0) =~= Seq::<Seq<char>>::empty());
    lemma_component_added(p0, "patch_"@, name.patch);
    lemma_component_added(p1, "sub_"@, name.sub);
    lemma_component_added(p2, "patch_"@, name.sub_patch);
    let a = component("patch_"@, name.patch);
    assert(Seq::<Seq<char>>::empty() + a =~= a);
    lemma_assembled(name);
    assert(crate::text::dot_parts(spelled(name))[0] == major);
}

/// Two well-formed names with one file name are one name.
pub proof fn spellings_are_distinct(a: ChunkNameView, b: ChunkNameView)
    requires
        a.well_formed(),
        b.well_formed(),
        spelled(a) == spelled(b),
    ensures
        a == b,
{
    spelling_reads_back(a);
    spelling_reads_back(b);
}

proof fn lemma_component_keeps_ends(s: Seq<char>, label: Seq<char>, number: Option<u32>)
    requires
        ".pak"@.is_suffix_of(s),
    ensures
        s.is_prefix_of(with_component(s, label, number)),
        ".pak"@.is_suffix_of(with_component(s, label, number)),
{
    reveal_strlit(".pak");
    let t = with_component(s, label, number);
    assert(s =~= t.subrange(0, s.len() as int));
    if number is Some {
        assert(".pak"@ =~= t.subrange(t.len() - 4, t.len() as int));
    }
}

/// The file name of every archive begins as the game's archives do and ends in
/// `.pak`, so that a later scan of its directory finds it.
pub proof fn spellings_look_like_archives(name: ChunkNameView)
    ensures
        ".pak"@.is_suffix_of(spelled(name)),
        name.major is Chunk ==> "re_chunk_"@.is_prefix_of(spelled(name)),
        name.major is Dlc ==> "re_dlc_"@.is_prefix_of(spelled(name)),
{
    reveal_strlit(".pak");
    reveal_strlit("re_chunk_");
    reveal_strlit("re_dlc_");
    let major = major_text(name.major);
    let base = major + ".pak"@;
    assert(".pak"@ =~= base.subrange(base.len() - 4, base.len() as int));
    let patched = with_component(base, "patch_"@, name.patch);
    let sub = with_component(patched, "sub_"@, name.sub);
    lemma_component_keeps_ends(base, "patch_"@, name.patch);
    lemma_component_keeps_ends(patched, "sub_"@, name.sub);
    lemma_component_keeps_ends(sub, "patch_"@, name.sub_patch);
    let s = spelled(name);
    assert forall|i: int| 0 <= i < base.len() implies s[i] == base[i] by {
        assert(patched.subrange(0, base.len() as int)[i] == patched[i]);
        assert(sub.subrange(0, patched.len() as int)[i] == sub[i]);
        assert(s.subrange(0, sub.len() as int)[i] == s[i]);
    }
    match name.major {
        MajorView::Chunk(_) => {
            assert("re_chunk_"@ =~= s.subrange(0, 9));
        },
        MajorView::Dlc(_) => {
            assert("re_dlc_"@ =~= s.subrange(0, 7));
        },
    }
}

} // verus!
