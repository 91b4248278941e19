//! What is written into an archive.

use vstd::prelude::*;

use std::collections::HashSet;

use crate::metadata::PakMetadata;
use crate::text::same_text;
use crate::util::human_bytes;

verus! {

broadcast use vstd::std_specs::hash::group_hash_axioms;

/// How many bytes of a file tell what it is.
pub const MAGIC_LEN: usize = 8;

/// Whether an extension, as told from the first bytes of a file, is that of a
/// texture.
pub open spec fn is_tex_extension(extension: Option<Seq<char>>) -> bool {
    extension == Some("tex"@)
}

/// The text of an optional extension.
pub open spec fn extension_view(extension: Option<String>) -> Option<Seq<char>> {
    match extension {
        Some(e) => Some(e@),
        None => None,
    }
}

fn is_tex(extension: &Option<String>) -> (r: bool)
    ensures
        r == is_tex_extension(extension_view(*extension)),
{
    match extension {
        Some(e) => same_text(e.as_str(), "tex"),
        None => false,
    }
}

/// A file of an archive, with what its first bytes tell.
#[derive(Debug, PartialEq, Eq)]
pub struct EntrySample {
    pub hash: u64,
    /// Whether the file has as many bytes as are needed to tell what it is.
    pub magic_read: bool,
    /// The extension that its first bytes stand for.
    pub extension: Option<String>,
}

/// Whether a file is a texture.
pub open spec fn is_texture(sample: EntrySample) -> bool {
    sample.magic_read && is_tex_extension(extension_view(sample.extension))
}

/// The hashes of the textures, once for each texture.
pub open spec fn texture_list(samples: Seq<EntrySample>) -> Seq<u64> {
    samples.filter(|s: EntrySample| is_texture(s)).map_values(|s: EntrySample| s.hash)
}

/// The textures of an archive, by their hashes.
#[derive(Debug)]
pub struct TexHashes {
    pub hashes: HashSet<u64>,
}

impl View for TexHashes {
    type V = Set<u64>;

    open spec fn view(&self) -> Set<u64> {
        self.hashes@
    }
}

proof fn lemma_texture_step(samples: Seq<EntrySample>, i: int)
    requires
        0 <= i < samples.len(),
    ensures
        texture_list(samples.take(i + 1)) == if is_texture(samples[i]) {
            texture_list(samples.take(i)).push(samples[i].hash)
        } else {
            texture_list(samples.take(i))
        },
{
    assert(samples.take(i + 1).drop_last() =~= samples.take(i));
    reveal_with_fuel(Seq::filter, 2);
    assert(texture_list(samples.take(i + 1)) =~= if is_texture(samples[i]) {
        texture_list(samples.take(i)).push(samples[i].hash)
    } else {
        texture_list(samples.take(i))
    });
}

proof fn lemma_pushed(s: Seq<u64>, x: u64)
    ensures
        s.push(x).to_set() == s.to_set().insert(x),
{
    assert forall|y: u64| s.push(x).to_set().contains(y) <==> s.to_set().insert(x).contains(y) by {
        if s.contains(y) {
            let i = choose|i: int| 0 <= i < s.len() && s[i] == y;
            assert(s.push(x)[i] == y);
        }
        if x == y {
            assert(s.push(x)[s.len() as int] == y);
        }
        if s.push(x).contains(y) && x != y {
            let i = choose|i: int| 0 <= i < s.push(x).len() && s.push(x)[i] == y;
            assert(s[i] == y);
        }
    }
    assert(s.push(x).to_set() =~= s.to_set().insert(x));
}

impl TexHashes {
    /// The textures among the files of an archive.
    pub fn detect(samples: &Vec<EntrySample>) -> (r: TexHashes)
        ensures
            r@ == texture_list(samples@).to_set(),
            r@.len() <= samples@.len(),
    {
        let mut hashes: HashSet<u64> = HashSet::new();
        let mut i: usize = 0;
        assert(texture_list(samples@.take(0)) =~= Seq::<u64>::empty()) by {
            reveal_with_fuel(Seq::filter, 1);
        }
        assert(hashes@ =~= texture_list(samples@.take(0)).to_set());
        while i < samples.len()
            invariant
                i <= samples.len(),
                hashes@ == texture_list(samples@.take(i as int)).to_set(),
                hashes@.finite(),
                hashes@.len() <= i,
            decreases samples.len() - i,
        {
            proof {
                lemma_texture_step(samples@, i as int);
                lemma_pushed(texture_list(samples@.take(i as int)), samples@[i as int].hash);
            }
            let sample = &samples[i];
            if sample.magic_read && is_tex(&sample.extension) {
                hashes.insert(sample.hash);
            }
            i += 1;
        }
        assert(samples@.take(samples.len() as int) =~= samples@);
        TexHashes { hashes }
    }

    /// The number of textures.
    pub fn len(&self) -> (r: usize)
        ensures
            r == self@.len(),
    {
        self.hashes.len()
    }

    /// Whether a file is one of the textures.
    pub fn contains(&self, hash: u64) -> (r: bool)
        ensures
            r == self@.contains(hash),
    {
        self.hashes.contains(&hash)
    }
}

/// The plan of an archive to write.
#[derive(Debug)]
pub struct PackagePlan {
    /// The textures to pack; where there are none given, every file is packed.
    pub tex_hashes: Option<TexHashes>,
    /// The number of files of the original that are packed.
    pub entry_count: usize,
    /// The number of files that the archive is made for.
    pub slot_count: u64,
    /// The mark that the archive gets.
    pub metadata: PakMetadata,
}

/// Whether a file with this hash is packed.
pub open spec fn packs(tex_hashes: Option<Set<u64>>, hash: u64) -> bool {
    tex_hashes matches Some(hashes) ==> hashes.contains(hash)
}

/// The textures of a plan, as a set.
pub open spec fn tex_view(tex_hashes: Option<TexHashes>) -> Option<Set<u64>> {
    match tex_hashes {
        Some(hashes) => Some(hashes@),
        None => None,
    }
}

/// The mathematical value of a [`PackagePlan`].
pub struct PlanView {
    pub limit: Option<Set<u64>>,
    pub entries: nat,
    pub slots: nat,
    pub full_package: bool,
}

impl View for PackagePlan {
    type V = PlanView;

    open spec fn view(&self) -> PlanView {
        PlanView {
            limit: tex_view(self.tex_hashes),
            entries: self.entry_count as nat,
            slots: self.slot_count as nat,
            full_package: self.metadata.full_package,
        }
    }
}

/// The plan of a package. Without a limit it takes every file of an original with so
/// many, with one only the files with these hashes.
pub open spec fn planned(limit: Option<Set<u64>>, total: nat) -> PlanView {
    let entries = match limit {
        Some(hashes) => hashes.len(),
        None => total,
    };
    PlanView { limit, entries, slots: entries + 1, full_package: limit is None }
}

impl PackagePlan {
    /// The plan of an archive with every file of its original. One more place
    /// is kept for the mark.
    pub fn full(total_entry_count: usize) -> (r: PackagePlan)
        requires
            total_entry_count < u64::MAX,
        ensures
            r.tex_hashes is None,
            r.entry_count == total_entry_count,
            r.slot_count == total_entry_count + 1,
            r.metadata.full_package,
            r@ == planned(None, total_entry_count as nat),
    {
        PackagePlan {
            tex_hashes: None,
            entry_count: total_entry_count,
            slot_count: total_entry_count as u64 + 1,
            metadata: PakMetadata::new(true),
        }
    }

    /// The plan of an archive with the textures of its original. One more place
    /// is kept for the mark.
    pub fn textures(samples: &Vec<EntrySample>) -> (r: PackagePlan)
        requires
            samples@.len() < u64::MAX,
        ensures
            tex_view(r.tex_hashes) == Some(texture_list(samples@).to_set()),
            r.entry_count == texture_list(samples@).to_set().len(),
            r.slot_count == r.entry_count + 1,
            !r.metadata.full_package,
            r@ == planned(Some(texture_list(samples@).to_set()), samples@.len()),
    {
        let hashes = TexHashes::detect(samples);
        let entry_count: usize = hashes.len();
        PackagePlan {
            tex_hashes: Some(hashes),
            entry_count,
            slot_count: entry_count as u64 + 1,
            metadata: PakMetadata::new(false),
        }
    }

    /// The plan of a patch that holds nothing but the mark.
    pub fn empty_patch() -> (r: PackagePlan)
        ensures
            tex_view(r.tex_hashes) == Some(Set::<u64>::empty()),
            r.entry_count == 0,
            r.slot_count == 1,
            !r.metadata.full_package,
            r@ == planned(Some(Set::<u64>::empty()), 0),
    {
        let hashes = TexHashes { hashes: HashSet::new() };
        assert(hashes@ =~= Set::<u64>::empty());
        PackagePlan {
            tex_hashes: Some(hashes),
            entry_count: 0,
            slot_count: 1,
            metadata: PakMetadata::new(false),
        }
    }

    /// Whether a file of the original is packed.
    pub fn includes(&self, hash: u64) -> (r: bool)
        ensures
            r == packs(tex_view(self.tex_hashes), hash),
    {
        match &self.tex_hashes {
            Some(hashes) => hashes.contains(hash),
            None => true,
        }
    }
}

/// What becomes of a file on its way into the archive.
#[derive(Debug, Clone, Copy, PartialEq, Eq)]
pub enum EntryAction {
    /// It is a texture, which is decompressed.
    Decompress,
    /// It is copied as it is.
    Copy,
}

/// What becomes of a file. Where only textures are packed every file is one;
/// otherwise the extension that its first bytes stand for decides.
pub open spec fn action_of(
    use_full_package_mode: bool,
    extension: Option<Seq<char>>,
) -> EntryAction {
    if !use_full_package_mode || is_tex_extension(extension) {
        EntryAction::Decompress
    } else {
        EntryAction::Copy
    }
}

/// Decides what becomes of a file.
pub fn entry_action(use_full_package_mode: bool, extension: &Option<String>) -> (r: EntryAction)
    ensures
        r == action_of(use_full_package_mode, extension_view(*extension)),
{
    if !use_full_package_mode || is_tex(extension) {
        EntryAction::Decompress
    } else {
        EntryAction::Copy
    }
}

/// The attributes of a packed file, if it keeps any: those of the original that
/// have no meaning known to the archive format, given by `known_mask`.
pub open spec fn attr_kept(
    use_feature_clone: bool,
    all_attr: u64,
    known_mask: u64,
) -> Option<u64> {
    if use_feature_clone {
        Some(all_attr & !known_mask)
    } else {
        None
    }
}

/// The attributes to give to a packed file.
pub fn cloned_attr(use_feature_clone: bool, all_attr: u64, known_mask: u64) -> (r: Option<u64>)
    ensures
        r == attr_kept(use_feature_clone, all_attr, known_mask),
{
    if use_feature_clone {
        Some(all_attr & !known_mask)
    } else {
        None
    }
}

/// Attributes that are kept hold no known bit, and every other bit as it was.
pub proof fn only_unknown_attributes_are_kept(all_attr: u64, known_mask: u64)
    ensures
        (all_attr & !known_mask) & known_mask == 0,
        (all_attr & !known_mask) | (all_attr & known_mask) == all_attr,
{
    assert((all_attr & !known_mask) & known_mask == 0) by (bit_vector);
    assert((all_attr & !known_mask) | (all_attr & known_mask) == all_attr) by (bit_vector);
}

/// The first bytes of a stream, collected read by read.
#[derive(Debug, PartialEq, Eq)]
pub struct PrefixReader {
    bytes: Vec<u8>,
    max_len: usize,
    ended: bool,
}

impl PrefixReader {
    /// What has been collected.
    pub closed spec fn collected(self) -> Seq<u8> {
        self.bytes@
    }

    /// How much is to be collected at most.
    pub closed spec fn limit(self) -> nat {
        self.max_len as nat
    }

    /// Whether the stream has ended.
    pub closed spec fn at_end(self) -> bool {
        self.ended
    }

    /// No more is collected than asked for.
    pub open spec fn well_formed(self) -> bool {
        self.collected().len() <= self.limit()
    }

    /// Starts to collect at most `max_len` bytes.
    pub fn new(max_len: usize) -> (r: PrefixReader)
        ensures
            r.well_formed(),
            r.collected() == Seq::<u8>::empty(),
            r.limit() == max_len,
            !r.at_end(),
    {
        PrefixReader { bytes: Vec::new(), max_len, ended: false }
    }

    /// How many bytes the next read may give; none if no read is due.
    pub fn wanted(&self) -> (r: usize)
        requires
            self.well_formed(),
        ensures
            r == if self.at_end() {
                0
            } else {
                self.limit() - self.collected().len()
            },
    {
        if self.ended {
            0
        } else {
            self.max_len - self.bytes.len()
        }
    }

    /// Takes what a read gave. A read that gives nothing ends the stream.
    pub fn accept(&mut self, chunk: &Vec<u8>)
        requires
            old(self).well_formed(),
            !old(self).at_end(),
            old(self).collected().len() + chunk@.len() <= old(self).limit(),
        ensures
            final(self).well_formed(),
            final(self).collected() == old(self).collected() + chunk@,
            final(self).limit() == old(self).limit(),
            final(self).at_end() == (chunk@.len() == 0),
    {
        let ghost before = self.bytes@;
        let mut i: usize = 0;
        while i < chunk.len()
            invariant
                i <= chunk.len(),
                self.bytes@ =~= before + chunk@.take(i as int),
                self.max_len == old(self).max_len,
            decreases chunk.len() - i,
        {
            self.bytes.push(chunk[i]);
            i += 1;
        }
        assert(chunk@.take(chunk.len() as int) =~= chunk@);
        self.ended = chunk.len() == 0;
    }

    /// The bytes that were collected.
    pub fn into_bytes(self) -> (r: Vec<u8>)
        ensures
            r@ == self.collected(),
    {
        self.bytes
    }
}

/// `reader` has collected the beginning of `source`, and the stream has ended
/// only where `source` has.
pub open spec fn reads_from(reader: PrefixReader, source: Seq<u8>) -> bool {
    &&& reader.well_formed()
    &&& reader.collected().is_prefix_of(source)
    &&& reader.at_end() ==> reader.collected() == source
}

/// A new reader has read nothing of any stream.
pub proof fn new_reader_reads_from(reader: PrefixReader, source: Seq<u8>)
    requires
        reader.well_formed(),
        reader.collected() == Seq::<u8>::empty(),
        !reader.at_end(),
    ensures
        reads_from(reader, source),
{
    assert(reader.collected() =~= source.subrange(0, 0));
}

/// A read that gives the next bytes of a stream, and none only at its end,
/// keeps a reader true to the stream.
pub proof fn accepted_reads_from(
    before: PrefixReader,
    after: PrefixReader,
    chunk: Seq<u8>,
    source: Seq<u8>,
)
    requires
        reads_from(before, source),
        chunk.is_prefix_of(source.skip(before.collected().len() as int)),
        chunk.len() == 0 ==> before.collected().len() == source.len(),
        after.well_formed(),
        after.collected() == before.collected() + chunk,
        after.at_end() == (chunk.len() == 0),
    ensures
        reads_from(after, source),
{
    let n = before.collected().len() as int;
    let rest = source.skip(n);
    assert forall|i: int| 0 <= i < after.collected().len() implies after.collected()[i]
        == source[i] by {
        if i < n {
            assert(before.collected()[i] == source.subrange(0, n)[i]);
        } else {
            assert(chunk[i - n] == rest.subrange(0, chunk.len() as int)[i - n]);
        }
    }
    assert(after.collected() =~= source.subrange(0, after.collected().len() as int));
    if after.at_end() {
        assert(after.collected() =~= source);
    }
}

/// Once no read is due, a reader holds the first bytes of the stream, as many as
/// asked for, or the whole stream if it is shorter.
pub proof fn finished_prefix_is_the_beginning(reader: PrefixReader, source: Seq<u8>)
    requires
        reads_from(reader, source),
        reader.at_end() || reader.collected().len() == reader.limit(),
    ensures
        reader.collected() == if source.len() <= reader.limit() {
            source
        } else {
            source.take(reader.limit() as int)
        },
{
    let n = reader.collected().len() as int;
    assert(reader.collected() =~= source.subrange(0, n));
    if source.len() <= reader.limit() {
        assert(n == source.len());
        assert(reader.collected() =~= source);
    } else {
        assert(reader.collected() =~= source.take(reader.limit() as int));
    }
}

/// A file that is copied keeps its content: what was read to tell what it is and
/// what follows make up the whole.
pub proof fn copied_file_is_unchanged(reader: PrefixReader, source: Seq<u8>)
    requires
        reads_from(reader, source),
    ensures
        reader.collected() + source.skip(reader.collected().len() as int) == source,
{
    let n = reader.collected().len() as int;
    assert(reader.collected() =~= source.subrange(0, n));
    assert(reader.collected() + source.skip(n) =~= source);
}

/// How many bytes a copied file takes: those read to tell what it is, and those
/// copied after them.
pub fn copied_len(prefix_len: usize, copied: usize) -> (r: usize)
    requires
        prefix_len + copied <= usize::MAX,
    ensures
        r == prefix_len + copied,
{
    prefix_len + copied
}

/// How far the writing of an archive has come.
#[derive(Debug, Clone, Copy, PartialEq, Eq)]
pub struct PackProgress {
    pub files_done: u64,
    pub bytes_written: usize,
}

/// How often the number of written bytes is shown.
pub const MESSAGE_INTERVAL: u64 = 100;

impl PackProgress {
    /// Nothing is written yet.
    pub fn new() -> (r: PackProgress)
        ensures
            r.files_done == 0,
            r.bytes_written == 0,
    {
        PackProgress { files_done: 0, bytes_written: 0 }
    }

    /// Counts the bytes of a file; the count starts again from zero when it is
    /// full.
    pub fn add_bytes(&mut self, count: usize)
        ensures
            final(self).files_done == old(self).files_done,
            final(self).bytes_written == if old(self).bytes_written + count > usize::MAX {
                old(self).bytes_written + count - usize::MAX - 1
            } else {
                old(self).bytes_written + count
            },
    {
        self.bytes_written = self.bytes_written.wrapping_add(count);
    }

    /// Counts a file. The number of bytes written is shown every hundredth time.
    pub fn file_done(&mut self) -> (r: Option<String>)
        ensures
            final(self).bytes_written == old(self).bytes_written,
            final(self).files_done == if old(self).files_done == u64::MAX {
                0
            } else {
                old(self).files_done + 1
            },
            r is Some <==> final(self).files_done % MESSAGE_INTERVAL == 0,
            r matches Some(text) ==> text@ == crate::util::human_bytes_text(
                old(self).bytes_written as u64,
            ),
    {
        self.files_done = self.files_done.wrapping_add(1);
        if self.files_done % MESSAGE_INTERVAL == 0 {
            Some(human_bytes(self.bytes_written as u64))
        } else {
            None
        }
    }
}

proof fn lemma_textures_listed(samples: Seq<EntrySample>, h: u64)
    ensures
        texture_list(samples).to_set().contains(h) <==> exists|i: int|
            0 <= i < samples.len() && is_texture(#[trigger] samples[i]) && samples[i].hash == h,
    decreases samples.len(),
{
    if samples.len() > 0 {
        let front = samples.drop_last();
        let n = samples.len() - 1;
        lemma_textures_listed(front, h);
        lemma_texture_step(samples, n);
        assert(samples.take(n + 1) =~= samples);
        assert(samples.take(n) =~= front);
        lemma_pushed(texture_list(front), samples[n].hash);
        if texture_list(front).to_set().contains(h) {
            let i = choose|i: int|
                0 <= i < front.len() && is_texture(#[trigger] front[i]) && front[i].hash == h;
            assert(is_texture(samples[i]));
        }
        if exists|i: int|
            0 <= i < samples.len() && is_texture(#[trigger] samples[i]) && samples[i].hash == h {
            let i = choose|i: int|
                0 <= i < samples.len() && is_texture(#[trigger] samples[i]) && samples[i].hash
                    == h;
            if i < n {
                assert(is_texture(front[i]));
            }
        }
    } else {
        reveal_with_fuel(Seq::filter, 1);
        assert(texture_list(samples) =~= Seq::<u64>::empty());
    }
}

/// A file is packed as a texture exactly if its hash is that of one whose first
/// bytes are those of a texture.
pub proof fn packed_textures_are_those_detected(samples: Seq<EntrySample>, hash: u64)
    ensures
        packs(Some(texture_list(samples).to_set()), hash) <==> exists|i: int|
            0 <= i < samples.len() && is_texture(#[trigger] samples[i]) && samples[i].hash
                == hash,
{
    lemma_textures_listed(samples, hash);
}

/// The files of an archive that are packed.
pub open spec fn packed(samples: Seq<EntrySample>) -> Seq<EntrySample> {
    samples.filter(|s: EntrySample| packs(Some(texture_list(samples).to_set()), s.hash))
}

/// No two files of an archive share their hash.
pub open spec fn distinct_hashes(samples: Seq<EntrySample>) -> bool {
    forall|i: int, j: int|
        0 <= i < j < samples.len() ==> (#[trigger] samples[i]).hash != (
        #[trigger] samples[j]).hash
}

proof fn lemma_same_filter(
    samples: Seq<EntrySample>,
    p: spec_fn(EntrySample) -> bool,
    q: spec_fn(EntrySample) -> bool,
)
    requires
        forall|i: int| 0 <= i < samples.len() ==> p(#[trigger] samples[i]) == q(samples[i]),
    ensures
        samples.filter(p) == samples.filter(q),
    decreases samples.len(),
{
    reveal_with_fuel(Seq::filter, 2);
    if samples.len() > 0 {
        let front = samples.drop_last();
        assert forall|i: int| 0 <= i < front.len() implies p(#[trigger] front[i]) == q(
            front[i],
        ) by {
            assert(front[i] == samples[i]);
        }
        lemma_same_filter(front, p, q);
        assert(samples[samples.len() - 1] == samples.last());
    }
}

proof fn lemma_textures_distinct(samples: Seq<EntrySample>)
    requires
        distinct_hashes(samples),
    ensures
        texture_list(samples).no_duplicates(),
    decreases samples.len(),
{
    if samples.len() > 0 {
        let front = samples.drop_last();
        let n = samples.len() - 1;
        assert forall|i: int, j: int| 0 <= i < j < front.len() implies (#[trigger] front[i]).hash
            != (#[trigger] front[j]).hash by {
            assert(samples[i].hash != samples[j].hash);
        }
        lemma_textures_distinct(front);
        lemma_texture_step(samples, n);
        assert(samples.take(n + 1) =~= samples);
        assert(samples.take(n) =~= front);
        lemma_textures_listed(front, samples[n].hash);
        if texture_list(front).to_set().contains(samples[n].hash) {
            let i = choose|i: int|
                0 <= i < front.len() && is_texture(#[trigger] front[i]) && front[i].hash
                    == samples[n].hash;
            assert(samples[i].hash != samples[n].hash);
        }
        assert(!texture_list(front).contains(samples[n].hash));
    } else {
        reveal_with_fuel(Seq::filter, 1);
        assert(texture_list(samples) =~= Seq::<u64>::empty());
    }
}

/// Where only textures are packed, the archive is made for exactly the files
/// that go into it: as many as are packed, and its mark. This holds where no two
/// files share their hash.
pub proof fn every_packed_texture_has_its_place(samples: Seq<EntrySample>)
    requires
        distinct_hashes(samples),
    ensures
        packed(samples).len() == texture_list(samples).to_set().len(),
        forall|i: int|
            0 <= i < samples.len() ==> (packs(
                Some(texture_list(samples).to_set()),
                (#[trigger] samples[i]).hash,
            ) <==> is_texture(samples[i])),
{
    let p = |s: EntrySample| packs(Some(texture_list(samples).to_set()), s.hash);
    let q = |s: EntrySample| is_texture(s);
    assert forall|i: int| 0 <= i < samples.len() implies p(#[trigger] samples[i]) == q(
        samples[i],
    ) by {
        let h = samples[i].hash;
        lemma_textures_listed(samples, h);
        if p(samples[i]) {
            let j = choose|j: int|
                0 <= j < samples.len() && is_texture(#[trigger] samples[j]) && samples[j].hash
                    == h;
            if j < i {
                assert(samples[j].hash != samples[i].hash);
            } else if i < j {
                assert(samples[i].hash != samples[j].hash);
            }
        }
    }
    lemma_same_filter(samples, p, q);
    lemma_textures_distinct(samples);
    texture_list(samples).unique_seq_to_set();
}

/// A file of an original archive.
pub struct OriginalFile {
    pub content: Seq<u8>,
    pub attr: u64,
    pub extension: Option<Seq<char>>,
}

/// What is written for a file.
pub struct WrittenFile {
    pub content: Seq<u8>,
    pub attr: Option<u64>,
}

/// What is written for a file that is packed; `decompressed` is what
/// decompression makes of the content of a texture.
pub open spec fn written_file(
    use_full_package_mode: bool,
    use_feature_clone: bool,
    file: OriginalFile,
    known_mask: u64,
    decompressed: spec_fn(Seq<u8>) -> Seq<u8>,
) -> WrittenFile {
    WrittenFile {
        content: match action_of(use_full_package_mode, file.extension) {
            EntryAction::Decompress => decompressed(file.content),
            EntryAction::Copy => file.content,
        },
        attr: attr_kept(use_feature_clone, file.attr, known_mask),
    }
}

/// Whether `file` is the one that the sample was taken of. The extension is the
/// one that its first bytes stand for, be they fewer than a sample needs; bytes
/// that could not be sampled stand for no texture.
pub open spec fn is_sampled(sample: EntrySample, file: OriginalFile) -> bool {
    if sample.magic_read {
        file.extension == extension_view(sample.extension)
    } else {
        !is_tex_extension(file.extension)
    }
}

/// The two ways of packing agree on a file. One that is packed where only
/// textures are is decompressed either way, and the same is written for it in a
/// full package; any other goes into a full package with its content unchanged.
/// This holds where no two files share their hash.
pub proof fn full_and_texture_packages_agree(
    samples: Seq<EntrySample>,
    i: int,
    file: OriginalFile,
    use_feature_clone: bool,
    known_mask: u64,
    decompressed: spec_fn(Seq<u8>) -> Seq<u8>,
)
    requires
        distinct_hashes(samples),
        0 <= i < samples.len(),
        is_sampled(samples[i], file),
    ensures
        packs(None, samples[i].hash),
        ({
            let full = written_file(true, use_feature_clone, file, known_mask, decompressed);
            let patch = written_file(false, use_feature_clone, file, known_mask, decompressed);
            if packs(Some(texture_list(samples).to_set()), samples[i].hash) {
                &&& action_of(true, file.extension) == EntryAction::Decompress
                &&& action_of(false, file.extension) == EntryAction::Decompress
                &&& full == patch
            } else {
                &&& action_of(true, file.extension) == EntryAction::Copy
                &&& full.content == file.content
            }
        }),
{
    every_packed_texture_has_its_place(samples);
    assert(is_texture(samples[i]) == is_tex_extension(file.extension));
}

/// An original archive: its files, and the samples that were taken of them.
pub struct Original {
    pub samples: Seq<EntrySample>,
    pub files: Seq<OriginalFile>,
}

impl Original {
    /// Each file has its sample, and no two share their hash.
    pub open spec fn well_formed(self) -> bool {
        &&& distinct_hashes(self.samples)
        &&& self.files.len() == self.samples.len()
        &&& forall|i: int|
            0 <= i < self.files.len() ==> is_sampled(#[trigger] self.samples[i], self.files[i])
    }
}

/// The textures that a package is limited to, if it is not a full one.
pub open spec fn package_limit(
    samples: Seq<EntrySample>,
    use_full_package_mode: bool,
) -> Option<Set<u64>> {
    if use_full_package_mode {
        None
    } else {
        Some(texture_list(samples).to_set())
    }
}

/// Whether `written` is written under `hash` into the package that is made of an
/// archive. The mark is not among these files.
pub open spec fn is_written(
    original: Original,
    use_full_package_mode: bool,
    use_feature_clone: bool,
    known_mask: u64,
    decompressed: spec_fn(Seq<u8>) -> Seq<u8>,
    hash: u64,
    written: WrittenFile,
) -> bool {
    exists|i: int|
        0 <= i < original.samples.len() && (#[trigger] original.samples[i]).hash == hash && packs(
            package_limit(original.samples, use_full_package_mode),
            hash,
        ) && written == written_file(
            use_full_package_mode,
            use_feature_clone,
            original.files[i],
            known_mask,
            decompressed,
        )
}

/// The two ways of packing agree on a whole archive. Every file of the package of
/// textures is in the full package too, under the same hash, with the same
/// content and the same attributes. Every other file of the full package has the
/// content that the original has under that hash.
pub proof fn packages_of_one_archive_agree(
    original: Original,
    use_feature_clone: bool,
    known_mask: u64,
    decompressed: spec_fn(Seq<u8>) -> Seq<u8>,
    hash: u64,
    written: WrittenFile,
)
    requires
        original.well_formed(),
    ensures
        is_written(
            original,
            false,
            use_feature_clone,
            known_mask,
            decompressed,
            hash,
            written,
        ) ==> is_written(
            original,
            true,
            use_feature_clone,
            known_mask,
            decompressed,
            hash,
            written,
        ),
        is_written(original, true, use_feature_clone, known_mask, decompressed, hash, written)
            && !packs(package_limit(original.samples, false), hash) ==> exists|i: int|
            0 <= i < original.samples.len() && (#[trigger] original.samples[i]).hash == hash
                && written.content == original.files[i].content,
{
    let samples = original.samples;
    if is_written(
        original,
        false,
        use_feature_clone,
        known_mask,
        decompressed,
        hash,
        written,
    ) {
        let i = choose|i: int|
            0 <= i < samples.len() && (#[trigger] samples[i]).hash == hash && packs(
                package_limit(samples, false),
                hash,
            ) && written == written_file(
                false,
                use_feature_clone,
                original.files[i],
                known_mask,
                decompressed,
            );
        assert(is_sampled(samples[i], original.files[i]));
        full_and_texture_packages_agree(
            samples,
            i,
            original.files[i],
            use_feature_clone,
            known_mask,
            decompressed,
        );
        assert(original.samples[i].hash == hash);
    }
    if is_written(original, true, use_feature_clone, known_mask, decompressed, hash, written)
        && !packs(package_limit(samples, false), hash) {
        let i = choose|i: int|
            0 <= i < samples.len() && (#[trigger] samples[i]).hash == hash && packs(
                package_limit(samples, true),
                hash,
            ) && written == written_file(
                true,
                use_feature_clone,
                original.files[i],
                known_mask,
                decompressed,
            );
        assert(is_sampled(samples[i], original.files[i]));
        full_and_texture_packages_agree(
            samples,
            i,
            original.files[i],
            use_feature_clone,
            known_mask,
            decompressed,
        );
        assert(original.samples[i].hash == hash);
    }
}

} // verus!
