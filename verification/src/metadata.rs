//! The mark that tells an archive of this tool from others.

use vstd::prelude::*;

verus! {

/// What an archive says of its making.
#[derive(Debug, Clone, Copy, PartialEq, Eq)]
pub struct PakMetadata {
    pub full_package: bool,
}

/// The bytes that every mark begins with: `MHWS_TEX_DECOMPRESSOR`, then the
/// version of the format.
pub open spec fn mark() -> Seq<u8> {
    seq![
        77, 72, 87, 83, 95, 84, 69, 88, 95, 68, 69, 67, 79, 77, 80, 82, 69, 83, 83, 79, 82, 1,
    ]
}

/// The bytes that stand for a mark.
pub open spec fn encoded(metadata: PakMetadata) -> Seq<u8> {
    mark().push(if metadata.full_package { 1 } else { 0 })
}

fn mark_bytes() -> (r: Vec<u8>)
    ensures
        r@ == mark(),
{
    let r: Vec<u8> = vec![
        77, 72, 87, 83, 95, 84, 69, 88, 95, 68, 69, 67, 79, 77, 80, 82, 69, 83, 83, 79, 82, 1,
    ];
    assert(r@ =~= mark());
    r
}

impl PakMetadata {
    /// The mark of an archive that holds every file, or only textures.
    pub fn new(is_full_package: bool) -> (r: PakMetadata)
        ensures
            r.full_package == is_full_package,
    {
        PakMetadata { full_package: is_full_package }
    }

    /// Whether the archive holds every file of its original, and so was made to
    /// take its place.
    pub fn is_full_package(&self) -> (r: bool)
        ensures
            r == self.full_package,
    {
        self.full_package
    }

    /// The bytes to write into the archive.
    pub fn to_bytes(&self) -> (r: Vec<u8>)
        ensures
            r@ == encoded(*self),
    {
        let mut r = mark_bytes();
        r.push(if self.full_package { 1 } else { 0 });
        r
    }

    /// The mark that bytes stand for, if they stand for one.
    pub fn from_bytes(bytes: &Vec<u8>) -> (r: Option<PakMetadata>)
        ensures
            r is Some <==> (exists|m: PakMetadata| bytes@ == #[trigger] encoded(m)),
            r matches Some(m) ==> bytes@ == encoded(m),
    {
        let expected = mark_bytes();
        let len: usize = expected.len();
        if bytes.len() != len + 1 {
            return None;
        }
        let mut i: usize = 0;
        while i < len
            invariant
                i <= len,
                expected@ == mark(),
                len == expected@.len(),
                bytes@.len() == len + 1,
                forall|j: int| 0 <= j < i ==> bytes@[j] == expected@[j],
            decreases len - i,
        {
            if bytes[i] != expected[i] {
                assert forall|m: PakMetadata| bytes@ != #[trigger] encoded(m) by {
                    assert(encoded(m)[i as int] == expected@[i as int]);
                }
                return None;
            }
            i += 1;
        }
        let flag = bytes[len];
        if flag > 1 {
            assert forall|m: PakMetadata| bytes@ != #[trigger] encoded(m) by {
                assert(encoded(m)[len as int] <= 1);
            }
            return None;
        }
        let m = PakMetadata { full_package: flag == 1 };
        assert(bytes@ =~= encoded(m));
        Some(m)
    }
}

/// A mark reads back as what was written: no two marks share their bytes.
pub proof fn marks_read_back(a: PakMetadata, b: PakMetadata)
    ensures
        encoded(a) == encoded(b) <==> a == b,
{
    if encoded(a) == encoded(b) {
        assert(encoded(a).last() == encoded(b).last());
    }
}

/// The hash under which an archive holds the mark of this tool.
pub const MARK_HASH: u64 = 0x4d48_5753_5445_5844;

/// Which of the entries of an archive, given by their hashes, holds the mark: the
/// first with the hash of the mark.
pub fn mark_entry(hashes: &Vec<u64>) -> (r: Option<usize>)
    ensures
        r is Some <==> hashes@.contains(MARK_HASH),
        r matches Some(i) ==> {
            &&& i < hashes@.len()
            &&& hashes@[i as int] == MARK_HASH
            &&& forall|j: int| 0 <= j < i ==> hashes@[j] != MARK_HASH
        },
{
    let mut i: usize = 0;
    while i < hashes.len()
        invariant
            i <= hashes.len(),
            forall|j: int| 0 <= j < i ==> hashes@[j] != MARK_HASH,
        decreases hashes.len() - i,
    {
        if hashes[i] == MARK_HASH {
            return Some(i);
        }
        i += 1;
    }
    None
}

/// What came of looking for the mark of an archive.
#[derive(Debug, Clone, Copy, PartialEq, Eq)]
pub enum MarkLookup {
    /// The file could not be opened.
    Unopened,
    /// The file is not an archive.
    NotAnArchive,
    /// The archive could not be read to the end of the mark.
    Failed,
    /// The archive was read; it may hold a mark.
    Read(Option<PakMetadata>),
}

/// Reading a mark failed.
#[derive(Debug, Clone, Copy, PartialEq, Eq)]
pub struct MarkError;

/// The mark of a file of this tool. A file that cannot be opened or is no
/// archive has none; only failing to read an archive is an error.
pub fn check_tool_generated_file(lookup: MarkLookup) -> (r: Result<Option<PakMetadata>, MarkError>)
    ensures
        r == match lookup {
            MarkLookup::Unopened => Ok::<Option<PakMetadata>, MarkError>(None),
            MarkLookup::NotAnArchive => Ok(None),
            MarkLookup::Failed => Err(MarkError),
            MarkLookup::Read(found) => Ok(found),
        },
{
    match lookup {
        MarkLookup::Unopened => Ok(None),
        MarkLookup::NotAnArchive => Ok(None),
        MarkLookup::Failed => Err(MarkError),
        MarkLookup::Read(found) => Ok(found),
    }
}

} // verus!
