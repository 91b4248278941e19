//! Places of files: a directory and a file name in it.

use vstd::prelude::*;

use crate::text::{chars_of, same_text};

verus! {

/// A file by its directory and its name.
#[derive(Debug, PartialEq, Eq)]
pub struct FilePath {
    pub dir: String,
    pub name: String,
}

/// The mathematical value of a [`FilePath`].
pub struct PathView {
    pub dir: Seq<char>,
    pub name: Seq<char>,
}

impl View for FilePath {
    type V = PathView;

    open spec fn view(&self) -> PathView {
        PathView { dir: self.dir@, name: self.name@ }
    }
}

impl Clone for FilePath {
    fn clone(&self) -> (r: Self)
        ensures
            r == *self,
    {
        FilePath { dir: self.dir.clone(), name: self.name.clone() }
    }
}

/// The position of the last dot of `s` that is not its first character, or zero
/// if there is none.
pub open spec fn final_dot(s: Seq<char>) -> nat
    decreases s.len(),
{
    if s.len() <= 1 {
        0
    } else if s.last() == '.' {
        (s.len() - 1) as nat
    } else {
        final_dot(s.drop_last())
    }
}

/// What stands before the extension of a file name.
pub open spec fn stem(name: Seq<char>) -> Seq<char> {
    if final_dot(name) == 0 {
        name
    } else {
        name.take(final_dot(name) as int)
    }
}

/// Whether the last component of a path is the name of a file.
pub open spec fn is_file_name(name: Seq<char>) -> bool {
    name.len() > 0 && name != "."@ && name != ".."@
}

/// `name` with `extension` in place of its own extension.
pub open spec fn renamed(name: Seq<char>, extension: Seq<char>) -> Seq<char> {
    if is_file_name(name) {
        stem(name) + "."@ + extension
    } else {
        name
    }
}

impl PathView {
    /// The same place with another extension.
    pub open spec fn with_extension(self, extension: Seq<char>) -> PathView {
        PathView { dir: self.dir, name: renamed(self.name, extension) }
    }
}

impl FilePath {
    /// The same place with `extension` in place of the file's own extension.
    pub fn with_extension(&self, extension: &str) -> (r: FilePath)
        ensures
            r@ == self@.with_extension(extension@),
    {
        let chars = chars_of(self.name.as_str());
        if chars.len() == 0 || same_text(self.name.as_str(), ".") || same_text(
            self.name.as_str(),
            "..",
        ) {
            return self.clone();
        }
        let mut end: usize = chars.len();
        assert(chars@.take(chars.len() as int) =~= chars@);
        while end > 1 && chars[end - 1] != '.'
            invariant
                0 < end <= chars.len(),
                final_dot(chars@) == final_dot(chars@.take(end as int)),
            decreases end,
        {
            assert(chars@.take(end as int).drop_last() =~= chars@.take(end - 1));
            end -= 1;
        }
        let stem_end: usize = if end > 1 {
            end - 1
        } else {
            chars.len()
        };
        let mut name = self.name.as_str().substring_char(0, stem_end).to_owned();
        assert(name@ =~= stem(self.name@));
        name.append(".");
        name.append(extension);
        FilePath { dir: self.dir.clone(), name }
    }
}

/// The stem of a longer name that ends in `.pak` is all that stands before it.
pub proof fn lemma_pak_stem(name: Seq<char>)
    requires
        ".pak"@.is_suffix_of(name),
        name.len() > 4,
    ensures
        stem(name) == name.take(name.len() - 4),
        stem(name) + ".pak"@ == name,
        is_file_name(name),
{
    reveal_strlit(".pak");
    reveal_strlit(".");
    reveal_strlit("..");
    let n = name.len() as int;
    let tail = name.subrange(n - 4, n);
    assert(name[n - 1] == tail[3]);
    assert(name[n - 2] == tail[2]);
    assert(name[n - 3] == tail[1]);
    assert(name[n - 4] == tail[0]);
    let a = name.drop_last();
    let b = a.drop_last();
    let c = b.drop_last();
    assert(final_dot(c) == n - 4);
    assert(final_dot(b) == n - 4);
    assert(final_dot(a) == n - 4);
    assert(final_dot(name) == n - 4);
    assert(name.take(n - 4) + ".pak"@ =~= name);
}

} // verus!
