//! The order in which archives are listed.

use vstd::prelude::*;

use crate::chunk::{ChunkName, ChunkNameView, MajorId, MajorView};
use crate::text::chars_of;

verus! {

/// Dictionary order of texts.
pub open spec fn text_less(a: Seq<char>, b: Seq<char>) -> bool
    decreases a.len(),
{
    b.len() > 0 && (a.len() == 0 || a[0] < b[0] || (a[0] == b[0] && text_less(
        a.skip(1),
        b.skip(1),
    )))
}

/// Order of optional numbers: a missing number comes first.
pub open spec fn number_less(a: Option<u32>, b: Option<u32>) -> bool {
    match (a, b) {
        (None, Some(_)) => true,
        (Some(x), Some(y)) => x < y,
        _ => false,
    }
}

/// Order of series: numbered chunks come first.
pub open spec fn major_less(a: MajorView, b: MajorView) -> bool {
    match (a, b) {
        (MajorView::Chunk(x), MajorView::Chunk(y)) => x < y,
        (MajorView::Chunk(_), MajorView::Dlc(_)) => true,
        (MajorView::Dlc(x), MajorView::Dlc(y)) => text_less(x, y),
        _ => false,
    }
}

/// Order of names: by series, then patch, then sub chunk, then its patch.
pub open spec fn name_less(a: ChunkNameView, b: ChunkNameView) -> bool {
    ||| major_less(a.major, b.major)
    ||| {
        &&& a.major == b.major
        &&& {
            ||| number_less(a.patch, b.patch)
            ||| {
                &&& a.patch == b.patch
                &&& {
                    ||| number_less(a.sub, b.sub)
                    ||| a.sub == b.sub && number_less(a.sub_patch, b.sub_patch)
                }
            }
        }
    }
}

fn text_before(a: &str, b: &str) -> (r: bool)
    ensures
        r == text_less(a@, b@),
{
    let x = chars_of(a);
    let y = chars_of(b);
    let mut i: usize = 0;
    assert(x@.skip(0) =~= x@);
    assert(y@.skip(0) =~= y@);
    while i < x.len() && i < y.len()
        invariant
            x@ == a@,
            y@ == b@,
            i <= x.len(),
            i <= y.len(),
            text_less(x@, y@) == text_less(x@.skip(i as int), y@.skip(i as int)),
        decreases x.len() - i,
    {
        assert(x@.skip(i as int)[0] == x@[i as int]);
        assert(y@.skip(i as int)[0] == y@[i as int]);
        assert(x@.skip(i as int).skip(1) =~= x@.skip(i + 1));
        assert(y@.skip(i as int).skip(1) =~= y@.skip(i + 1));
        let c = x[i];
        let d = y[i];
        if c != d {
            return c < d;
        }
        i += 1;
    }
    i < y.len()
}

fn number_before(a: Option<u32>, b: Option<u32>) -> (r: bool)
    ensures
        r == number_less(a, b),
{
    match (a, b) {
        (None, Some(_)) => true,
        (Some(x), Some(y)) => x < y,
        _ => false,
    }
}

fn major_before(a: &MajorId, b: &MajorId) -> (r: bool)
    ensures
        r == major_less(a@, b@),
{
    match (a, b) {
        (MajorId::Chunk(x), MajorId::Chunk(y)) => *x < *y,
        (MajorId::Chunk(_), MajorId::Dlc(_)) => true,
        (MajorId::Dlc(x), MajorId::Dlc(y)) => text_before(x.as_str(), y.as_str()),
        _ => false,
    }
}

/// Whether `a` is listed before `b`.
pub fn name_before(a: &ChunkName, b: &ChunkName) -> (r: bool)
    ensures
        r == name_less(a@, b@),
{
    if !a.major.same(&b.major) {
        proof {
            lemma_major_total(a.major@, b.major@);
        }
        return major_before(&a.major, &b.major);
    }
    proof {
        lemma_major_total(a.major@, b.major@);
    }
    if !crate::chunk::same_number(a.patch, b.patch) {
        return number_before(a.patch, b.patch);
    }
    if !crate::chunk::same_number(a.sub, b.sub) {
        return number_before(a.sub, b.sub);
    }
    number_before(a.sub_patch, b.sub_patch)
}

proof fn lemma_text_total(a: Seq<char>, b: Seq<char>)
    ensures
        text_less(a, b) || text_less(b, a) || a == b,
        !(text_less(a, b) && text_less(b, a)),
        a == b ==> !text_less(a, b),
    decreases a.len(),
{
    if a.len() > 0 && b.len() > 0 && a[0] == b[0] {
        lemma_text_total(a.skip(1), b.skip(1));
        if a.skip(1) == b.skip(1) {
            assert forall|i: int| 0 <= i < a.len() implies a[i] == b[i] by {
                if i > 0 {
                    assert(a.skip(1)[i - 1] == b.skip(1)[i - 1]);
                }
            }
            assert(a.skip(1).len() == b.skip(1).len());
            assert(a =~= b);
        }
    } else if a.len() == 0 && b.len() == 0 {
        assert(a =~= b);
    }
}

proof fn lemma_text_transitive(a: Seq<char>, b: Seq<char>, c: Seq<char>)
    requires
        text_less(a, b),
        text_less(b, c),
    ensures
        text_less(a, c),
    decreases a.len(),
{
    if a.len() > 0 && a[0] == b[0] && b[0] == c[0] {
        lemma_text_transitive(a.skip(1), b.skip(1), c.skip(1));
    }
}

proof fn lemma_major_total(a: MajorView, b: MajorView)
    ensures
        major_less(a, b) || major_less(b, a) || a == b,
        !(major_less(a, b) && major_less(b, a)),
        a == b ==> !major_less(a, b),
{
    if let (MajorView::Dlc(x), MajorView::Dlc(y)) = (a, b) {
        lemma_text_total(x, y);
    }
}

/// Of two names, exactly one comes before the other unless they are the same.
pub proof fn names_are_totally_ordered(a: ChunkNameView, b: ChunkNameView)
    ensures
        name_less(a, b) || name_less(b, a) || a == b,
        !(name_less(a, b) && name_less(b, a)),
        a == b ==> !name_less(a, b),
{
    lemma_major_total(a.major, b.major);
}

/// The order of names is transitive.
pub proof fn name_order_is_transitive(a: ChunkNameView, b: ChunkNameView, c: ChunkNameView)
    requires
        name_less(a, b),
        name_less(b, c),
    ensures
        name_less(a, c),
{
    lemma_major_total(a.major, b.major);
    lemma_major_total(b.major, c.major);
    if major_less(a.major, b.major) && major_less(b.major, c.major) {
        if let (
            MajorView::Dlc(x),
            MajorView::Dlc(y),
            MajorView::Dlc(z),
        ) = (a.major, b.major, c.major) {
            lemma_text_transitive(x, y, z);
        }
    }
}

} // verus!
