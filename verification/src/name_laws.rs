//! What holds of the names of archives and of their order, stated on characters and
//! numbers.

use vstd::prelude::*;

use crate::chunk::{ChunkName, ChunkNameView, MajorId, MajorView};

verus! {

/// Numbers are read digit by digit: one more digit makes ten times the number and
/// the digit, as long as the result fits 32 bits.
pub proof fn numbers_are_read_by_digits(s: Seq<char>, c: char)
    ensures
        crate::text::number_of(Seq::<char>::empty()) is None,
        !('0' <= c <= '9') ==> crate::text::number_of(s.push(c)) is None,
        '0' <= c <= '9' ==> crate::text::number_of(seq![c]) == Some((c as u32 - '0' as u32) as u32),
        '0' <= c <= '9' ==> (crate::text::number_of(s) matches Some(n) ==> crate::text::number_of(
            s.push(c),
        ) == if n * 10 + (c as u32 - '0' as u32) <= u32::MAX {
            Some((n * 10 + (c as u32 - '0' as u32)) as u32)
        } else {
            None
        }),
        s.len() > 0 && crate::text::number_of(s) is None ==> crate::text::number_of(
            s.push(c),
        ) is None,
{
    let t = s.push(c);
    assert(t.drop_last() =~= s);
    assert(t[s.len() as int] == c);
    let one = seq![c];
    assert(one.drop_last() =~= Seq::<char>::empty());
    assert(crate::text::decimal_value(one.drop_last()) == 0);
    assert(one.last() == c);
    if '0' <= c <= '9' {
        assert(crate::text::decimal_value(one) == (c as nat - '0' as nat) as nat);
        assert(forall|i: int| 0 <= i < one.len() ==> crate::text::is_digit(#[trigger] one[i]));
    }
    assert forall|i: int| 0 <= i < s.len() implies t[i] == s[i] by {}
    if crate::text::number_of(s) is Some && '0' <= c <= '9' {
        assert forall|i: int| 0 <= i < t.len() implies crate::text::is_digit(#[trigger] t[i]) by {
            if i < s.len() {
                assert(crate::text::is_digit(s[i]));
            }
        }
    }
    if s.len() > 0 && crate::text::number_of(s) is None && crate::text::number_of(t) is Some {
        assert forall|i: int| 0 <= i < s.len() implies crate::text::is_digit(#[trigger] s[i]) by {
            assert(crate::text::is_digit(t[i]));
        }
    }
    if !('0' <= c <= '9') && crate::text::number_of(t) is Some {
        assert(crate::text::is_digit(t[s.len() as int]));
    }
}

/// The spelling of a number is digits that read back as it: without leading
/// zeros, but filled up with zeros to three digits in a name.
pub proof fn numbers_are_spelled_out(n: u32)
    ensures
        crate::text::number_of(crate::text::decimal(n as nat)) == Some(n),
        n > 0 ==> crate::text::decimal(n as nat)[0] != '0',
        n == 0 ==> crate::text::decimal(n as nat) == seq!['0'],
        crate::text::number_of(crate::text::padded(n as nat)) == Some(n),
        crate::text::padded(n as nat).len() >= 3,
        n >= 1000 ==> crate::text::padded(n as nat)[0] != '0',
        n < 1000 ==> crate::text::padded(n as nat).len() == 3,
{
    crate::text::lemma_decimal_reads_back(n as nat);
    crate::text::lemma_padded_reads_back(n);
    lemma_decimal_start(n as nat);
    lemma_decimal_len(n as nat);
}

proof fn lemma_decimal_start(n: nat)
    ensures
        crate::text::decimal(n).len() > 0,
        n > 0 ==> crate::text::decimal(n)[0] != '0',
        n == 0 ==> crate::text::decimal(n) == seq!['0'],
    decreases n,
{
    if n >= 10 {
        lemma_decimal_start(n / 10);
    } else {
        assert(crate::text::decimal(n) == seq![crate::text::digit_char(n)]);
        if n == 0 {
            assert(crate::text::digit_char(0) == '0');
        }
    }
}

proof fn lemma_decimal_len(n: nat)
    ensures
        n < 10 ==> crate::text::decimal(n).len() == 1,
        10 <= n < 100 ==> crate::text::decimal(n).len() == 2,
        100 <= n < 1000 ==> crate::text::decimal(n).len() == 3,
        n >= 1000 ==> crate::text::decimal(n).len() > 3,
    decreases n,
{
    if n >= 10 {
        lemma_decimal_len(n / 10);
    }
}

/// The spelling of a larger number is that of its tenth and one more digit.
pub proof fn numbers_are_spelled_by_digits(n: nat)
    ensures
        n >= 10 ==> {
            &&& crate::text::decimal(n).drop_last() == crate::text::decimal(n / 10)
            &&& crate::text::decimal(n).last() as nat == '0' as nat + n % 10
        },
        n < 10 ==> {
            &&& crate::text::decimal(n).len() == 1
            &&& crate::text::decimal(n)[0] as nat == '0' as nat + n
        },
{
    if n >= 10 {
        assert(crate::text::decimal(n).drop_last() =~= crate::text::decimal(n / 10));
    }
}

/// What is left of a text without its quotes: only `"` and `'` were cut off, all
/// of them at both ends.
pub proof fn only_outer_quotes_are_cut(s: Seq<char>, r: Seq<char>)
    requires
        crate::text::quotes_trimmed(s, r),
    ensures
        r.len() > 0 ==> r[0] != '"' && r[0] != '\'' && r.last() != '"' && r.last() != '\'',
        exists|front: Seq<char>, back: Seq<char>|
            s == #[trigger] (front + r + back) && (forall|i: int|
                0 <= i < front.len() ==> (#[trigger] front[i] == '"' || front[i] == '\'')) && (
            forall|i: int| 0 <= i < back.len() ==> (#[trigger] back[i] == '"' || back[i] == '\'')),
{
    let (from, to) = choose|from: int, to: int|
        #[trigger] crate::text::trimmed_between(s, r, from, to);
    let front = s.take(from);
    let back = s.skip(to);
    assert forall|i: int| 0 <= i < front.len() implies (#[trigger] front[i] == '"' || front[i]
        == '\'') by {
        assert(crate::text::is_quote(s[i]));
    }
    assert forall|i: int| 0 <= i < back.len() implies (#[trigger] back[i] == '"' || back[i]
        == '\'') by {
        assert(crate::text::is_quote(s[to + i]));
    }
    assert(s =~= front + r + back);
}

/// A component of a file name: a label and a number in digits.
pub open spec fn component_text(label: Seq<char>, digits: Option<Seq<char>>) -> Seq<char> {
    match digits {
        Some(d) => "."@ + (label + d) + ".pak"@,
        None => Seq::empty(),
    }
}

/// The digits stand for the number, or both are missing.
pub open spec fn stand_for(digits: Option<Seq<char>>, number: Option<u32>) -> bool {
    match digits {
        Some(d) => number is Some && crate::text::number_of(d) == number,
        None => number is None,
    }
}

/// `head` is what a file name of the series begins with.
pub open spec fn begins_series(head: Seq<char>, major: MajorView) -> bool {
    match major {
        MajorView::Chunk(id) => exists|d: Seq<char>|
            head == #[trigger] ("re_chunk_"@ + d) && crate::text::number_of(d) == Some(id),
        MajorView::Dlc(id) => head == "re_dlc_"@ + id && id.len() > 0 && !id.contains('.'),
    }
}

/// `s` is made up of the beginning of a series, `.pak` and the numbered
/// components that `name` has, in their order. Only a sub chunk has a patch behind
/// it.
pub open spec fn is_made_up(
    s: Seq<char>,
    name: ChunkNameView,
    head: Seq<char>,
    patch: Option<Seq<char>>,
    sub: Option<Seq<char>>,
    sub_patch: Option<Seq<char>>,
) -> bool {
    &&& s == head + ".pak"@ + component_text("patch_"@, patch) + component_text("sub_"@, sub)
        + component_text("patch_"@, sub_patch)
    &&& begins_series(head, name.major)
    &&& stand_for(patch, name.patch)
    &&& stand_for(sub, name.sub)
    &&& stand_for(sub_patch, name.sub_patch)
    &&& sub_patch is Some ==> sub is Some
}

/// The components of a name as a list.
spec fn listed(label: Seq<char>, digits: Option<Seq<char>>) -> Seq<Seq<char>> {
    match digits {
        Some(d) => seq![label + d],
        None => seq![],
    }
}

spec fn parted(label: Seq<char>, digits: Option<Seq<char>>) -> Seq<Seq<char>> {
    match digits {
        Some(d) => seq![label + d, "pak"@],
        None => seq![],
    }
}

proof fn lemma_digits_dotless(label: Seq<char>, d: Seq<char>)
    requires
        crate::text::number_of(d) is Some,
        !label.contains('.'),
    ensures
        !(label + d).contains('.'),
{
    assert forall|i: int| 0 <= i < (label + d).len() implies (label + d)[i] != '.' by {
        if i < label.len() {
            assert(label.contains(label[i]));
        } else {
            assert(crate::text::is_digit(d[i - label.len()]));
        }
    }
}

proof fn lemma_component_text(s: Seq<char>, label: Seq<char>, digits: Option<Seq<char>>)
    requires
        !label.contains('.'),
        digits matches Some(d) ==> crate::text::number_of(d) is Some,
    ensures
        crate::text::dot_parts(s + component_text(label, digits)) == crate::text::dot_parts(s)
            + parted(label, digits),
{
    match digits {
        Some(d) => {
            lemma_digits_dotless(label, d);
            crate::chunk::lemma_component_parts(s, label + d);
            assert(s + component_text(label, digits) =~= s + "."@ + (label + d) + ".pak"@);
        },
        None => {
            assert(s + component_text(label, digits) =~= s);
            assert(crate::text::dot_parts(s) + parted(label, digits)
                =~= crate::text::dot_parts(s));
        },
    }
}

proof fn lemma_labelled_digits(label: Seq<char>, d: Seq<char>)
    ensures
        crate::chunk::labelled(label + d, label) == crate::text::number_of(d),
{
    assert(label =~= (label + d).subrange(0, label.len() as int));
    assert((label + d).skip(label.len() as int) =~= d);
}

proof fn lemma_head(head: Seq<char>, major: MajorView)
    requires
        begins_series(head, major),
    ensures
        !head.contains('.'),
        crate::chunk::major_of(head) == Some(major),
{
    reveal_strlit("re_chunk_");
    reveal_strlit("re_dlc_");
    match major {
        MajorView::Chunk(id) => {
            let d = choose|d: Seq<char>|
                head == #[trigger] ("re_chunk_"@ + d) && crate::text::number_of(d) == Some(id);
            lemma_digits_dotless("re_chunk_"@, d);
            lemma_labelled_digits("re_chunk_"@, d);
            assert("re_chunk_"@ =~= head.subrange(0, 9));
        },
        MajorView::Dlc(id) => {
            assert forall|i: int| 0 <= i < head.len() implies head[i] != '.' by {
                if i >= 7 {
                    assert(id.contains(id[i - 7]));
                }
            }
            assert(head[3] == 'd');
            if "re_chunk_"@.is_prefix_of(head) {
                assert(head.subrange(0, 9)[3] == head[3]);
            }
            assert("re_dlc_"@ =~= head.subrange(0, 7));
            assert(head.skip(7) =~= id);
        },
    }
}

proof fn lemma_sub_is_no_patch(d: Seq<char>)
    ensures
        crate::chunk::labelled("sub_"@ + d, "patch_"@) is None,
{
    reveal_strlit("sub_");
    reveal_strlit("patch_");
    let part = "sub_"@ + d;
    if "patch_"@.is_prefix_of(part) {
        assert(part.subrange(0, 6)[0] == part[0]);
    }
}

proof fn lemma_listed_assembled(
    name: ChunkNameView,
    patch: Option<Seq<char>>,
    sub: Option<Seq<char>>,
    sub_patch: Option<Seq<char>>,
)
    requires
        stand_for(patch, name.patch),
        stand_for(sub, name.sub),
        stand_for(sub_patch, name.sub_patch),
        sub_patch is Some ==> sub is Some,
    ensures
        crate::chunk::assembled(
            name.major,
            listed("patch_"@, patch) + listed("sub_"@, sub) + listed("patch_"@, sub_patch),
        ) == Some(name),
{
    let a = listed("patch_"@, patch);
    let b = listed("sub_"@, sub);
    let c = listed("patch_"@, sub_patch);
    let list = a + b + c;
    let rest = b + c;
    assert(list.skip(a.len() as int) =~= rest);
    if let Some(d) = patch {
        lemma_labelled_digits("patch_"@, d);
        assert(list[0] == a[0]);
    }
    if let Some(d) = sub {
        lemma_labelled_digits("sub_"@, d);
        lemma_sub_is_no_patch(d);
        assert(rest[0] == b[0]);
        if let Some(e) = sub_patch {
            lemma_labelled_digits("patch_"@, e);
            assert(rest[1] == c[0]);
        }
    }
    assert(crate::chunk::sub_of(rest) == Some((name.sub, name.sub_patch)));
    if patch is None {
        assert(list =~= rest);
    }
}

proof fn lemma_parts_assembled(
    head: Seq<char>,
    patch: Option<Seq<char>>,
    sub: Option<Seq<char>>,
    sub_patch: Option<Seq<char>>,
)
    ensures
        ({
            let parts = seq![head, "pak"@] + parted("patch_"@, patch) + parted("sub_"@, sub)
                + parted("patch_"@, sub_patch);
            &&& crate::chunk::paired_with_pak(parts)
            &&& parts[0] == head
            &&& parts.len() > 0
            &&& crate::chunk::components_of(parts) == listed("patch_"@, patch) + listed(
                "sub_"@,
                sub,
            ) + listed("patch_"@, sub_patch)
        }),
{
    let parts = seq![head, "pak"@] + parted("patch_"@, patch) + parted("sub_"@, sub) + parted(
        "patch_"@,
        sub_patch,
    );
    let list = listed("patch_"@, patch) + listed("sub_"@, sub) + listed("patch_"@, sub_patch);
    assert(parts.len() == 2 * list.len() + 2);
    assert forall|i: int| 0 <= i < parts.len() && i % 2 == 1 implies #[trigger] parts[i]
        == "pak"@ by {}
    assert(crate::chunk::components_of(parts) =~= list) by {
        assert forall|i: int| 0 <= i < list.len() implies crate::chunk::components_of(parts)[i]
            == list[i] by {
            assert(crate::chunk::components_of(parts)[i] == parts[2 * i + 2]);
        }
    }
}

/// Every file name that is made up as the names of archives are is read as the
/// archive's name: a chunk by its number, downloadable content by its id, with or
/// without leading zeros in its numbers.
pub proof fn made_up_names_are_read(
    s: Seq<char>,
    name: ChunkNameView,
    head: Seq<char>,
    patch: Option<Seq<char>>,
    sub: Option<Seq<char>>,
    sub_patch: Option<Seq<char>>,
)
    requires
        is_made_up(s, name, head, patch, sub, sub_patch),
    ensures
        crate::chunk::parsed(s) == Some(name),
{
    assert(!"patch_"@.contains('.') && !"sub_"@.contains('.')) by {
        reveal_strlit("patch_");
        reveal_strlit("sub_");
    }
    lemma_head(head, name.major);
    let base = head + ".pak"@;
    let patched = base + component_text("patch_"@, patch);
    let with_sub = patched + component_text("sub_"@, sub);
    crate::chunk::lemma_component_parts(Seq::empty(), head);
    lemma_component_text(base, "patch_"@, patch);
    lemma_component_text(patched, "sub_"@, sub);
    lemma_component_text(with_sub, "patch_"@, sub_patch);
    lemma_parts_assembled(head, patch, sub, sub_patch);
    lemma_listed_assembled(name, patch, sub, sub_patch);
}

/// The parts of a text, with dots between them.
spec fn joined(parts: Seq<Seq<char>>) -> Seq<char>
    decreases parts.len(),
{
    if parts.len() == 0 {
        seq![]
    } else if parts.len() == 1 {
        parts[0]
    } else {
        joined(parts.drop_last()) + seq!['.'] + parts.last()
    }
}

proof fn lemma_joined(s: Seq<char>)
    ensures
        joined(crate::text::dot_parts(s)) == s,
    decreases s.len(),
{
    let parts = crate::text::dot_parts(s);
    if s.len() == 0 {
        assert(s =~= Seq::<char>::empty());
    } else {
        let front = s.drop_last();
        let before = crate::text::dot_parts(front);
        lemma_joined(front);
        crate::chunk::lemma_parts_nonempty(front);
        if s.last() == '.' {
            assert(parts.drop_last() =~= before);
            assert(joined(parts) =~= s);
        } else {
            assert(parts.drop_last() =~= before.drop_last());
            assert(parts.last() == before.last().push(s.last()));
            if before.len() == 1 {
                assert(before[0] == before.last());
                assert(parts[0] =~= s);
            } else {
                assert(joined(parts) =~= joined(before).push(s.last()));
                assert(front.push(s.last()) =~= s);
            }
        }
    }
}

proof fn lemma_joined_more(parts: Seq<Seq<char>>, label: Seq<char>, digits: Option<Seq<char>>)
    requires
        parts.len() > 0,
    ensures
        joined(parts + parted(label, digits)) == joined(parts) + component_text(label, digits),
{
    reveal_strlit(".");
    reveal_strlit("pak");
    reveal_strlit(".pak");
    match digits {
        Some(d) => {
            let all = parts + parted(label, digits);
            let some = parts.push(label + d);
            assert(all.drop_last() =~= some);
            assert(some.drop_last() =~= parts);
            assert(joined(some) == joined(parts) + seq!['.'] + (label + d));
            assert(joined(all) == joined(some) + seq!['.'] + "pak"@);
            assert(joined(all) =~= joined(parts) + component_text(label, digits));
        },
        None => {
            assert(parts + parted(label, digits) =~= parts);
            assert(joined(parts) + component_text(label, digits) =~= joined(parts));
        },
    }
}

proof fn lemma_label_taken(part: Seq<char>, label: Seq<char>)
    requires
        crate::chunk::labelled(part, label) is Some,
    ensures
        part == label + part.skip(label.len() as int),
        crate::text::number_of(part.skip(label.len() as int)) == crate::chunk::labelled(
            part,
            label,
        ),
{
    assert(part =~= label + part.skip(label.len() as int)) by {
        assert forall|i: int| 0 <= i < label.len() implies part[i] == label[i] by {
            assert(label[i] == part.subrange(0, label.len() as int)[i]);
        }
    }
}

proof fn lemma_head_taken(part: Seq<char>, major: MajorView)
    requires
        crate::chunk::major_of(part) == Some(major),
        !part.contains('.'),
    ensures
        begins_series(part, major),
{
    reveal_strlit("re_dlc_");
    match major {
        MajorView::Chunk(id) => {
            lemma_label_taken(part, "re_chunk_"@);
            let d = part.skip("re_chunk_"@.len() as int);
            assert(part == "re_chunk_"@ + d);
        },
        MajorView::Dlc(id) => {
            assert(part =~= "re_dlc_"@ + id) by {
                assert forall|i: int| 0 <= i < 7 implies part[i] == "re_dlc_"@[i] by {
                    assert("re_dlc_"@[i] == part.subrange(0, 7)[i]);
                }
            }
            assert forall|i: int| 0 <= i < id.len() implies id[i] != '.' by {
                assert(part.contains(part[i + 7]));
            }
        },
    }
}

/// The digits of the numbers that a list of components holds.
proof fn lemma_components_taken(major: MajorView, components: Seq<Seq<char>>, name: ChunkNameView)
    -> (r: (Option<Seq<char>>, Option<Seq<char>>, Option<Seq<char>>))
    requires
        crate::chunk::assembled(major, components) == Some(name),
    ensures
        name.major == major,
        stand_for(r.0, name.patch),
        stand_for(r.1, name.sub),
        stand_for(r.2, name.sub_patch),
        r.2 is Some ==> r.1 is Some,
        components == listed("patch_"@, r.0) + listed("sub_"@, r.1) + listed("patch_"@, r.2),
{
    let skip = if name.patch is Some {
        1int
    } else {
        0int
    };
    let rest = if name.patch is Some {
        components.skip(1)
    } else {
        components
    };
    let patch = if name.patch is Some {
        lemma_label_taken(components[0], "patch_"@);
        Some(components[0].skip("patch_"@.len() as int))
    } else {
        None
    };
    let sub = if name.sub is Some {
        assert(rest[0] == components[skip]);
        lemma_label_taken(components[skip], "sub_"@);
        Some(components[skip].skip("sub_"@.len() as int))
    } else {
        None
    };
    let sub_patch = if name.sub_patch is Some {
        assert(rest[1] == components[skip + 1]);
        lemma_label_taken(components[skip + 1], "patch_"@);
        Some(components[skip + 1].skip("patch_"@.len() as int))
    } else {
        None
    };
    assert(components =~= listed("patch_"@, patch) + listed("sub_"@, sub) + listed(
        "patch_"@,
        sub_patch,
    ));
    (patch, sub, sub_patch)
}

/// Whatever is read as an archive's name is made up as the names of archives are:
/// no other file name is taken for one.
pub proof fn read_names_are_made_up(s: Seq<char>, name: ChunkNameView)
    requires
        crate::chunk::parsed(s) == Some(name),
    ensures
        exists|
            head: Seq<char>,
            patch: Option<Seq<char>>,
            sub: Option<Seq<char>>,
            sub_patch: Option<Seq<char>>,
        | #[trigger]
            is_made_up(s, name, head, patch, sub, sub_patch),
{
    let parts = crate::text::dot_parts(s);
    let head = parts[0];
    let components = crate::chunk::components_of(parts);
    let major = crate::chunk::major_of(head)->0;
    crate::chunk::lemma_parts_dotless(s);
    lemma_joined(s);
    lemma_head_taken(head, major);
    let (patch, sub, sub_patch) = lemma_components_taken(major, components, name);
    let base = seq![head, "pak"@];
    let p1 = base + parted("patch_"@, patch);
    let p2 = p1 + parted("sub_"@, sub);
    let p3 = p2 + parted("patch_"@, sub_patch);
    lemma_parts_assembled(head, patch, sub, sub_patch);
    assert(p3.len() == parts.len()) by {
        assert(components.len() == parts.len() / 2 - 1);
        assert(crate::chunk::components_of(p3).len() == p3.len() / 2 - 1);
    }
    assert forall|i: int| 0 <= i < parts.len() implies parts[i] == p3[i] by {
        if i % 2 == 1 {
            assert(parts[i] == "pak"@);
            assert(p3[i] == "pak"@);
        } else if i > 0 {
            let k = i / 2 - 1;
            assert(components[k] == parts[2 * k + 2]);
            assert(crate::chunk::components_of(p3)[k] == p3[2 * k + 2]);
        }
    }
    assert(parts =~= p3);
    lemma_joined_more(base, "patch_"@, patch);
    lemma_joined_more(p1, "sub_"@, sub);
    lemma_joined_more(p2, "patch_"@, sub_patch);
    assert(joined(base) =~= head + ".pak"@) by {
        reveal_strlit("pak");
        reveal_strlit(".pak");
        assert(base.drop_last() =~= seq![head]);
        assert(joined(seq![head]) == head);
        assert(joined(base) == head + seq!['.'] + "pak"@);
    }
    assert(is_made_up(s, name, head, patch, sub, sub_patch));
}

/// The file name of an archive is made up as the names of archives are, with every
/// number in at least three digits. This holds of every name that has a file name:
/// only a sub chunk has a patch behind it, and an id is not empty and has no dot.
pub proof fn spellings_are_made_up(name: ChunkNameView, id: u32)
    requires
        name.sub_patch is Some ==> name.sub is Some,
        name.major matches MajorView::Dlc(id) ==> id.len() > 0 && !id.contains('.'),
    ensures
        ({
            let digits = |n: Option<u32>|
                match n {
                    Some(n) => Some(crate::text::padded(n as nat)),
                    None => None::<Seq<char>>,
                };
            let head = match name.major {
                MajorView::Chunk(n) => "re_chunk_"@ + crate::text::padded(n as nat),
                MajorView::Dlc(id) => "re_dlc_"@ + id,
            };
            is_made_up(
                crate::chunk::spelled(name),
                name,
                head,
                digits(name.patch),
                digits(name.sub),
                digits(name.sub_patch),
            )
        }),
        crate::chunk::parsed(crate::chunk::spelled(name)) == Some(name),
        name.with_sub_patch(id).major == name.major,
        name.with_sub_patch(id).patch == name.patch,
        name.with_sub_patch(id).sub == name.sub,
        name.with_sub_patch(id).sub_patch == Some(id),
{
    let digits = |n: Option<u32>|
        match n {
            Some(n) => Some(crate::text::padded(n as nat)),
            None => None::<Seq<char>>,
        };
    let head = match name.major {
        MajorView::Chunk(n) => "re_chunk_"@ + crate::text::padded(n as nat),
        MajorView::Dlc(id) => "re_dlc_"@ + id,
    };
    if let MajorView::Chunk(n) = name.major {
        crate::text::lemma_padded_reads_back(n);
        assert(head == "re_chunk_"@ + crate::text::padded(n as nat));
    }
    if let Some(n) = name.patch {
        crate::text::lemma_padded_reads_back(n);
    }
    if let Some(n) = name.sub {
        crate::text::lemma_padded_reads_back(n);
    }
    if let Some(n) = name.sub_patch {
        crate::text::lemma_padded_reads_back(n);
    }
    let base = head + ".pak"@;
    let patched = crate::chunk::with_component(base, "patch_"@, name.patch);
    let with_sub = crate::chunk::with_component(patched, "sub_"@, name.sub);
    assert(patched =~= base + component_text("patch_"@, digits(name.patch)));
    assert(with_sub =~= patched + component_text("sub_"@, digits(name.sub)));
    assert(crate::chunk::spelled(name) =~= with_sub + component_text(
        "patch_"@,
        digits(name.sub_patch),
    ));
    made_up_names_are_read(
        crate::chunk::spelled(name),
        name,
        head,
        digits(name.patch),
        digits(name.sub),
        digits(name.sub_patch),
    );
}

/// Two texts are the same up to position `k`, where the first one ends or has the
/// smaller character.
pub open spec fn differ_at(a: Seq<char>, b: Seq<char>, k: int) -> bool {
    &&& 0 <= k <= a.len()
    &&& k < b.len()
    &&& forall|i: int| 0 <= i < k ==> #[trigger] a[i] == b[i]
    &&& k == a.len() || a[k] < b[k]
}

proof fn lemma_text_differs(a: Seq<char>, b: Seq<char>) -> (k: int)
    requires
        crate::order::text_less(a, b),
    ensures
        differ_at(a, b, k),
    decreases a.len(),
{
    if a.len() == 0 || a[0] < b[0] {
        0
    } else {
        let k = lemma_text_differs(a.skip(1), b.skip(1));
        assert forall|i: int| 0 <= i < k + 1 implies #[trigger] a[i] == b[i] by {
            if i > 0 {
                assert(a.skip(1)[i - 1] == b.skip(1)[i - 1]);
            }
        }
        k + 1
    }
}

proof fn lemma_text_ordered(a: Seq<char>, b: Seq<char>, k: int)
    requires
        differ_at(a, b, k),
    ensures
        crate::order::text_less(a, b),
    decreases k,
{
    if k > 0 {
        assert(a[0] == b[0]);
        assert forall|i: int| 0 <= i < k - 1 implies #[trigger] a.skip(1)[i] == b.skip(1)[i] by {
            assert(a[i + 1] == b[i + 1]);
        }
        lemma_text_ordered(a.skip(1), b.skip(1), k - 1);
    }
}

/// Whether a number that may be missing comes before another: none comes before
/// any, a smaller one before a larger one.
pub open spec fn is_earlier(a: Option<u32>, b: Option<u32>) -> bool {
    b is Some && (a is None || a->0 < b->0)
}

/// Names are listed by what they belong to, then by the patch of the base, then by
/// the sub chunk, then by its patch. Chunks come in the order of their numbers,
/// before downloadable content, which comes in the order of its ids.
pub proof fn names_are_ordered_by_their_parts(a: ChunkNameView, b: ChunkNameView)
    ensures
        a.major == b.major && a.patch == b.patch && a.sub == b.sub ==> (crate::order::name_less(
            a,
            b,
        ) <==> is_earlier(a.sub_patch, b.sub_patch)),
        a.major == b.major && a.patch == b.patch && a.sub != b.sub ==> (crate::order::name_less(
            a,
            b,
        ) <==> is_earlier(a.sub, b.sub)),
        a.major == b.major && a.patch != b.patch ==> (crate::order::name_less(a, b) <==> is_earlier(
            a.patch,
            b.patch,
        )),
        a.major is Chunk && b.major is Chunk && a.major != b.major ==> (crate::order::name_less(
            a,
            b,
        ) <==> a.major->Chunk_0 < b.major->Chunk_0),
        a.major is Chunk && b.major is Dlc ==> crate::order::name_less(a, b),
        a.major is Dlc && b.major is Chunk ==> !crate::order::name_less(a, b),
        a.major is Dlc && b.major is Dlc && a.major != b.major ==> (crate::order::name_less(a, b)
            <==> exists|k: int| #[trigger]
            differ_at(a.major->Dlc_0, b.major->Dlc_0, k)),
{
    crate::order::names_are_totally_ordered(a, b);
    if let (MajorView::Dlc(x), MajorView::Dlc(y)) = (a.major, b.major) {
        if crate::order::text_less(x, y) {
            let k = lemma_text_differs(x, y);
        }
        if exists|k: int| #[trigger] differ_at(x, y, k) {
            let k = choose|k: int| #[trigger] differ_at(x, y, k);
            lemma_text_ordered(x, y, k);
        }
        if x == y && crate::order::text_less(x, y) {
            let c = ChunkNameView { major: a.major, patch: None, sub: None, sub_patch: None };
            crate::order::names_are_totally_ordered(c, c);
        }
    }
}

/// The values of names hold what the names hold.
pub proof fn name_values_are_their_parts(name: ChunkName, chunk: u32, id: String)
    ensures
        name@.major == name.major@,
        name@.patch == name.patch,
        name@.sub == name.sub,
        name@.sub_patch == name.sub_patch,
        MajorId::Chunk(chunk)@ == MajorView::Chunk(chunk),
        MajorId::Dlc(id)@ == MajorView::Dlc(id@),
{
}

} // verus!
