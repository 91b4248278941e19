//! Plain text helpers: character vectors, decimal numbers and dotted names.

use vstd::prelude::*;

verus! {

/// The characters of `s`, in order.
pub fn chars_of(s: &str) -> (chars: Vec<char>)
    ensures
        chars@ == s@,
{
    let mut chars: Vec<char> = Vec::new();
    for c in iter: s.chars()
        invariant
            iter.seq() == s@,
            chars@ == s@.take(iter.index() as int),
    {
        chars.push(c);
        proof {
            assert(s@.take(iter.index() + 1) =~= s@.take(iter.index() as int).push(c));
        }
    }
    assert(s@.take(s@.len() as int) =~= s@);
    chars
}

/// Whether `s` begins with `prefix`.
pub fn starts_with(s: &str, prefix: &str) -> (r: bool)
    ensures
        r == prefix@.is_prefix_of(s@),
{
    let a = chars_of(s);
    let b = chars_of(prefix);
    if b.len() > a.len() {
        return false;
    }
    let mut i: usize = 0;
    while i < b.len()
        invariant
            a@ == s@,
            b@ == prefix@,
            i <= b.len() <= a.len(),
            forall|j: int| 0 <= j < i ==> a@[j] == b@[j],
        decreases b.len() - i,
    {
        if a[i] != b[i] {
            assert(s@.subrange(0, prefix@.len() as int)[i as int] == a@[i as int]);
            return false;
        }
        i += 1;
    }
    assert(prefix@ =~= s@.subrange(0, prefix@.len() as int));
    true
}

/// Whether `s` ends with `suffix`.
pub fn ends_with(s: &str, suffix: &str) -> (r: bool)
    ensures
        r == suffix@.is_suffix_of(s@),
{
    let a = chars_of(s);
    let b = chars_of(suffix);
    if b.len() > a.len() {
        return false;
    }
    let start: usize = a.len() - b.len();
    let mut i: usize = 0;
    while i < b.len()
        invariant
            a@ == s@,
            b@ == suffix@,
            start == a.len() - b.len(),
            i <= b.len() <= a.len(),
            forall|j: int| 0 <= j < i ==> a@[start + j] == b@[j],
        decreases b.len() - i,
    {
        if a[start + i] != b[i] {
            assert(s@.subrange(start as int, s@.len() as int)[i as int] == a@[start + i]);
            return false;
        }
        i += 1;
    }
    assert(suffix@ =~= s@.subrange(start as int, s@.len() as int));
    true
}

/// Whether two strings hold the same characters.
pub fn same_text(a: &str, b: &str) -> (r: bool)
    ensures
        r == (a@ == b@),
{
    let x = chars_of(a);
    let y = chars_of(b);
    if x.len() != y.len() {
        return false;
    }
    let mut i: usize = 0;
    while i < x.len()
        invariant
            x@ == a@,
            y@ == b@,
            i <= x.len(),
            x.len() == y.len(),
            forall|j: int| 0 <= j < i ==> x@[j] == y@[j],
        decreases x.len() - i,
    {
        if x[i] != y[i] {
            return false;
        }
        i += 1;
    }
    assert(a@ =~= b@);
    true
}

/// Whether `c` is one of the two quote characters.
pub open spec fn is_quote(c: char) -> bool {
    c == '"' || c == '\''
}

/// `r` is `s` without its leading and trailing quotes: everything cut off is a
/// quote, and what is left neither begins nor ends with one.
pub open spec fn quotes_trimmed(s: Seq<char>, r: Seq<char>) -> bool {
    exists|from: int, to: int| #[trigger] trimmed_between(s, r, from, to)
}

/// `r` is what stands between the positions `from` and `to` of `s`, where only
/// quotes stand outside and no quote stands at either end inside.
pub open spec fn trimmed_between(s: Seq<char>, r: Seq<char>, from: int, to: int) -> bool {
    &&& 0 <= from <= to <= s.len()
    &&& r == s.subrange(from, to)
    &&& forall|i: int| 0 <= i < from ==> is_quote(#[trigger] s[i])
    &&& forall|i: int| to <= i < s.len() ==> is_quote(#[trigger] s[i])
    &&& from < to ==> !is_quote(s[from]) && !is_quote(s[to - 1])
}

/// Removes every leading and trailing `"` and `'`, as typed paths often carry.
pub fn trim_quotes(s: &str) -> (r: String)
    ensures
        quotes_trimmed(s@, r@),
{
    let chars = chars_of(s);
    let mut from: usize = 0;
    while from < chars.len() && (chars[from] == '"' || chars[from] == '\'')
        invariant
            from <= chars.len(),
            forall|i: int| 0 <= i < from ==> is_quote(#[trigger] chars@[i]),
        decreases chars.len() - from,
    {
        from += 1;
    }
    let mut to: usize = chars.len();
    while from < to && (chars[to - 1] == '"' || chars[to - 1] == '\'')
        invariant
            from <= to <= chars.len(),
            from < chars.len() ==> !is_quote(chars@[from as int]),
            forall|i: int| to <= i < chars.len() ==> is_quote(#[trigger] chars@[i]),
        decreases to,
    {
        to -= 1;
    }
    let r = s.substring_char(from, to).to_owned();
    assert(trimmed_between(s@, r@, from as int, to as int));
    r
}

/// Trimming quotes has one result: nothing is left open by `quotes_trimmed`.
pub proof fn quotes_trimmed_is_unique(s: Seq<char>, a: Seq<char>, b: Seq<char>)
    requires
        quotes_trimmed(s, a),
        quotes_trimmed(s, b),
    ensures
        a == b,
{
    let (f, t) = choose|from: int, to: int| #[trigger] trimmed_between(s, a, from, to);
    let (g, u) = choose|from: int, to: int| #[trigger] trimmed_between(s, b, from, to);
    if f < t {
        assert(!is_quote(s[f]) && !is_quote(s[t - 1]));
    }
    if g < u {
        assert(!is_quote(s[g]) && !is_quote(s[u - 1]));
    }
    assert(a =~= b);
}

/// Whether `c` is a decimal digit.
pub open spec fn is_digit(c: char) -> bool {
    '0' <= c <= '9'
}

/// The number that a run of decimal digits stands for.
pub open spec fn decimal_value(s: Seq<char>) -> nat
    decreases s.len(),
{
    if s.len() == 0 {
        0
    } else {
        decimal_value(s.drop_last()) * 10 + (s.last() as nat - '0' as nat) as nat
    }
}

/// The number that `s` spells: one or more digits whose value fits 32 bits.
pub open spec fn number_of(s: Seq<char>) -> Option<u32> {
    if s.len() > 0 && (forall|i: int| 0 <= i < s.len() ==> is_digit(#[trigger] s[i]))
        && decimal_value(s) <= u32::MAX {
        Some(decimal_value(s) as u32)
    } else {
        None
    }
}

/// The digit character of a number below ten.
pub open spec fn digit_char(d: nat) -> char {
    ('0' as nat + d) as char
}

/// The shortest decimal spelling of `n`.
pub open spec fn decimal(n: nat) -> Seq<char>
    decreases n,
{
    if n < 10 {
        seq![digit_char(n)]
    } else {
        decimal(n / 10).push(digit_char(n % 10))
    }
}

/// The decimal spelling of `n`, filled up with zeros to three digits.
pub open spec fn padded(n: nat) -> Seq<char> {
    if n < 10 {
        seq!['0', '0'] + decimal(n)
    } else if n < 100 {
        seq!['0'] + decimal(n)
    } else {
        decimal(n)
    }
}

/// Reads the number that `s` spells.
pub fn parse_number(s: &[char]) -> (r: Option<u32>)
    ensures
        r == number_of(s@),
{
    if s.len() == 0 {
        return None;
    }
    let mut value: u32 = 0;
    let mut fits: bool = true;
    let mut i: usize = 0;
    while i < s.len()
        invariant
            i <= s.len(),
            forall|k: int| 0 <= k < i ==> is_digit(#[trigger] s@[k]),
            fits ==> value == decimal_value(s@.take(i as int)),
            !fits ==> decimal_value(s@.take(i as int)) > u32::MAX,
        decreases s.len() - i,
    {
        let c = s[i];
        if c < '0' || c > '9' {
            assert(!is_digit(s@[i as int]));
            return None;
        }
        let digit: u32 = c as u32 - '0' as u32;
        assert(s@.take(i + 1).drop_last() =~= s@.take(i as int));
        assert(s@.take(i + 1).last() == c);
        if fits {
            if value > 429496729 || value * 10 > u32::MAX - digit {
                fits = false;
            } else {
                value = value * 10 + digit;
            }
        }
        i += 1;
    }
    assert(s@.take(s.len() as int) =~= s@);
    if fits {
        Some(value)
    } else {
        None
    }
}

fn digit_text(d: usize) -> (r: &'static str)
    requires
        d < 10,
    ensures
        r@ == seq![digit_char(d as nat)],
{
    proof {
        reveal_strlit("0");
        reveal_strlit("1");
        reveal_strlit("2");
        reveal_strlit("3");
        reveal_strlit("4");
        reveal_strlit("5");
        reveal_strlit("6");
        reveal_strlit("7");
        reveal_strlit("8");
        reveal_strlit("9");
    }
    let r = match d {
        0 => "0",
        1 => "1",
        2 => "2",
        3 => "3",
        4 => "4",
        5 => "5",
        6 => "6",
        7 => "7",
        8 => "8",
        _ => "9",
    };
    assert(r@ =~= seq![digit_char(d as nat)]);
    r
}

/// Appends the shortest decimal spelling of `n`.
pub fn append_decimal(out: &mut String, n: usize)
    ensures
        final(out)@ == old(out)@ + decimal(n as nat),
    decreases n,
{
    let ghost before = out@;
    if n >= 10 {
        append_decimal(out, n / 10);
    }
    out.append(digit_text(n % 10));
    assert(out@ =~= before + decimal(n as nat));
}

/// Appends the decimal spelling of `n`, filled up with zeros to three digits.
pub fn append_padded(out: &mut String, n: u32)
    ensures
        final(out)@ == old(out)@ + padded(n as nat),
{
    let ghost before = out@;
    proof {
        reveal_strlit("0");
        reveal_strlit("00");
    }
    if n < 10 {
        out.append("00");
    } else if n < 100 {
        out.append("0");
    }
    append_decimal(out, n as usize);
    assert(out@ =~= before + padded(n as nat));
}

/// The shortest spelling of a number reads back as that number.
pub proof fn lemma_decimal_reads_back(n: nat)
    ensures
        decimal(n).len() > 0,
        forall|i: int| 0 <= i < decimal(n).len() ==> is_digit(#[trigger] decimal(n)[i]),
        decimal_value(decimal(n)) == n,
    decreases n,
{
    if n < 10 {
        let d = seq![digit_char(n)];
        assert(d.drop_last() =~= Seq::<char>::empty());
        assert(decimal(n) == d);
        assert(decimal_value(d.drop_last()) == 0);
    } else {
        lemma_decimal_reads_back(n / 10);
        assert(decimal(n).drop_last() =~= decimal(n / 10));
    }
}

proof fn lemma_zero_in_front(s: Seq<char>)
    ensures
        decimal_value(seq!['0'] + s) == decimal_value(s),
    decreases s.len(),
{
    let t = seq!['0'] + s;
    if s.len() == 0 {
        assert(t.drop_last() =~= s);
        assert(decimal_value(t.drop_last()) == 0);
    } else {
        lemma_zero_in_front(s.drop_last());
        assert(t.drop_last() =~= seq!['0'] + s.drop_last());
    }
}

/// A number spelled with leading zeros reads back as that number.
pub proof fn lemma_padded_reads_back(n: u32)
    ensures
        number_of(padded(n as nat)) == Some(n),
{
    let d = decimal(n as nat);
    lemma_decimal_reads_back(n as nat);
    lemma_zero_in_front(d);
    lemma_zero_in_front(seq!['0'] + d);
    assert(seq!['0', '0'] + d =~= seq!['0'] + (seq!['0'] + d));
    let p = padded(n as nat);
    assert forall|i: int| 0 <= i < p.len() implies is_digit(#[trigger] p[i]) by {
        let k = p.len() - d.len();
        if i >= k {
            assert(p[i] == d[i - k]);
        }
    }
}

/// The parts of `s` between its dots; there is always at least one part.
pub open spec fn dot_parts(s: Seq<char>) -> Seq<Seq<char>>
    decreases s.len(),
{
    if s.len() == 0 {
        seq![Seq::<char>::empty()]
    } else {
        let before = dot_parts(s.drop_last());
        if s.last() == '.' {
            before.push(Seq::<char>::empty())
        } else {
            before.drop_last().push(before.last().push(s.last()))
        }
    }
}

/// The contents of several character vectors.
pub open spec fn texts(parts: Seq<Vec<char>>) -> Seq<Seq<char>> {
    parts.map_values(|p: Vec<char>| p@)
}

/// Splits `s` at its dots.
pub fn split_dots(s: &str) -> (parts: Vec<Vec<char>>)
    ensures
        texts(parts@) == dot_parts(s@),
{
    let chars = chars_of(s);
    let mut parts: Vec<Vec<char>> = Vec::new();
    let mut current: Vec<char> = Vec::new();
    let mut i: usize = 0;
    assert(texts(parts@).push(current@) =~= dot_parts(chars@.take(0)));
    while i < chars.len()
        invariant
            i <= chars.len(),
            texts(parts@).push(current@) == dot_parts(chars@.take(i as int)),
        decreases chars.len() - i,
    {
        let ghost old_parts = parts@;
        let ghost old_current = current@;
        let c = chars[i];
        proof {
            assert(chars@.take(i + 1).drop_last() =~= chars@.take(i as int));
            assert(texts(old_parts).push(old_current).drop_last() =~= texts(old_parts));
        }
        if c == '.' {
            parts.push(current);
            current = Vec::new();
            assert(texts(parts@) =~= texts(old_parts).push(old_current));
            assert(texts(parts@).push(current@) =~= dot_parts(chars@.take(i + 1)));
        } else {
            current.push(c);
            assert(texts(parts@).push(current@) =~= dot_parts(chars@.take(i + 1)));
        }
        i += 1;
    }
    assert(chars@.take(chars.len() as int) =~= s@);
    let ghost done = parts@;
    let ghost tail = current@;
    parts.push(current);
    assert(texts(parts@) =~= texts(done).push(tail));
    parts
}

/// A text without dots is its own only part.
pub proof fn lemma_dotless(s: Seq<char>)
    requires
        !s.contains('.'),
    ensures
        dot_parts(s) == seq![s],
    decreases s.len(),
{
    if s.len() > 0 {
        let front = s.drop_last();
        assert forall|i: int| 0 <= i < front.len() implies front[i] != '.' by {
            assert(s[i] != '.') by {
                assert(s.contains(s[i]));
            }
        }
        lemma_dotless(front);
        assert(s.contains(s.last())) by {
            assert(s[s.len() - 1] == s.last());
        }
        assert(front.push(s.last()) =~= s);
        assert(dot_parts(s) =~= seq![s]);
    } else {
        assert(s =~= Seq::<char>::empty());
    }
}

/// Joining two texts with a dot joins their parts.
pub proof fn lemma_parts_of_joined(a: Seq<char>, b: Seq<char>)
    ensures
        dot_parts(a + seq!['.'] + b) == dot_parts(a) + dot_parts(b),
        dot_parts(b).len() > 0,
    decreases b.len(),
{
    let s = a + seq!['.'] + b;
    if b.len() == 0 {
        assert(s.drop_last() =~= a);
        assert(dot_parts(s) =~= dot_parts(a) + dot_parts(b));
    } else {
        lemma_parts_of_joined(a, b.drop_last());
        assert(s.drop_last() =~= a + seq!['.'] + b.drop_last());
        let p = dot_parts(b.drop_last());
        assert((dot_parts(a) + p).drop_last() =~= dot_parts(a) + p.drop_last());
        assert((dot_parts(a) + p).last() == p.last());
        assert(dot_parts(s) =~= dot_parts(a) + dot_parts(b));
    }
}

} // verus!
