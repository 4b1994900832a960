//! Character-level text handling: whitespace, trimming, lines, fields and
//! prefixes, stated over sequences of characters.

use vstd::prelude::*;

verus! {

/// What is taken on trust of `String::push` of the standard library: it
/// appends the character to the end of the string and leaves the characters
/// before it as they were.
pub assume_specification[ String::push ](s: &mut String, ch: char)
    ensures
        final(s)@ == old(s)@.push(ch),
;

/// The characters with the Unicode property `White_Space`.
pub open spec fn is_whitespace(c: char) -> bool {
    let u = c as u32;
    ||| 0x09 <= u <= 0x0D
    ||| u == 0x20
    ||| u == 0x85
    ||| u == 0xA0
    ||| u == 0x1680
    ||| 0x2000 <= u <= 0x200A
    ||| u == 0x2028
    ||| u == 0x2029
    ||| u == 0x202F
    ||| u == 0x205F
    ||| u == 0x3000
}

/// Number of whitespace characters that `s` starts with.
pub open spec fn leading_whitespace(s: Seq<char>) -> nat
    decreases s.len(),
{
    if s.len() > 0 && is_whitespace(s.first()) {
        1 + leading_whitespace(s.drop_first())
    } else {
        0
    }
}

/// Number of whitespace characters that `s` ends with.
pub open spec fn trailing_whitespace(s: Seq<char>) -> nat
    decreases s.len(),
{
    if s.len() > 0 && is_whitespace(s.last()) {
        1 + trailing_whitespace(s.drop_last())
    } else {
        0
    }
}

/// `s` without the whitespace at its start.
pub open spec fn trimmed_start(s: Seq<char>) -> Seq<char> {
    s.skip(leading_whitespace(s) as int)
}

/// `s` without the whitespace at its start and at its end.
pub open spec fn trimmed(s: Seq<char>) -> Seq<char> {
    let rest = trimmed_start(s);
    rest.take(rest.len() - trailing_whitespace(rest))
}

/// Length of the longest prefix of `s` that holds no whitespace.
pub open spec fn token_len(s: Seq<char>) -> nat
    decreases s.len(),
{
    if s.len() > 0 && !is_whitespace(s.first()) {
        1 + token_len(s.drop_first())
    } else {
        0
    }
}

/// The first whitespace-separated field of `s`; empty if there is none.
pub open spec fn first_field(s: Seq<char>) -> Seq<char> {
    let rest = trimmed_start(s);
    rest.take(token_len(rest) as int)
}

/// What follows the first whitespace-separated field of `s`.
pub open spec fn after_first_field(s: Seq<char>) -> Seq<char> {
    let rest = trimmed_start(s);
    rest.skip(token_len(rest) as int)
}

/// The second whitespace-separated field of `s`; empty if there are fewer
/// than two fields.
pub open spec fn second_field(s: Seq<char>) -> Seq<char> {
    first_field(after_first_field(s))
}

/// Position of the first line feed in `s`, or the length of `s` if it holds
/// none.
pub open spec fn line_end(s: Seq<char>) -> nat
    decreases s.len(),
{
    if s.len() > 0 && s.first() != '\n' {
        1 + line_end(s.drop_first())
    } else {
        0
    }
}

/// `line` without one carriage return at its end.
pub open spec fn without_carriage_return(line: Seq<char>) -> Seq<char> {
    if line.len() > 0 && line.last() == '\r' {
        line.drop_last()
    } else {
        line
    }
}

/// The lines of `s`. A line ends at a line feed, which is not part of it, and
/// a carriage return just before that line feed is dropped too. What follows
/// the last line feed is a line of its own unless it is empty.
pub open spec fn lines(s: Seq<char>) -> Seq<Seq<char>>
    decreases s.len(),
{
    if s.len() == 0 {
        Seq::empty()
    } else if line_end(s) >= s.len() {
        seq![s]
    } else {
        seq![without_carriage_return(s.take(line_end(s) as int))] + lines(
            s.skip(line_end(s) as int + 1),
        )
    }
}

/// Whether `s` begins with `prefix`.
pub open spec fn has_prefix(s: Seq<char>, prefix: Seq<char>) -> bool {
    prefix.len() <= s.len() && s.take(prefix.len() as int) == prefix
}

/// `s` after `prefix` has been taken from its start as often as it stands
/// there.
pub open spec fn without_prefixes(s: Seq<char>, prefix: Seq<char>) -> Seq<char>
    decreases s.len(),
{
    if prefix.len() > 0 && has_prefix(s, prefix) {
        without_prefixes(s.skip(prefix.len() as int), prefix)
    } else {
        s
    }
}

/// `cell` followed by as many spaces as it lacks to `width` characters.
pub open spec fn padded(cell: Seq<char>, width: nat) -> Seq<char> {
    if cell.len() >= width {
        cell
    } else {
        cell + Seq::new((width - cell.len()) as nat, |i: int| ' ')
    }
}

/// The strings of `parts` in a row, with `separator` between each two.
pub open spec fn joined(parts: Seq<Seq<char>>, separator: Seq<char>) -> Seq<char>
    decreases parts.len(),
{
    if parts.len() == 0 {
        Seq::empty()
    } else if parts.len() == 1 {
        parts[0]
    } else {
        joined(parts.drop_last(), separator) + separator + parts.last()
    }
}

/// The whitespace at the start of `s` ends within `s`, and before a
/// character that is no whitespace.
proof fn lemma_leading_whitespace_stops(s: Seq<char>)
    ensures
        leading_whitespace(s) <= s.len(),
        leading_whitespace(s) < s.len() ==> !is_whitespace(s[leading_whitespace(s) as int]),
    decreases s.len(),
{
    if s.len() > 0 && is_whitespace(s.first()) {
        lemma_leading_whitespace_stops(s.drop_first());
    }
}

/// The whitespace at the end of `s` begins within `s`, and after a
/// character that is no whitespace.
proof fn lemma_trailing_whitespace_stops(s: Seq<char>)
    ensures
        trailing_whitespace(s) <= s.len(),
        trailing_whitespace(s) < s.len() ==> !is_whitespace(
            s[s.len() - trailing_whitespace(s) - 1],
        ),
    decreases s.len(),
{
    if s.len() > 0 && is_whitespace(s.last()) {
        lemma_trailing_whitespace_stops(s.drop_last());
    }
}

/// Trimmed text is a part of the text it was trimmed from, and neither
/// starts nor ends with whitespace.
pub proof fn lemma_trimmed_ends(s: Seq<char>)
    ensures
        trimmed(s).len() <= s.len(),
        trimmed(s) == s.subrange(
            leading_whitespace(s) as int,
            (leading_whitespace(s) + trimmed(s).len()) as int,
        ),
        trimmed(s).len() > 0 ==> !is_whitespace(trimmed(s).first()) && !is_whitespace(
            trimmed(s).last(),
        ),
{
    lemma_leading_whitespace_stops(s);
    lemma_trailing_whitespace_stops(trimmed_start(s));
}

/// Whether `c` is a whitespace character.
pub fn char_is_whitespace(c: char) -> (b: bool)
    ensures
        b == is_whitespace(c),
{
    let u: u32 = c as u32;
    (0x09 <= u && u <= 0x0D) || u == 0x20 || u == 0x85 || u == 0xA0 || u == 0x1680 || (0x2000 <= u
        && u <= 0x200A) || u == 0x2028 || u == 0x2029 || u == 0x202F || u == 0x205F || u == 0x3000
}

/// The characters of a string slice, in order.
pub fn to_chars(s: &str) -> (v: Vec<char>)
    ensures
        v@ == s@,
{
    broadcast use vstd::string::group_string_axioms;

    let mut v: Vec<char> = Vec::new();
    for c in it: s.chars()
        invariant
            it.seq() == s@,
            v@ == it.seq().take(it.index()),
    {
        v.push(c);
    }
    v
}

/// The string made of the characters `v[from..to]`.
pub(crate) fn to_text(v: &Vec<char>, from: usize, to: usize) -> (s: String)
    requires
        from <= to <= v.len(),
    ensures
        s@ == v@.subrange(from as int, to as int),
{
    let mut s = String::new();
    let mut i: usize = from;
    while i < to
        invariant
            from <= i <= to <= v.len(),
            s@ == v@.subrange(from as int, i as int),
        decreases to - i,
    {
        s.push(v[i]);
        i += 1;
        assert(v@.subrange(from as int, i as int) == v@.subrange(from as int, i - 1).push(
            v@[i - 1],
        ));
    }
    s
}

/// Index of the first character at or after `from` that is no whitespace, or
/// `to` if only whitespace is left before it.
pub(crate) fn skip_whitespace(v: &Vec<char>, from: usize, to: usize) -> (at: usize)
    requires
        from <= to <= v.len(),
    ensures
        at == from + leading_whitespace(v@.subrange(from as int, to as int)),
        from <= at <= to,
{
    let mut i: usize = from;
    while i < to && char_is_whitespace(v[i])
        invariant
            from <= i <= to <= v.len(),
            from + leading_whitespace(v@.subrange(from as int, to as int)) == i
                + leading_whitespace(v@.subrange(i as int, to as int)),
        decreases to - i,
    {
        assert(v@.subrange(i as int, to as int).drop_first() == v@.subrange(i + 1, to as int));
        i += 1;
    }
    i
}

/// Index one past the last character before `to`, and not before `from`,
/// that is no whitespace; `from` if there is none.
pub(crate) fn skip_whitespace_back(v: &Vec<char>, from: usize, to: usize) -> (at: usize)
    requires
        from <= to <= v.len(),
    ensures
        at == to - trailing_whitespace(v@.subrange(from as int, to as int)),
        from <= at <= to,
{
    let mut i: usize = to;
    while i > from && char_is_whitespace(v[i - 1])
        invariant
            from <= i <= to <= v.len(),
            to - trailing_whitespace(v@.subrange(from as int, to as int)) == i
                - trailing_whitespace(v@.subrange(from as int, i as int)),
        decreases i - from,
    {
        assert(v@.subrange(from as int, i as int).drop_last() == v@.subrange(from as int, i - 1));
        i -= 1;
    }
    i
}

/// Index of the first whitespace character at or after `from`, or `to` if
/// none is left before it.
pub(crate) fn skip_token(v: &Vec<char>, from: usize, to: usize) -> (at: usize)
    requires
        from <= to <= v.len(),
    ensures
        at == from + token_len(v@.subrange(from as int, to as int)),
        from <= at <= to,
{
    let mut i: usize = from;
    while i < to && !char_is_whitespace(v[i])
        invariant
            from <= i <= to <= v.len(),
            from + token_len(v@.subrange(from as int, to as int)) == i + token_len(
                v@.subrange(i as int, to as int),
            ),
        decreases to - i,
    {
        assert(v@.subrange(i as int, to as int).drop_first() == v@.subrange(i + 1, to as int));
        i += 1;
    }
    i
}

/// Index of the first line feed at or after `from`, or the length of `v` if
/// none is left.
pub(crate) fn find_line_end(v: &Vec<char>, from: usize) -> (at: usize)
    requires
        from <= v.len(),
    ensures
        at == from + line_end(v@.skip(from as int)),
        from <= at <= v.len(),
{
    let mut i: usize = from;
    while i < v.len() && v[i] != '\n'
        invariant
            from <= i <= v.len(),
            from + line_end(v@.skip(from as int)) == i + line_end(v@.skip(i as int)),
        decreases v.len() - i,
    {
        assert(v@.skip(i as int).drop_first() == v@.skip(i + 1));
        i += 1;
    }
    i
}

/// Whether the characters `v[from..to]` are those of `other`.
pub(crate) fn range_equals(v: &Vec<char>, from: usize, to: usize, other: &Vec<char>) -> (b: bool)
    requires
        from <= to <= v.len(),
    ensures
        b == (v@.subrange(from as int, to as int) == other@),
{
    if to - from != other.len() {
        return false;
    }
    let mut i: usize = 0;
    while i < other.len()
        invariant
            from <= to <= v.len(),
            to - from == other.len(),
            i <= other.len(),
            v@.subrange(from as int, from + i) == other@.take(i as int),
        decreases other.len() - i,
    {
        if v[from + i] != other[i] {
            assert(v@.subrange(from as int, to as int)[i as int] != other@[i as int]);
            return false;
        }
        i += 1;
        assert(v@.subrange(from as int, from + i) == v@.subrange(from as int, from + i - 1).push(
            v@[from + i - 1],
        ));
        assert(other@.take(i as int) == other@.take(i - 1).push(other@[i - 1]));
    }
    assert(other@.take(i as int) == other@);
    true
}

/// Whether the characters `v[from..to]` begin with those of `prefix`.
pub(crate) fn range_has_prefix(
    v: &Vec<char>,
    from: usize,
    to: usize,
    prefix: &Vec<char>,
) -> (b: bool)
    requires
        from <= to <= v.len(),
    ensures
        b == has_prefix(v@.subrange(from as int, to as int), prefix@),
{
    if to - from < prefix.len() {
        return false;
    }
    let b = range_equals(v, from, from + prefix.len(), prefix);
    assert(v@.subrange(from as int, to as int).take(prefix@.len() as int) == v@.subrange(
        from as int,
        from + prefix.len(),
    ));
    b
}

/// The line that starts at `from`: it is `v[from..line_to]`, and the lines
/// after it start at `next`.
pub(crate) fn next_line(v: &Vec<char>, from: usize) -> (r: (usize, usize))
    requires
        from < v.len(),
    ensures
        from <= r.0 <= r.1 <= v.len(),
        from < r.1,
        lines(v@.skip(from as int)) == seq![v@.subrange(from as int, r.0 as int)] + lines(
            v@.skip(r.1 as int),
        ),
{
    let ghost s = v@.skip(from as int);
    let end = find_line_end(v, from);
    assert(s.take(end - from) == v@.subrange(from as int, end as int));
    if end == v.len() {
        assert(v@.subrange(from as int, end as int) == s);
        assert(lines(v@.skip(end as int)) == Seq::<Seq<char>>::empty());
        assert(seq![s] + Seq::<Seq<char>>::empty() == seq![s]);
        (end, end)
    } else {
        assert(s.skip(end - from + 1) == v@.skip(end + 1));
        let line_to: usize = if end > from && v[end - 1] == '\r' {
            end - 1
        } else {
            end
        };
        assert(without_carriage_return(v@.subrange(from as int, end as int)) == v@.subrange(
            from as int,
            line_to as int,
        ));
        (line_to, end + 1)
    }
}

/// Where the trimmed text stands in `v`: it is `v[r.0..r.1]`.
pub(crate) fn trim_range(v: &Vec<char>) -> (r: (usize, usize))
    ensures
        r.0 <= r.1 <= v.len(),
        v@.subrange(r.0 as int, r.1 as int) == trimmed(v@),
{
    let from = skip_whitespace(v, 0, v.len());
    let to = skip_whitespace_back(v, from, v.len());
    assert(v@.subrange(0, v.len() as int) == v@);
    assert(v@.subrange(from as int, v.len() as int) == trimmed_start(v@));
    assert(v@.subrange(from as int, to as int) == trimmed(v@));
    (from, to)
}

/// The string without the whitespace at its start and at its end.
pub fn trim(s: &str) -> (r: String)
    ensures
        r@ == trimmed(s@),
{
    let v = to_chars(s);
    let (from, to) = trim_range(&v);
    to_text(&v, from, to)
}

} // verus!
