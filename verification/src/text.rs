//! Character-level helpers shared by the parsers: Unicode whitespace, decimal
//! rendering of numbers and conversion between strings and character vectors.

use vstd::prelude::*;

verus! {

/// The characters with the Unicode `White_Space` property, which is what
/// `char::is_whitespace` tests.
pub open spec fn spec_is_whitespace(c: char) -> bool {
    ||| ('\u{9}' <= c && c <= '\u{d}')
    ||| c == ' '
    ||| c == '\u{85}'
    ||| c == '\u{a0}'
    ||| c == '\u{1680}'
    ||| ('\u{2000}' <= c && c <= '\u{200a}')
    ||| c == '\u{2028}'
    ||| c == '\u{2029}'
    ||| c == '\u{202f}'
    ||| c == '\u{205f}'
    ||| c == '\u{3000}'
}

/// Whether `c` is Unicode whitespace.
pub fn is_whitespace(c: char) -> (r: bool)
    ensures
        r == spec_is_whitespace(c),
{
    ('\u{9}' <= c && c <= '\u{d}') || c == ' ' || c == '\u{85}' || c == '\u{a0}' || c
        == '\u{1680}' || ('\u{2000}' <= c && c <= '\u{200a}') || c == '\u{2028}' || c
        == '\u{2029}' || c == '\u{202f}' || c == '\u{205f}' || c == '\u{3000}'
}

/// The ASCII digit that stands for `d`.
pub open spec fn digit_char(d: nat) -> char {
    if d == 0 {
        '0'
    } else if d == 1 {
        '1'
    } else if d == 2 {
        '2'
    } else if d == 3 {
        '3'
    } else if d == 4 {
        '4'
    } else if d == 5 {
        '5'
    } else if d == 6 {
        '6'
    } else if d == 7 {
        '7'
    } else if d == 8 {
        '8'
    } else {
        '9'
    }
}

/// The decimal notation of `n`, without leading zeros.
pub open spec fn decimal(n: nat) -> Seq<char>
    decreases n,
{
    if n < 10 {
        seq![digit_char(n)]
    } else {
        decimal(n / 10).push(digit_char(n % 10))
    }
}

fn digit(d: usize) -> (c: char)
    requires
        d < 10,
    ensures
        c == digit_char(d as nat),
{
    if d == 0 {
        '0'
    } else if d == 1 {
        '1'
    } else if d == 2 {
        '2'
    } else if d == 3 {
        '3'
    } else if d == 4 {
        '4'
    } else if d == 5 {
        '5'
    } else if d == 6 {
        '6'
    } else if d == 7 {
        '7'
    } else if d == 8 {
        '8'
    } else {
        '9'
    }
}

/// Appends one character to a string (`String::push`).
#[verifier::external_body]
pub(crate) fn push_char(s: &mut String, c: char)
    ensures
        final(s)@ == old(s)@.push(c),
{
    s.push(c);
}

/// Appends the decimal notation of `n` to `out`.
pub fn push_decimal(out: &mut String, n: usize)
    ensures
        final(out)@ == old(out)@ + decimal(n as nat),
    decreases n,
{
    if n < 10 {
        push_char(out, digit(n));
        assert(old(out)@.push(digit_char(n as nat)) =~= old(out)@ + decimal(n as nat));
    } else {
        push_decimal(out, n / 10);
        push_char(out, digit(n % 10));
        assert(decimal(n as nat) =~= decimal((n / 10) as nat).push(digit_char((n % 10) as nat)));
    }
}

/// The decimal notation of `n` as a string (what `n.to_string()` gives).
pub fn decimal_string(n: usize) -> (s: String)
    ensures
        s@ == decimal(n as nat),
{
    let mut s = String::new();
    push_decimal(&mut s, n);
    assert(s@ =~= decimal(n as nat));
    s
}

/// The characters of `s`, in order.
pub fn chars_of(s: &str) -> (v: Vec<char>)
    ensures
        v@ == s@,
{
    let mut v: Vec<char> = Vec::new();
    for c in it: s.chars()
        invariant
            v@ == it.seq().take(it.index() as int),
            it.seq() == s@,
    {
        v.push(c);
    }
    v
}

/// The string made of the characters `chars[from..to]`.
pub fn string_of(chars: &Vec<char>, from: usize, to: usize) -> (s: String)
    requires
        from <= to <= chars.len(),
    ensures
        s@ == chars@.subrange(from as int, to as int),
{
    let mut s = String::new();
    let mut i = from;
    while i < to
        invariant
            from <= i <= to <= chars.len(),
            s@ == chars@.subrange(from as int, i as int),
        decreases to - i,
    {
        push_char(&mut s, chars[i]);
        i = i + 1;
        assert(s@ =~= chars@.subrange(from as int, i as int));
    }
    s
}

/// Appends the characters of `other` to `out`.
pub fn push_str(out: &mut String, other: &str)
    ensures
        final(out)@ == old(out)@ + other@,
{
    out.append(other);
}

// ---------------------------------------------------------------------------
// Lines and fields.
// ---------------------------------------------------------------------------

/// The first position at or after `p` that holds a line feed, or the end.
pub open spec fn next_newline(s: Seq<char>, p: int) -> int
    decreases s.len() - p,
{
    if 0 <= p < s.len() && s[p] != '\n' {
        next_newline(s, p + 1)
    } else {
        p
    }
}

pub proof fn lemma_next_newline_bounds(s: Seq<char>, p: int)
    requires
        0 <= p <= s.len(),
    ensures
        p <= next_newline(s, p) <= s.len(),
        next_newline(s, p) < s.len() ==> s[next_newline(s, p)] == '\n',
    decreases s.len() - p,
{
    if p < s.len() && s[p] != '\n' {
        lemma_next_newline_bounds(s, p + 1);
    }
}

/// The lines of `s` from position `p` on, split at line feeds.
pub open spec fn lines_from(s: Seq<char>, p: int) -> Seq<Seq<char>>
    decreases s.len() - p + 1,
{
    if 0 <= p <= s.len() {
        let e = next_newline(s, p);
        proof {
            lemma_next_newline_bounds(s, p);
        }
        seq![s.subrange(p, e)] + lines_from(s, e + 1)
    } else {
        Seq::empty()
    }
}

/// The lines of a text, split at line feeds.
///
/// `str::lines` also drops a carriage return before a line feed and yields
/// no empty line after a final line feed; the parsers below cut each line at
/// its first `#` and then only look at the whitespace-separated fields, so a
/// carriage return (which is whitespace) and a trailing empty line make no
/// difference to what they read.
pub open spec fn text_lines(s: Seq<char>) -> Seq<Seq<char>> {
    lines_from(s, 0)
}

/// The part of `line` before its first `#`: the rest is a comment.
pub open spec fn before_hash(line: Seq<char>) -> Seq<char>
    decreases line.len(),
{
    if line.len() == 0 || line[0] == '#' {
        Seq::empty()
    } else {
        seq![line[0]] + before_hash(line.drop_first())
    }
}

/// The length of the run of non-whitespace characters that starts `s`.
pub open spec fn word_len(s: Seq<char>) -> nat
    decreases s.len(),
{
    if s.len() > 0 && !spec_is_whitespace(s[0]) {
        1 + word_len(s.drop_first())
    } else {
        0
    }
}

pub proof fn lemma_word_len_bound(s: Seq<char>)
    ensures
        word_len(s) <= s.len(),
    decreases s.len(),
{
    if s.len() > 0 && !spec_is_whitespace(s[0]) {
        lemma_word_len_bound(s.drop_first());
    }
}

/// The whitespace-separated fields of `s` (what `str::split_whitespace`
/// yields).
pub open spec fn fields(s: Seq<char>) -> Seq<Seq<char>>
    decreases s.len(),
{
    if s.len() == 0 {
        Seq::empty()
    } else if spec_is_whitespace(s[0]) {
        fields(s.drop_first())
    } else {
        let n = word_len(s);
        proof {
            lemma_word_len_bound(s);
        }
        seq![s.take(n as int)] + fields(s.skip(n as int))
    }
}

/// The fields of a line of an OBJ or MTL file: those before its first `#`.
pub open spec fn line_fields(line: Seq<char>) -> Seq<Seq<char>> {
    fields(before_hash(line))
}

proof fn lemma_word_len_push(s: Seq<char>, c: char)
    requires
        spec_is_whitespace(c),
    ensures
        word_len(s.push(c)) == word_len(s),
    decreases s.len(),
{
    if s.len() > 0 {
        assert(s.push(c).drop_first() =~= s.drop_first().push(c));
        lemma_word_len_push(s.drop_first(), c);
    }
}

proof fn lemma_fields_push(s: Seq<char>, c: char)
    requires
        spec_is_whitespace(c),
    ensures
        fields(s.push(c)) == fields(s),
    decreases s.len(),
{
    let t = s.push(c);
    if s.len() == 0 {
        assert(t[0] == c);
        assert(t.drop_first() =~= Seq::<char>::empty());
        assert(fields(t) == fields(t.drop_first()));
    } else if spec_is_whitespace(s[0]) {
        assert(t[0] == s[0]);
        assert(t.drop_first() =~= s.drop_first().push(c));
        lemma_fields_push(s.drop_first(), c);
        assert(fields(t) == fields(t.drop_first()));
    } else {
        lemma_word_len_push(s, c);
        lemma_word_len_bound(s);
        let n = word_len(s);
        assert(t[0] == s[0]);
        assert(n >= 1);
        assert(t.take(n as int) =~= s.take(n as int));
        assert(t.skip(n as int) =~= s.skip(n as int).push(c));
        lemma_fields_push(s.skip(n as int), c);
        assert(fields(t) == seq![t.take(n as int)] + fields(t.skip(n as int)));
    }
}

proof fn lemma_before_hash_push(line: Seq<char>, c: char)
    requires
        c != '#',
    ensures
        before_hash(line.push(c)) == before_hash(line) || before_hash(line.push(c)) == before_hash(
            line,
        ).push(c),
    decreases line.len(),
{
    if line.len() == 0 {
        assert(line.push(c)[0] == c);
        assert(line.push(c).drop_first() =~= Seq::<char>::empty());
        assert(seq![c] + Seq::<char>::empty() =~= seq![c]);
        assert(before_hash(line.push(c)) == seq![c] + before_hash(Seq::<char>::empty()));
        assert(before_hash(line) == Seq::<char>::empty());
        assert(before_hash(line).push(c) =~= seq![c]);
    } else if line[0] != '#' {
        assert(line.push(c)[0] == line[0]);
        assert(line.push(c).drop_first() =~= line.drop_first().push(c));
        lemma_before_hash_push(line.drop_first(), c);
        assert(before_hash(line.push(c)) == seq![line[0]] + before_hash(
            line.drop_first().push(c),
        ));
        assert(before_hash(line) == seq![line[0]] + before_hash(line.drop_first()));
        assert(seq![line[0]] + before_hash(line.drop_first()).push(c) =~= (seq![line[0]]
            + before_hash(line.drop_first())).push(c));
    } else {
        assert(line.push(c)[0] == line[0]);
    }
}

/// Whitespace at the end of a line adds no field: a line of an OBJ or MTL
/// file has the same fields with a carriage return (as a Windows line ending
/// leaves it), a space, a tab, a vertical tab, a form feed or a line feed
/// after it. Unicode whitespace, as `char::is_whitespace` takes it, separates
/// fields.
pub proof fn trailing_whitespace_adds_no_field(line: Seq<char>, c: char)
    requires
        c == '\r' || c == ' ' || c == '\t' || c == '\u{b}' || c == '\u{c}' || c == '\n'
            || c == '\u{85}' || c == '\u{a0}' || c == '\u{3000}',
    ensures
        line_fields(line.push(c)) == line_fields(line),
{
    lemma_before_hash_push(line, c);
    lemma_fields_push(before_hash(line), c);
}

/// The character sequences of a list of strings.
pub open spec fn views(v: Seq<String>) -> Seq<Seq<char>> {
    v.map_values(|t: String| t@)
}

/// The fields `f`, separated by single spaces.
pub open spec fn joined(f: Seq<Seq<char>>) -> Seq<char>
    decreases f.len(),
{
    if f.len() == 0 {
        Seq::empty()
    } else if f.len() == 1 {
        f[0]
    } else {
        joined(f.drop_last()) + seq![' '] + f.last()
    }
}

/// Where the line that starts at `p` ends.
pub fn line_end(chars: &Vec<char>, p: usize) -> (e: usize)
    requires
        p <= chars.len(),
    ensures
        e == next_newline(chars@, p as int),
        p <= e <= chars.len(),
{
    let mut e = p;
    while e < chars.len() && chars[e] != '\n'
        invariant
            p <= e <= chars.len(),
            next_newline(chars@, p as int) == next_newline(chars@, e as int),
        decreases chars.len() - e,
    {
        e = e + 1;
    }
    e
}

proof fn lemma_before_hash_prefix(s: Seq<char>, k: int)
    requires
        0 <= k <= s.len(),
        forall|i: int| 0 <= i < k ==> s[i] != '#',
        k == s.len() || s[k] == '#',
    ensures
        before_hash(s) == s.take(k),
    decreases s.len(),
{
    if s.len() == 0 || s[0] == '#' {
        assert(s.take(k) =~= Seq::<char>::empty());
    } else {
        lemma_before_hash_prefix(s.drop_first(), k - 1);
        assert(seq![s[0]] + s.drop_first().take(k - 1) =~= s.take(k));
    }
}

/// The whitespace-separated fields of `chars[from..to]`.
pub fn split_fields(chars: &Vec<char>, from: usize, to: usize) -> (r: Vec<String>)
    requires
        from <= to <= chars.len(),
    ensures
        views(r@) == fields(chars@.subrange(from as int, to as int)),
{
    let ghost s = chars@;
    let mut r: Vec<String> = Vec::new();
    let mut i = from;
    while i < to
        invariant
            from <= i <= to <= s.len(),
            s == chars@,
            fields(s.subrange(from as int, to as int)) == views(r@) + fields(
                s.subrange(i as int, to as int),
            ),
        decreases to - i,
    {
        let ghost rest = s.subrange(i as int, to as int);
        if is_whitespace(chars[i]) {
            assert(rest.drop_first() =~= s.subrange(i + 1, to as int));
            i = i + 1;
        } else {
            let mut j = i;
            while j < to && !is_whitespace(chars[j])
                invariant
                    i <= j <= to <= s.len(),
                    s == chars@,
                    rest == s.subrange(i as int, to as int),
                    word_len(rest) == (j - i) + word_len(s.subrange(j as int, to as int)),
                decreases to - j,
            {
                assert(s.subrange(j as int, to as int).drop_first() =~= s.subrange(
                    j + 1,
                    to as int,
                ));
                j = j + 1;
            }
            let word = string_of(chars, i, j);
            let ghost before = r@;
            r.push(word);
            assert(rest.take((j - i) as int) =~= s.subrange(i as int, j as int));
            assert(rest.skip((j - i) as int) =~= s.subrange(j as int, to as int));
            assert(views(r@) =~= views(before) + seq![word@]);
            assert(views(before) + fields(rest) =~= views(r@) + fields(
                s.subrange(j as int, to as int),
            ));
            i = j;
        }
    }
    assert(s.subrange(i as int, to as int) =~= Seq::<char>::empty());
    assert(views(r@) + Seq::<Seq<char>>::empty() =~= views(r@));
    r
}

/// The fields of the line `chars[start..end]`, up to its first `#`.
pub fn fields_of_line(chars: &Vec<char>, start: usize, end: usize) -> (r: Vec<String>)
    requires
        start <= end <= chars.len(),
    ensures
        views(r@) == line_fields(chars@.subrange(start as int, end as int)),
{
    let mut stop = start;
    while stop < end && chars[stop] != '#'
        invariant
            start <= stop <= end <= chars.len(),
            forall|i: int| start <= i < stop ==> chars@[i] != '#',
        decreases end - stop,
    {
        stop = stop + 1;
    }
    proof {
        let line = chars@.subrange(start as int, end as int);
        lemma_before_hash_prefix(line, stop - start);
        assert(line.take(stop - start) =~= chars@.subrange(start as int, stop as int));
    }
    split_fields(chars, start, stop)
}

/// The strings `parts[from..]`, separated by single spaces.
pub fn join_from(parts: &Vec<String>, from: usize) -> (r: String)
    requires
        from <= parts.len(),
    ensures
        r@ == joined(views(parts@).skip(from as int)),
{
    let mut r = String::new();
    let mut i = from;
    while i < parts.len()
        invariant
            from <= i <= parts.len(),
            r@ == joined(views(parts@).subrange(from as int, i as int)),
        decreases parts.len() - i,
    {
        let ghost done = views(parts@).subrange(from as int, i as int);
        let ghost next = views(parts@).subrange(from as int, i + 1);
        assert(next.drop_last() =~= done);
        if i > from {
            push_char(&mut r, ' ');
        }
        push_str(&mut r, parts[i].as_str());
        proof {
            if i > from {
                assert(r@ =~= joined(done) + seq![' '] + parts@[i as int]@);
            } else {
                assert(r@ =~= parts@[i as int]@);
            }
        }
        i = i + 1;
    }
    assert(views(parts@).subrange(from as int, i as int) =~= views(parts@).skip(from as int));
    r
}

} // verus!
