//! Character-level text handling: conversion between strings and character
//! vectors, whitespace trimming, splitting on a separator and splitting into
//! lines.
use vstd::prelude::*;
use vstd::slice::{slice_subrange, slice_to_vec};

verus! {

/// The views of a sequence of character vectors.
pub open spec fn views(v: Seq<Vec<char>>) -> Seq<Seq<char>> {
    v.map_values(|l: Vec<char>| l@)
}

/// The views of a sequence of strings.
pub open spec fn string_views(v: Seq<String>) -> Seq<Seq<char>> {
    v.map_values(|l: String| l@)
}

/// `String::push` appends one character to the end of the string.
#[verifier::external_body]
fn push_char(s: &mut String, c: char)
    ensures
        final(s)@ == old(s)@.push(c),
{
    s.push(c)
}

/// The characters of a string, in order.
pub fn to_chars(s: &str) -> (r: Vec<char>)
    ensures
        r@ == s@,
{
    let mut out: Vec<char> = Vec::new();
    for c in it: s.chars()
        invariant
            out@ == it.seq().take(it.index() as int),
            it.seq() == s@,
    {
        out.push(c);
    }
    out
}

/// The string made of the given characters, in order.
pub fn from_chars(v: &[char]) -> (r: String)
    ensures
        r@ == v@,
{
    let mut out = String::new();
    let mut i: usize = 0;
    while i < v.len()
        invariant
            i <= v.len(),
            out@ == v@.take(i as int),
        decreases v.len() - i,
    {
        push_char(&mut out, v[i]);
        i += 1;
    }
    out
}

/// A copy of the characters `s[from..to]`.
pub fn copy_range(s: &[char], from: usize, to: usize) -> (r: Vec<char>)
    requires
        from <= to <= s@.len(),
    ensures
        r@ == s@.subrange(from as int, to as int),
{
    slice_to_vec(slice_subrange(s, from, to))
}

/// Whether `c` has the Unicode property `White_Space`.
pub open spec fn is_space(c: char) -> bool {
    let u = c as u32;
    ||| 0x09 <= u <= 0x0D
    ||| u == 0x20
    ||| u == 0x85
    ||| u == 0xA0
    ||| u == 0x1680
    ||| 0x2000 <= u <= 0x200A
    ||| u == 0x2028
    ||| u == 0x2029
    ||| u == 0x202F
    ||| u == 0x205F
    ||| u == 0x3000
}

/// Whether `c` is a whitespace character.
pub fn is_whitespace(c: char) -> (b: bool)
    ensures
        b == is_space(c),
{
    let u: u32 = c as u32;
    (0x09 <= u && u <= 0x0D) || u == 0x20 || u == 0x85 || u == 0xA0 || u == 0x1680 || (0x2000 <= u
        && u <= 0x200A) || u == 0x2028 || u == 0x2029 || u == 0x202F || u == 0x205F || u == 0x3000
}

/// `s` without its leading whitespace.
pub open spec fn trim_start(s: Seq<char>) -> Seq<char>
    decreases s.len(),
{
    if s.len() > 0 && is_space(s[0]) {
        trim_start(s.drop_first())
    } else {
        s
    }
}

/// `s` without its trailing whitespace.
pub open spec fn trim_end(s: Seq<char>) -> Seq<char>
    decreases s.len(),
{
    if s.len() > 0 && is_space(s.last()) {
        trim_end(s.drop_last())
    } else {
        s
    }
}

/// `s` without its leading and trailing whitespace.
pub open spec fn trim(s: Seq<char>) -> Seq<char> {
    trim_end(trim_start(s))
}

/// A copy of `s` without its leading and trailing whitespace.
pub fn trimmed(s: &[char]) -> (r: Vec<char>)
    ensures
        r@ == trim(s@),
{
    let mut from: usize = 0;
    assert(s@.subrange(0, s.len() as int) =~= s@);
    while from < s.len() && is_whitespace(s[from])
        invariant
            from <= s.len(),
            trim_start(s@) == trim_start(s@.subrange(from as int, s.len() as int)),
        decreases s.len() - from,
    {
        assert(s@.subrange(from as int, s.len() as int).drop_first() =~= s@.subrange(
            from + 1,
            s.len() as int,
        ));
        from += 1;
    }
    assert(trim_start(s@) == s@.subrange(from as int, s.len() as int));
    let mut to: usize = s.len();
    while from < to && is_whitespace(s[to - 1])
        invariant
            from <= to <= s.len(),
            trim(s@) == trim_end(s@.subrange(from as int, to as int)),
        decreases to,
    {
        assert(s@.subrange(from as int, to as int).drop_last() =~= s@.subrange(
            from as int,
            to - 1,
        ));
        to -= 1;
    }
    copy_range(s, from, to)
}

/// The position of the first `sep` in `s`, or the length of `s` if there is
/// none.
pub open spec fn first_index(s: Seq<char>, sep: char) -> int
    decreases s.len(),
{
    if s.len() == 0 || s[0] == sep {
        0
    } else {
        1 + first_index(s.drop_first(), sep)
    }
}

/// `first_index` is the one position before which no `sep` occurs and which
/// holds a `sep` or is the end of `s`.
pub proof fn lemma_first_index(s: Seq<char>, sep: char, k: int)
    requires
        0 <= k <= s.len(),
        forall|i: int| 0 <= i < k ==> s[i] != sep,
        k < s.len() ==> s[k] == sep,
    ensures
        first_index(s, sep) == k,
    decreases s.len(),
{
    if k > 0 {
        lemma_first_index(s.drop_first(), sep, k - 1);
    }
}

/// The bounds of `first_index`.
pub proof fn lemma_first_index_bounds(s: Seq<char>, sep: char)
    ensures
        0 <= first_index(s, sep) <= s.len(),
        forall|i: int| 0 <= i < first_index(s, sep) ==> s[i] != sep,
        first_index(s, sep) < s.len() ==> s[first_index(s, sep)] == sep,
    decreases s.len(),
{
    if s.len() == 0 || s[0] == sep {
    } else {
        lemma_first_index_bounds(s.drop_first(), sep);
        assert forall|i: int| 0 <= i < first_index(s, sep) implies s[i] != sep by {
            if i > 0 {
                assert(s.drop_first()[i - 1] == s[i]);
            }
        }
    }
}

/// The position of the first `sep` at or after `from`, or the length of `s`.
pub fn find_from(s: &[char], from: usize, sep: char) -> (k: usize)
    requires
        from <= s@.len(),
    ensures
        from <= k <= s@.len(),
        k - from == first_index(s@.subrange(from as int, s@.len() as int), sep),
{
    let mut k: usize = from;
    while k < s.len() && s[k] != sep
        invariant
            from <= k <= s.len(),
            forall|i: int| from <= i < k ==> s@[i] != sep,
        decreases s.len() - k,
    {
        k += 1;
    }
    proof {
        lemma_first_index(s@.subrange(from as int, s@.len() as int), sep, k - from);
    }
    k
}

/// The pieces of `s` between occurrences of `sep`. There is always at least
/// one piece; two separators in a row enclose an empty piece.
pub open spec fn split_on(s: Seq<char>, sep: char) -> Seq<Seq<char>>
    decreases s.len(),
{
    let k = first_index(s, sep);
    if 0 <= k < s.len() {
        seq![s.subrange(0, k)] + split_on(s.subrange(k + 1, s.len() as int), sep)
    } else {
        seq![s]
    }
}

/// The pieces of `s` between occurrences of `sep`.
pub fn split(s: &[char], sep: char) -> (r: Vec<Vec<char>>)
    ensures
        views(r@) == split_on(s@, sep),
{
    let mut out: Vec<Vec<char>> = Vec::new();
    let mut from: usize = 0;
    proof {
        assert(s@.subrange(0, s.len() as int) =~= s@);
        assert(views(out@) + split_on(s@, sep) =~= split_on(s@, sep));
    }
    loop
        invariant
            from <= s.len(),
            split_on(s@, sep) == views(out@) + split_on(
                s@.subrange(from as int, s.len() as int),
                sep,
            ),
        decreases s.len() - from,
    {
        let ghost rest = s@.subrange(from as int, s.len() as int);
        let k = find_from(s, from, sep);
        let piece = copy_range(s, from, k);
        proof {
            assert(piece@ =~= rest.subrange(0, k - from));
            assert(views(out@.push(piece)) =~= views(out@) + seq![piece@]);
        }
        out.push(piece);
        if k == s.len() {
            proof {
                assert(rest.subrange(0, k - from) =~= rest);
            }
            return out;
        }
        proof {
            assert(rest.subrange(k - from + 1, rest.len() as int) =~= s@.subrange(
                k + 1,
                s.len() as int,
            ));
        }
        from = k + 1;
    }
}

/// `s` without one trailing carriage return.
pub open spec fn strip_cr(s: Seq<char>) -> Seq<char> {
    if s.len() > 0 && s.last() == '\r' {
        s.drop_last()
    } else {
        s
    }
}

/// The lines of a text. A line ends at a line feed or at the end of the
/// text; one carriage return directly before that end is not part of the
/// line. A text that ends with a line feed has no empty line after it.
pub open spec fn lines_of(s: Seq<char>) -> Seq<Seq<char>>
    decreases s.len(),
{
    let k = first_index(s, '\n');
    if s.len() == 0 {
        Seq::empty()
    } else if 0 <= k < s.len() {
        seq![strip_cr(s.subrange(0, k))] + lines_of(s.subrange(k + 1, s.len() as int))
    } else {
        seq![strip_cr(s)]
    }
}

/// The lines of a text.
pub fn split_lines(s: &[char]) -> (r: Vec<Vec<char>>)
    ensures
        views(r@) == lines_of(s@),
{
    let mut out: Vec<Vec<char>> = Vec::new();
    let mut from: usize = 0;
    proof {
        assert(s@.subrange(0, s.len() as int) =~= s@);
        assert(views(out@) + lines_of(s@) =~= lines_of(s@));
    }
    while from < s.len()
        invariant
            from <= s.len(),
            lines_of(s@) == views(out@) + lines_of(s@.subrange(from as int, s.len() as int)),
        decreases s.len() - from,
    {
        let ghost rest = s@.subrange(from as int, s.len() as int);
        let k = find_from(s, from, '\n');
        let end = if k > from && s[k - 1] == '\r' {
            k - 1
        } else {
            k
        };
        let piece = copy_range(s, from, end);
        proof {
            assert(views(out@.push(piece)) =~= views(out@) + seq![piece@]);
            assert(rest.subrange(0, k - from) =~= s@.subrange(from as int, k as int));
            assert(piece@ =~= strip_cr(rest.subrange(0, k - from)));
            if k < s.len() {
                assert(rest.subrange(k - from + 1, rest.len() as int) =~= s@.subrange(
                    k + 1,
                    s.len() as int,
                ));
            } else {
                assert(rest.subrange(0, k - from) =~= rest);
                assert(s@.subrange(s.len() as int, s.len() as int) =~= Seq::<char>::empty());
                assert(views(out@) + seq![piece@] + Seq::<Seq<char>>::empty() =~= views(out@)
                    + seq![piece@]);
            }
        }
        out.push(piece);
        from = if k < s.len() {
            k + 1
        } else {
            k
        };
    }
    proof {
        assert(s@.subrange(from as int, s.len() as int) =~= Seq::<char>::empty());
        assert(views(out@) + Seq::<Seq<char>>::empty() =~= views(out@));
    }
    out
}

/// Whether every line of a text that ends here is terminated: the text is
/// empty or ends with a line feed.
pub open spec fn terminated(s: Seq<char>) -> bool {
    s.len() == 0 || s.last() == '\n'
}

/// `content` with `line` written after it as a line of its own: a line feed
/// goes before the line where the last line of `content` has none, and one
/// goes after it.
pub open spec fn appended(content: Seq<char>, line: Seq<char>) -> Seq<char> {
    if terminated(content) {
        content + line + seq!['\n']
    } else {
        content + seq!['\n'] + line + seq!['\n']
    }
}

/// The text that holds the given lines, each followed by a line feed.
pub open spec fn write_lines(lines: Seq<Seq<char>>) -> Seq<char>
    decreases lines.len(),
{
    if lines.len() == 0 {
        Seq::empty()
    } else {
        write_lines(lines.drop_last()) + lines.last() + seq!['\n']
    }
}

/// The text that holds the given lines, each followed by a line feed.
pub fn written(lines: &Vec<Vec<char>>) -> (r: Vec<char>)
    ensures
        r@ == write_lines(views(lines@)),
{
    let mut out: Vec<char> = Vec::new();
    let mut i: usize = 0;
    assert(views(lines@).take(0) =~= Seq::<Seq<char>>::empty());
    while i < lines.len()
        invariant
            i <= lines.len(),
            out@ == write_lines(views(lines@).take(i as int)),
        decreases lines.len() - i,
    {
        let ghost head = out@;
        proof {
            let after = views(lines@).take(i + 1);
            assert(after.drop_last() =~= views(lines@).take(i as int));
            assert(after.last() == lines@[i as int]@);
        }
        out.extend_from_slice(lines[i].as_slice());
        out.push('\n');
        assert(out@ =~= head + lines@[i as int]@ + seq!['\n']);
        i += 1;
    }
    proof {
        assert(views(lines@).take(lines.len() as int) =~= views(lines@));
    }
    out
}

/// Whether two character sequences are the same.
pub fn same_chars(a: &[char], b: &[char]) -> (same: bool)
    ensures
        same == (a@ == b@),
{
    if a.len() != b.len() {
        return false;
    }
    let mut i: usize = 0;
    while i < a.len()
        invariant
            i <= a.len() == b.len(),
            a@.take(i as int) == b@.take(i as int),
        decreases a.len() - i,
    {
        if a[i] != b[i] {
            return false;
        }
        assert(a@.take(i + 1) =~= a@.take(i as int).push(a@[i as int]));
        assert(b@.take(i + 1) =~= b@.take(i as int).push(b@[i as int]));
        i += 1;
    }
    assert(a@.take(a.len() as int) =~= a@);
    assert(b@.take(b.len() as int) =~= b@);
    true
}

/// Whether `s` reads `prefix` from position `at` on.
pub open spec fn reads_at(s: Seq<char>, at: int, prefix: Seq<char>) -> bool {
    0 <= at && at + prefix.len() <= s.len() && s.subrange(at, at + prefix.len()) == prefix
}

/// Whether `s` reads `prefix` from position `at` on.
pub fn matches_at(s: &[char], at: usize, prefix: &[char]) -> (b: bool)
    requires
        at <= s@.len(),
    ensures
        b == reads_at(s@, at as int, prefix@),
{
    if prefix.len() > s.len() - at {
        return false;
    }
    same_chars(vstd::slice::slice_subrange(s, at, at + prefix.len()), prefix)
}

/// Whether `sep` does not occur in `s`.
pub open spec fn free_of(s: Seq<char>, sep: char) -> bool {
    forall|i: int| 0 <= i < s.len() ==> s[i] != sep
}

/// A text without the separator is one piece.
pub proof fn lemma_split_on_one_piece(s: Seq<char>, sep: char)
    requires
        free_of(s, sep),
    ensures
        split_on(s, sep) == seq![s],
{
    lemma_first_index(s, sep, s.len() as int);
}

/// The pieces of a text that starts with a piece without the separator,
/// then a separator: that piece, then the pieces of the rest.
pub proof fn lemma_split_on_first_piece(a: Seq<char>, sep: char, b: Seq<char>)
    requires
        free_of(a, sep),
    ensures
        split_on(a + seq![sep] + b, sep) == seq![a] + split_on(b, sep),
{
    let s = a + seq![sep] + b;
    lemma_first_index(s, sep, a.len() as int);
    assert(s.subrange(0, a.len() as int) =~= a);
    assert(s.subrange(a.len() as int + 1, s.len() as int) =~= b);
}

/// The pieces of a text that ends with a separator and a piece without
/// one: the pieces of what stands before, then that piece.
pub proof fn lemma_split_on_last_piece(a: Seq<char>, sep: char, d: Seq<char>)
    requires
        free_of(d, sep),
    ensures
        split_on(a + seq![sep] + d, sep) == split_on(a, sep).push(d),
    decreases a.len(),
{
    lemma_first_index_bounds(a, sep);
    let k = first_index(a, sep);
    if k == a.len() {
        lemma_split_on_first_piece(a, sep, d);
        lemma_split_on_one_piece(d, sep);
        assert(seq![a] + seq![d] =~= seq![a].push(d));
    } else {
        let head = a.subrange(0, k);
        let rest = a.subrange(k + 1, a.len() as int);
        assert(a =~= head + seq![sep] + rest);
        assert(a + seq![sep] + d =~= head + seq![sep] + (rest + seq![sep] + d));
        lemma_split_on_first_piece(head, sep, rest + seq![sep] + d);
        lemma_split_on_last_piece(rest, sep, d);
        lemma_split_on_first_piece(head, sep, rest);
        assert(seq![head] + split_on(rest, sep).push(d) =~= (seq![head] + split_on(rest, sep)).push(
            d,
        ));
    }
}

/// The given lines, each without one trailing carriage return.
pub open spec fn strip_all(lines: Seq<Seq<char>>) -> Seq<Seq<char>> {
    Seq::new(lines.len(), |i: int| strip_cr(lines[i]))
}

/// A line written after a text is its last line, and the lines before it
/// stay: this holds of every text, for every line without a line feed.
pub proof fn lemma_lines_of_appended(content: Seq<char>, line: Seq<char>)
    requires
        free_of(line, '\n'),
    ensures
        lines_of(appended(content, line)) == lines_of(content).push(strip_cr(line)),
        terminated(appended(content, line)),
    decreases content.len(),
{
    let whole = appended(content, line);
    lemma_first_index_bounds(content, '\n');
    let k = first_index(content, '\n');
    if content.len() == 0 {
        lemma_first_index(whole, '\n', line.len() as int);
        assert(whole.subrange(0, line.len() as int) =~= line);
        assert(whole.subrange(line.len() as int + 1, whole.len() as int) =~= Seq::<char>::empty());
        assert(lines_of(Seq::<char>::empty()) =~= Seq::<Seq<char>>::empty());
        assert(lines_of(whole) == seq![strip_cr(line)] + lines_of(Seq::<char>::empty()));
        assert(seq![strip_cr(line)] + Seq::<Seq<char>>::empty() =~= lines_of(content).push(
            strip_cr(line),
        ));
    } else if k < content.len() {
        let rest = content.subrange(k + 1, content.len() as int);
        assert(terminated(rest) == terminated(content)) by {
            if rest.len() > 0 {
                assert(rest.last() == content.last());
            } else {
                assert(content.last() == content[k]);
            }
        }
        lemma_first_index(whole, '\n', k);
        assert(whole.subrange(0, k) =~= content.subrange(0, k));
        assert(whole.subrange(k + 1, whole.len() as int) =~= appended(rest, line));
        lemma_lines_of_appended(rest, line);
        let first = strip_cr(content.subrange(0, k));
        assert(lines_of(content) == seq![first] + lines_of(rest));
        assert(lines_of(whole) == seq![first] + lines_of(appended(rest, line)));
        assert(seq![first] + lines_of(rest).push(strip_cr(line)) =~= (seq![first] + lines_of(
            rest,
        )).push(strip_cr(line)));
    } else {
        assert(content.last() == content[content.len() - 1]);
        let tail = line + seq!['\n'];
        assert(whole =~= content + seq!['\n'] + tail);
        lemma_first_index(whole, '\n', content.len() as int);
        assert(whole.subrange(0, content.len() as int) =~= content);
        assert(whole.subrange(content.len() as int + 1, whole.len() as int) =~= tail);
        assert(tail =~= appended(Seq::<char>::empty(), line));
        lemma_lines_of_appended(Seq::<char>::empty(), line);
        assert(lines_of(Seq::<char>::empty()) =~= Seq::<Seq<char>>::empty());
        assert(lines_of(whole) == seq![strip_cr(content)] + lines_of(tail));
        assert(seq![strip_cr(content)] + Seq::<Seq<char>>::empty().push(strip_cr(line))
            =~= seq![strip_cr(content)].push(strip_cr(line)));
    }
}

/// The lines of a text that was written from lines are those lines, each
/// without one trailing carriage return, and every one of them is
/// terminated.
pub proof fn lemma_lines_of_written(lines: Seq<Seq<char>>)
    requires
        forall|i: int| 0 <= i < lines.len() ==> free_of(#[trigger] lines[i], '\n'),
    ensures
        lines_of(write_lines(lines)) == strip_all(lines),
        terminated(write_lines(lines)),
    decreases lines.len(),
{
    if lines.len() == 0 {
        assert(lines_of(Seq::<char>::empty()) =~= strip_all(lines));
    } else {
        let head = lines.drop_last();
        assert forall|i: int| 0 <= i < head.len() implies free_of(#[trigger] head[i], '\n') by {
            assert(head[i] == lines[i]);
        }
        lemma_lines_of_written(head);
        assert(write_lines(lines) =~= appended(write_lines(head), lines.last()));
        lemma_lines_of_appended(write_lines(head), lines.last());
        assert(strip_all(head).push(strip_cr(lines.last())) =~= strip_all(lines));
    }
}

/// A line of a text holds no character that the text does not hold, and
/// no line feed.
pub proof fn lemma_lines_free_of(s: Seq<char>, c: char)
    requires
        free_of(s, c) || c == '\n',
    ensures
        forall|j: int| 0 <= j < lines_of(s).len() ==> free_of(#[trigger] lines_of(s)[j], c),
    decreases s.len(),
{
    lemma_first_index_bounds(s, '\n');
    let k = first_index(s, '\n');
    if s.len() > 0 {
        let lines = lines_of(s);
        if k < s.len() {
            let rest = s.subrange(k + 1, s.len() as int);
            assert(free_of(s, c) ==> free_of(rest, c));
            lemma_lines_free_of(rest, c);
            let first = s.subrange(0, k);
            assert(free_of(first, c));
            assert(free_of(strip_cr(first), c));
            assert forall|j: int| 0 <= j < lines.len() implies free_of(#[trigger] lines[j], c) by {
                if j > 0 {
                    assert(lines[j] == lines_of(rest)[j - 1]);
                }
            }
        } else {
            assert(free_of(s, c));
            assert(free_of(strip_cr(s), c));
        }
    }
}

} // verus!
