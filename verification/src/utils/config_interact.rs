//! The configuration store: a text of `KEYWORD=value` lines, held in memory.
//!
//! Several lines may share a keyword. The store is read as a whole and
//! written as a whole; the caller loads the text and saves `content()` after
//! a change.
use vstd::prelude::*;
use crate::utils::text::{
    appended,
    copy_range,
    free_of,
    from_chars,
    lemma_lines_free_of,
    lemma_lines_of_appended,
    lemma_lines_of_written,
    lines_of,
    split,
    split_lines,
    split_on,
    string_views,
    strip_all,
    strip_cr,
    terminated,
    to_chars,
    trim,
    trimmed,
    views,
    write_lines,
    written,
};
use crate::utils::GenericError;

verus! {

broadcast use vstd::seq_lib::group_seq_properties;

/// Whether `line` opens with `keyword` directly followed by an equals sign.
pub open spec fn has_key(line: Seq<char>, keyword: Seq<char>) -> bool {
    (keyword + seq!['=']).is_prefix_of(line)
}

/// The test that a line carries `keyword`.
pub open spec fn with_key(keyword: Seq<char>) -> spec_fn(Seq<char>) -> bool {
    |line: Seq<char>| has_key(line, keyword)
}

/// The test that a line does not carry `keyword`.
pub open spec fn without_key(keyword: Seq<char>) -> spec_fn(Seq<char>) -> bool {
    |line: Seq<char>| !has_key(line, keyword)
}

/// The lines of `content` that carry `keyword`, in order.
pub open spec fn lines_with_key(content: Seq<char>, keyword: Seq<char>) -> Seq<Seq<char>> {
    lines_of(content).filter(with_key(keyword))
}

/// The lines of `content` that do not carry `keyword`, in order.
pub open spec fn lines_without_key(content: Seq<char>, keyword: Seq<char>) -> Seq<Seq<char>> {
    lines_of(content).filter(without_key(keyword))
}

/// The lines of `content` that do not carry `keyword`, each followed by a
/// line feed.
pub open spec fn purged(content: Seq<char>, keyword: Seq<char>) -> Seq<char> {
    write_lines(lines_without_key(content, keyword))
}

/// The lines of `content` that do not carry `keyword`, then `line`, each
/// followed by a line feed.
pub open spec fn replaced(content: Seq<char>, keyword: Seq<char>, line: Seq<char>) -> Seq<char> {
    write_lines(lines_without_key(content, keyword).push(line))
}

/// The value of `line`: its second field, without the whitespace around
/// it; nothing where the line has one field only.
pub open spec fn value_field(line: Seq<char>) -> Seq<char> {
    let fields = split_on(line, '=');
    if fields.len() > 1 {
        trim(fields[1])
    } else {
        Seq::empty()
    }
}

/// The values of the lines of `content` that carry `keyword`, in order.
pub open spec fn values_with_key(content: Seq<char>, keyword: Seq<char>) -> Seq<Seq<char>> {
    Seq::new(
        lines_with_key(content, keyword).len(),
        |j: int| value_field(lines_with_key(content, keyword)[j]),
    )
}

/// Whether `line` opens with `keyword` directly followed by an equals sign.
pub fn starts_with_key(line: &[char], keyword: &[char]) -> (b: bool)
    ensures
        b == has_key(line@, keyword@),
{
    let ghost prefix = keyword@ + seq!['='];
    if line.len() <= keyword.len() {
        return false;
    }
    let mut i: usize = 0;
    while i < keyword.len()
        invariant
            i <= keyword.len() < line.len(),
            prefix == keyword@ + seq!['='],
            forall|j: int| 0 <= j < i ==> line@[j] == prefix[j],
        decreases keyword.len() - i,
    {
        if line[i] != keyword[i] {
            assert(prefix[i as int] == keyword@[i as int]);
            assert(line@.subrange(0, prefix.len() as int)[i as int] != prefix[i as int]);
            return false;
        }
        i += 1;
    }
    let b = line[keyword.len()] == '=';
    proof {
        if b {
            assert(line@.subrange(0, prefix.len() as int) =~= prefix);
        } else {
            assert(line@.subrange(0, prefix.len() as int)[keyword.len() as int]
                != prefix[keyword.len() as int]);
        }
    }
    b
}

/// The lines among `lines` that carry `keyword` (where `keep` is true) or
/// that do not (where it is false), in order.
pub fn select_lines(lines: &Vec<Vec<char>>, keyword: &[char], keep: bool) -> (r: Vec<Vec<char>>)
    ensures
        keep ==> views(r@) == views(lines@).filter(with_key(keyword@)),
        !keep ==> views(r@) == views(lines@).filter(without_key(keyword@)),
{
    let mut out: Vec<Vec<char>> = Vec::new();
    let mut i: usize = 0;
    let ghost test = if keep {
        with_key(keyword@)
    } else {
        without_key(keyword@)
    };
    proof {
        reveal(Seq::filter);
        assert(views(lines@).take(0).filter(test) =~= views(out@));
    }
    while i < lines.len()
        invariant
            i <= lines.len(),
            test == if keep {
                with_key(keyword@)
            } else {
                without_key(keyword@)
            },
            views(out@) == views(lines@).take(i as int).filter(test),
        decreases lines.len() - i,
    {
        let line = &lines[i];
        proof {
            assert(views(lines@).take(i + 1) =~= views(lines@).take(i as int).push(line@));
            views(lines@).take(i as int).lemma_filter_push(line@, test);
        }
        if starts_with_key(line.as_slice(), keyword) == keep {
            let copy = copy_range(line.as_slice(), 0, line.len());
            assert(copy@ =~= line@);
            assert(views(out@.push(copy)) =~= views(out@).push(line@));
            out.push(copy);
        }
        i += 1;
    }
    proof {
        assert(views(lines@).take(lines.len() as int) =~= views(lines@));
    }
    out
}

/// The configuration store.
pub struct Config {
    buffer: Vec<char>,
}

impl View for Config {
    type V = Seq<char>;

    /// The text of the store.
    closed spec fn view(&self) -> Seq<char> {
        self.buffer@
    }
}

impl Config {
    /// The store that holds `text`.
    pub fn open(text: &str) -> (config: Config)
        ensures
            config@ == text@,
    {
        Config { buffer: to_chars(text) }
    }

    /// The text of the store.
    pub fn content(&self) -> (text: String)
        ensures
            text@ == self@,
    {
        from_chars(self.buffer.as_slice())
    }

    /// Replaces the whole text of the store.
    pub fn overwrite_content(&mut self, new_content: &str)
        ensures
            final(self)@ == new_content@,
    {
        self.buffer = to_chars(new_content);
    }

    /// Writes `new_line` after the last line of the store, as a line of its
    /// own: where the last line has no line feed yet it gets one first.
    /// Nothing is removed, whatever keyword the line carries.
    pub fn set_line(&mut self, new_line: &str)
        ensures
            final(self)@ == appended(old(self)@, new_line@),
            free_of(new_line@, '\n') ==> lines_of(final(self)@) == lines_of(old(self)@).push(
                strip_cr(new_line@),
            ),
    {
        let n = self.buffer.len();
        if n > 0 && self.buffer[n - 1] != '\n' {
            self.buffer.push('\n');
        }
        let mut tail = to_chars(new_line);
        tail.push('\n');
        self.buffer.append(&mut tail);
        proof {
            assert(self.buffer@ =~= appended(old(self)@, new_line@));
            if free_of(new_line@, '\n') {
                lemma_lines_of_appended(old(self)@, new_line@);
            }
        }
    }

    /// Removes every line that carries `keyword`, then adds `new_line` as
    /// the last line. Every line is written with a line feed after it.
    pub fn replace_key(&mut self, keyword: &str, new_line: &str)
        ensures
            final(self)@ == replaced(old(self)@, keyword@, new_line@),
            free_of(new_line@, '\n') ==> lines_of(final(self)@) == strip_all(
                lines_without_key(old(self)@, keyword@),
            ).push(strip_cr(new_line@)),
    {
        let lines = split_lines(self.buffer.as_slice());
        let key = to_chars(keyword);
        let mut kept = select_lines(&lines, key.as_slice(), false);
        let added = to_chars(new_line);
        assert(views(kept@.push(added)) =~= views(kept@).push(added@));
        kept.push(added);
        self.buffer = written(&kept);
        proof {
            if free_of(new_line@, '\n') {
                lemma_lines_of_replaced(old(self)@, keyword@, new_line@);
            }
        }
    }

    /// Removes every line that carries `keyword`. Every line left is written
    /// with a line feed after it.
    pub fn remove_key(&mut self, keyword: &str)
        ensures
            final(self)@ == purged(old(self)@, keyword@),
            lines_of(final(self)@) == strip_all(lines_without_key(old(self)@, keyword@)),
            lines_with_key(final(self)@, keyword@).len() == 0,
    {
        let lines = split_lines(self.buffer.as_slice());
        let key = to_chars(keyword);
        let kept = select_lines(&lines, key.as_slice(), false);
        self.buffer = written(&kept);
        proof {
            lemma_lines_of_purged(old(self)@, keyword@);
            lemma_purged_has_no_key(old(self)@, keyword@);
        }
    }

    /// The first line that carries `keyword`, if there is one.
    pub fn get_line(&self, keyword: &str) -> (r: Option<String>)
        ensures
            match r {
                Some(line) => lines_with_key(self@, keyword@).len() > 0 && line@ == lines_with_key(
                    self@,
                    keyword@,
                )[0],
                None => lines_with_key(self@, keyword@).len() == 0,
            },
    {
        let lines = split_lines(self.buffer.as_slice());
        let key = to_chars(keyword);
        let found = select_lines(&lines, key.as_slice(), true);
        if found.len() > 0 {
            assert(views(found@)[0] == found@[0]@);
            Some(from_chars(found[0].as_slice()))
        } else {
            assert(views(found@).len() == 0);
            None
        }
    }

    /// Whether some line carries `keyword`.
    pub fn key_exists(&self, keyword: &str) -> (b: bool)
        ensures
            b == (lines_with_key(self@, keyword@).len() > 0),
            b == exists|i: int|
                0 <= i < lines_of(self@).len() && has_key(#[trigger] lines_of(self@)[i], keyword@),
    {
        let lines = split_lines(self.buffer.as_slice());
        let key = to_chars(keyword);
        let found = select_lines(&lines, key.as_slice(), true);
        proof {
            assert(views(found@).len() == found@.len());
            lemma_with_key_exists(self@, keyword@);
        }
        found.len() > 0
    }

    /// The lines that carry `keyword`, in order.
    pub fn get_lines(&self, keyword: &str) -> (r: Vec<String>)
        ensures
            string_views(r@) == lines_with_key(self@, keyword@),
    {
        to_strings(&self.records(keyword))
    }

    /// The lines that carry `keyword`, in order, as characters.
    pub fn records(&self, keyword: &str) -> (r: Vec<Vec<char>>)
        ensures
            views(r@) == lines_with_key(self@, keyword@),
    {
        let lines = split_lines(self.buffer.as_slice());
        let key = to_chars(keyword);
        select_lines(&lines, key.as_slice(), true)
    }

    /// What `f` keeps of the lines of the store: `f` is applied to each
    /// line, in order, and the values that it gives are returned in that
    /// order.
    pub fn filter_map_lines<T, F: Fn(String) -> Option<T>>(&self, f: F) -> (r: Vec<T>)
        requires
            forall|line: String| #[trigger] f.requires((line,)),
        ensures
            exists|lines: Seq<String>, given: Seq<Option<T>>| #[trigger]
                filter_mapped(self@, f, lines, given) && r@ == kept(given),
    {
        let lines = self.lines();
        let mut out: Vec<T> = Vec::new();
        let ghost all = lines@;
        let ghost mut given: Seq<Option<T>> = Seq::empty();
        let mut i: usize = 0;
        let n = lines.len();
        while i < n
            invariant
                i <= n == all.len(),
                all == lines@,
                given.len() == i,
                forall|j: int| 0 <= j < i ==> f.ensures((all[j],), #[trigger] given[j]),
                out@ == kept(given),
                forall|line: String| #[trigger] f.requires((line,)),
            decreases n - i,
        {
            let line = lines[i].clone();
            let value = f(line);
            proof {
                assert(given.push(value).drop_last() =~= given);
                given = given.push(value);
            }
            match value {
                Some(v) => {
                    out.push(v);
                },
                None => {},
            }
            i += 1;
        }
        proof {
            assert(filter_mapped(self@, f, all, given));
        }
        out
    }

    /// Writes `new_line` after the last line of the store, as `set_line`
    /// does.
    pub fn set_key(&mut self, new_line: &str)
        ensures
            final(self)@ == appended(old(self)@, new_line@),
            free_of(new_line@, '\n') ==> lines_of(final(self)@) == lines_of(old(self)@).push(
                strip_cr(new_line@),
            ),
    {
        self.set_line(new_line);
    }

    /// The value of each line that carries `keyword`, in order: the second
    /// field of the line, without the whitespace around it.
    pub fn get_keys(&self, keyword: &str) -> (r: Vec<String>)
        ensures
            string_views(r@) == values_with_key(self@, keyword@),
    {
        let lines = split_lines(self.buffer.as_slice());
        let key = to_chars(keyword);
        let found = select_lines(&lines, key.as_slice(), true);
        let mut out: Vec<String> = Vec::new();
        let mut i: usize = 0;
        assert(string_views(out@) =~= Seq::new(0, |j: int| value_field(views(found@)[j])));
        while i < found.len()
            invariant
                i <= found.len(),
                string_views(out@) == Seq::new(i as nat, |j: int| value_field(views(found@)[j])),
            decreases found.len() - i,
        {
            let fields = split(found[i].as_slice(), '=');
            let value = if fields.len() > 1 {
                assert(views(fields@)[1] == fields@[1]@);
                from_chars(trimmed(fields[1].as_slice()).as_slice())
            } else {
                String::new()
            };
            proof {
                assert(views(found@)[i as int] == found@[i as int]@);
                assert(string_views(out@.push(value)) =~= string_views(out@).push(value@));
                assert(Seq::new((i + 1) as nat, |j: int| value_field(views(found@)[j])) =~= Seq::new(
                    i as nat,
                    |j: int| value_field(views(found@)[j]),
                ).push(value@));
            }
            out.push(value);
            i += 1;
        }
        out
    }

    /// The value of the first line that carries `keyword`. Fails with
    /// `KeyNotFound` where no line carries it.
    pub fn get_key(&self, keyword: &str) -> (r: Result<String, GenericError>)
        ensures
            match r {
                Ok(value) => values_with_key(self@, keyword@).len() > 0 && value@
                    == values_with_key(self@, keyword@)[0],
                Err(e) => values_with_key(self@, keyword@).len() == 0 && (
                e matches GenericError::KeyNotFound { key } && key@ == keyword@),
            },
    {
        let mut values = self.get_keys(keyword);
        if values.len() > 0 {
            assert(string_views(values@)[0] == values@[0]@);
            Ok(values.swap_remove(0))
        } else {
            assert(string_views(values@).len() == 0);
            Err(GenericError::KeyNotFound { key: String::from_str(keyword) })
        }
    }

    /// All lines of the store, in order.
    pub fn lines(&self) -> (r: Vec<String>)
        ensures
            string_views(r@) == lines_of(self@),
    {
        let lines = split_lines(self.buffer.as_slice());
        to_strings(&lines)
    }
}

/// The values among `given`, in order.
pub open spec fn kept<T>(given: Seq<Option<T>>) -> Seq<T>
    decreases given.len(),
{
    if given.len() == 0 {
        Seq::empty()
    } else {
        match given.last() {
            Some(v) => kept(given.drop_last()).push(v),
            None => kept(given.drop_last()),
        }
    }
}

/// Whether `lines` are the lines of `content` and `given` is what `f` gave
/// for each of them.
pub open spec fn filter_mapped<T, F: Fn(String) -> Option<T>>(
    content: Seq<char>,
    f: F,
    lines: Seq<String>,
    given: Seq<Option<T>>,
) -> bool {
    &&& string_views(lines) == lines_of(content)
    &&& given.len() == lines.len()
    &&& forall|j: int| 0 <= j < lines.len() ==> f.ensures((lines[j],), #[trigger] given[j])
}

/// Each character vector as a string.
pub fn to_strings(lines: &Vec<Vec<char>>) -> (r: Vec<String>)
    ensures
        string_views(r@) == views(lines@),
{
    let mut out: Vec<String> = Vec::new();
    let mut i: usize = 0;
    assert(string_views(out@) =~= views(lines@).take(0));
    while i < lines.len()
        invariant
            i <= lines.len(),
            string_views(out@) == views(lines@).take(i as int),
        decreases lines.len() - i,
    {
        let s = from_chars(lines[i].as_slice());
        assert(string_views(out@.push(s)) =~= string_views(out@).push(s@));
        assert(views(lines@).take(i + 1) =~= views(lines@).take(i as int).push(lines@[i as int]@));
        out.push(s);
        i += 1;
    }
    assert(views(lines@).take(lines.len() as int) =~= views(lines@));
    out
}

/// Some line carries the keyword exactly when the lines that carry it are
/// not none.
pub proof fn lemma_with_key_exists(content: Seq<char>, keyword: Seq<char>)
    ensures
        (lines_with_key(content, keyword).len() > 0) == exists|i: int|
            0 <= i < lines_of(content).len() && has_key(#[trigger] lines_of(content)[i], keyword),
{
    let lines = lines_of(content);
    let test = with_key(keyword);
    if lines.filter(test).len() > 0 {
        let found = lines.filter(test)[0];
        lines.lemma_filter_pred(test, 0);
        assert(lines.filter(test).contains(found));
        lines.lemma_filter_contains_rev(test, found);
        let i = choose|i: int| 0 <= i < lines.len() && lines[i] == found;
        assert(has_key(lines[i], keyword));
    }
    if exists|i: int| 0 <= i < lines.len() && has_key(#[trigger] lines[i], keyword) {
        let i = choose|i: int| 0 <= i < lines.len() && has_key(#[trigger] lines[i], keyword);
        assert(test(lines[i]));
        lines.lemma_filter_contains(test, i);
    }
}

/// A line that carries a keyword without its last character carries it with
/// that character too.
pub proof fn lemma_key_of_stripped(line: Seq<char>, keyword: Seq<char>)
    requires
        has_key(strip_cr(line), keyword),
    ensures
        has_key(line, keyword),
{
    let prefix = keyword + seq!['='];
    assert(line.subrange(0, prefix.len() as int) =~= strip_cr(line).subrange(
        0,
        prefix.len() as int,
    ));
}

/// The lines that do not carry a keyword hold no line feed.
pub proof fn lemma_kept_lines(content: Seq<char>, keyword: Seq<char>)
    ensures
        forall|i: int|
            0 <= i < lines_without_key(content, keyword).len() ==> free_of(
                #[trigger] lines_without_key(content, keyword)[i],
                '\n',
            ) && !has_key(lines_without_key(content, keyword)[i], keyword),
{
    let kept = lines_without_key(content, keyword);
    lemma_lines_free_of(content, '\n');
    assert forall|i: int| 0 <= i < kept.len() implies free_of(#[trigger] kept[i], '\n')
        && !has_key(kept[i], keyword) by {
        lines_of(content).lemma_filter_pred(without_key(keyword), i);
        assert(kept.contains(kept[i]));
        lines_of(content).lemma_filter_contains_rev(without_key(keyword), kept[i]);
    }
}

/// After `remove_key` the lines of the store are those that did not carry
/// the keyword, and every one of them is terminated.
pub proof fn lemma_lines_of_purged(content: Seq<char>, keyword: Seq<char>)
    ensures
        lines_of(purged(content, keyword)) == strip_all(lines_without_key(content, keyword)),
        terminated(purged(content, keyword)),
{
    lemma_kept_lines(content, keyword);
    lemma_lines_of_written(lines_without_key(content, keyword));
}

/// After `replace_key` the lines of the store are those that did not carry
/// the keyword, then the new line, and every one of them is terminated:
/// the store is what `set_line` with the new line makes of the store after
/// `remove_key`.
pub proof fn lemma_lines_of_replaced(content: Seq<char>, keyword: Seq<char>, line: Seq<char>)
    requires
        free_of(line, '\n'),
    ensures
        replaced(content, keyword, line) == appended(purged(content, keyword), line),
        lines_of(replaced(content, keyword, line)) == strip_all(
            lines_without_key(content, keyword),
        ).push(strip_cr(line)),
        terminated(replaced(content, keyword, line)),
{
    let kept = lines_without_key(content, keyword);
    lemma_lines_of_purged(content, keyword);
    assert(kept.push(line).drop_last() =~= kept);
    assert(replaced(content, keyword, line) =~= appended(purged(content, keyword), line));
    lemma_lines_of_appended(purged(content, keyword), line);
}

/// A record written with `set_line` under a keyword that no line carried is
/// then the one line with that keyword, whatever the store held, and the
/// lines with any other keyword are those before.
pub proof fn lemma_new_record_found(content: Seq<char>, line: Seq<char>, keyword: Seq<char>)
    requires
        free_of(line, '\n'),
        line.len() == 0 || line.last() != '\r',
    ensures
        lines_with_key(appended(content, line), keyword) == if has_key(line, keyword) {
            lines_with_key(content, keyword).push(line)
        } else {
            lines_with_key(content, keyword)
        },
{
    lemma_lines_of_appended(content, line);
    lines_of(content).lemma_filter_push(line, with_key(keyword));
}

/// After `remove_key` no line of the store carries the keyword.
pub proof fn lemma_purged_has_no_key(content: Seq<char>, keyword: Seq<char>)
    ensures
        lines_with_key(purged(content, keyword), keyword) == Seq::<Seq<char>>::empty(),
{
    let kept = lines_without_key(content, keyword);
    let lines = lines_of(purged(content, keyword));
    lemma_lines_of_purged(content, keyword);
    lemma_kept_lines(content, keyword);
    assert(lines.all(|x: Seq<char>| !with_key(keyword)(x))) by {
        assert forall|j: int| 0 <= j < lines.len() implies !with_key(keyword)(
            #[trigger] lines[j],
        ) by {
            assert(lines[j] == strip_cr(kept[j]));
            if has_key(lines[j], keyword) {
                lemma_key_of_stripped(kept[j], keyword);
            }
        }
    }
    lines.lemma_all_neg_filter_empty(with_key(keyword));
}

} // verus!
