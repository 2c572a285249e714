//! One record of the configuration store, `KEYWORD=value`, and the codec for
//! a value that is a bracketed list of bytes, such as `[12,0,255]`.
use vstd::prelude::*;
use crate::utils::json::{bytes_from_json, bytes_to_json, json_bytes, json_bytes_text};
use crate::utils::number::{
    decimal,
    is_digit,
    lemma_decimal_digits,
    lemma_decimal_free_of,
    lemma_decimal_trim,
    lemma_parse_decimal_of_decimal,
    parse_decimal,
    parse_u8,
    push_decimal,
};
use crate::utils::text::{
    copy_range,
    find_from,
    first_index,
    free_of,
    from_chars,
    lemma_split_on_last_piece,
    lemma_split_on_one_piece,
    split,
    split_on,
    to_chars,
    trim,
    trimmed,
    views,
};

verus! {

/// Why a line could not be read or written.
#[derive(Debug, PartialEq, Eq)]
pub enum LineError {
    /// The text holds no equals sign, so it has no keyword and value.
    InvalidFromArgument,
    /// The value after the keyword is not what the line should hold.
    DeserializeError { string: String },
    /// The value cannot be written as text.
    FormatError,
}

impl LineError {
    /// What to tell the user about this error.
    pub open spec fn text(self) -> Seq<char> {
        match self {
            LineError::InvalidFromArgument => "Argument to `Line::from() must be a string containing one '='`"@,
            LineError::DeserializeError { string } => "Could not deserialize: "@ + string@
                + " into a key, value pair"@,
            LineError::FormatError => "Could not format Line, value must implement serialize"@,
        }
    }

    /// What to tell the user about this error.
    pub fn message(&self) -> (text: String)
        ensures
            text@ == self.text(),
    {
        match self {
            LineError::InvalidFromArgument => String::from_str(
                "Argument to `Line::from() must be a string containing one '='`",
            ),
            LineError::DeserializeError { string } => {
                let mut text = String::from_str("Could not deserialize: ");
                text.append(string.as_str());
                text.append(" into a key, value pair");
                text
            },
            LineError::FormatError => String::from_str(
                "Could not format Line, value must implement serialize",
            ),
        }
    }
}

/// A record of the configuration store: a keyword and its value.
#[derive(Debug, Clone)]
pub struct Line<T> {
    pub key: String,
    pub value: T,
}

impl<T> Line<T> {
    /// The line with the given keyword and value.
    pub fn new(key: &str, value: T) -> (line: Line<T>)
        ensures
            line.key@ == key@,
            line.value == value,
    {
        Line { key: String::from_str(key), value }
    }
}

impl<E> Line<Vec<E>> {
    /// Adds `new_element` at the end of the value.
    pub fn add(&mut self, new_element: E)
        ensures
            final(self).key == old(self).key,
            final(self).value@ == old(self).value@.push(new_element),
    {
        self.value.push(new_element);
    }

    /// Removes the last element of the value, if there is one.
    pub fn pop(&mut self)
        ensures
            final(self).key == old(self).key,
            old(self).value@.len() > 0 ==> final(self).value@ == old(self).value@.drop_last(),
            old(self).value@.len() == 0 ==> final(self).value@ == old(self).value@,
    {
        self.value.pop();
    }

    /// Replaces the value.
    pub fn set_new(&mut self, new_vec: Vec<E>)
        ensures
            final(self).key == old(self).key,
            final(self).value == new_vec,
    {
        self.value = new_vec;
    }
}

/// The bytes written in `items`, each a decimal number between optional
/// whitespace, if every item is one.
pub open spec fn parse_items(items: Seq<Seq<char>>) -> Option<Seq<u8>>
    decreases items.len(),
{
    if items.len() == 0 {
        Some(Seq::empty())
    } else {
        match (parse_items(items.drop_last()), parse_decimal(trim(items.last()), u8::MAX as nat)) {
            (Some(head), Some(v)) => Some(head.push(v as u8)),
            _ => None,
        }
    }
}

/// The bytes written in `s`: an opening bracket, decimal numbers up to 255
/// with a comma between each two, a closing bracket. Whitespace may stand
/// around the brackets and around each number. Brackets with nothing but
/// whitespace between them hold no bytes.
pub open spec fn parse_byte_list(s: Seq<char>) -> Option<Seq<u8>> {
    let t = trim(s);
    if t.len() >= 2 && t[0] == '[' && t.last() == ']' {
        let inner = t.subrange(1, t.len() - 1);
        if trim(inner).len() == 0 {
            Some(Seq::empty())
        } else {
            parse_items(split_on(inner, ','))
        }
    } else {
        None
    }
}

/// The decimal numbers of `bytes` with a comma between each two.
pub open spec fn join_items(bytes: Seq<u8>) -> Seq<char>
    decreases bytes.len(),
{
    if bytes.len() == 0 {
        Seq::empty()
    } else if bytes.len() == 1 {
        decimal(bytes[0] as nat)
    } else {
        join_items(bytes.drop_last()) + seq![','] + decimal(bytes.last() as nat)
    }
}

/// `bytes` as a bracketed list: `[12,0,255]`.
pub open spec fn format_byte_list(bytes: Seq<u8>) -> Seq<char> {
    seq!['['] + join_items(bytes) + seq![']']
}

/// The bytes written in the bracketed list `s`.
pub fn read_byte_list(s: &[char]) -> (r: Option<Vec<u8>>)
    ensures
        match r {
            Some(bytes) => parse_byte_list(s@) == Some(bytes@),
            None => parse_byte_list(s@) is None,
        },
{
    let t = trimmed(s);
    if t.len() < 2 || t[0] != '[' || t[t.len() - 1] != ']' {
        return None;
    }
    let inner = copy_range(t.as_slice(), 1, t.len() - 1);
    let mut out: Vec<u8> = Vec::new();
    if trimmed(inner.as_slice()).len() == 0 {
        return Some(out);
    }
    let items = split(inner.as_slice(), ',');
    let mut i: usize = 0;
    assert(views(items@).take(0) =~= Seq::<Seq<char>>::empty());
    assert(inner@ == t@.subrange(1, t@.len() - 1));
    assert(parse_byte_list(s@) == parse_items(views(items@)));
    while i < items.len()
        invariant
            i <= items.len(),
            parse_byte_list(s@) == parse_items(views(items@)),
            parse_items(views(items@).take(i as int)) == Some(out@),
        decreases items.len() - i,
    {
        let ghost next = views(items@).take(i + 1);
        proof {
            assert(next.drop_last() =~= views(items@).take(i as int));
            assert(next.last() == items@[i as int]@);
        }
        let item = trimmed(items[i].as_slice());
        match parse_u8(item.as_slice()) {
            Some(v) => {
                out.push(v);
            },
            None => {
                proof {
                    lemma_parse_items_prefix(views(items@), i + 1);
                }
                return None;
            },
        }
        i += 1;
    }
    assert(views(items@).take(items.len() as int) =~= views(items@));
    Some(out)
}

/// Where the first items cannot be read, the whole list cannot.
pub proof fn lemma_parse_items_prefix(items: Seq<Seq<char>>, k: int)
    requires
        0 <= k <= items.len(),
        parse_items(items.take(k)) is None,
    ensures
        parse_items(items) is None,
    decreases items.len() - k,
{
    if k < items.len() {
        assert(items.take(k + 1).drop_last() =~= items.take(k));
        lemma_parse_items_prefix(items, k + 1);
    } else {
        assert(items.take(k) =~= items);
    }
}

/// Appends `bytes` as a bracketed list to `out`.
pub fn push_byte_list(out: &mut Vec<char>, bytes: &[u8])
    ensures
        final(out)@ == old(out)@ + format_byte_list(bytes@),
{
    out.push('[');
    let ghost head = out@;
    let mut i: usize = 0;
    assert(bytes@.take(0) =~= Seq::<u8>::empty());
    while i < bytes.len()
        invariant
            i <= bytes.len(),
            out@ == head + join_items(bytes@.take(i as int)),
        decreases bytes.len() - i,
    {
        let ghost next = bytes@.take(i + 1);
        proof {
            assert(next.drop_last() =~= bytes@.take(i as int));
            assert(next.last() == bytes@[i as int]);
        }
        if i > 0 {
            out.push(',');
        }
        push_decimal(out, bytes[i] as u32);
        i += 1;
    }
    assert(bytes@.take(bytes.len() as int) =~= bytes@);
    out.push(']');
    assert(out@ =~= old(out)@ + format_byte_list(bytes@));
}

/// The bytes written in the bracketed list `string`, such as `[12, 0, 255]`.
pub fn string_as_key(string: &str) -> (r: Result<Vec<u8>, LineError>)
    ensures
        match r {
            Ok(bytes) => parse_byte_list(string@) == Some(bytes@),
            Err(e) => parse_byte_list(string@) is None && (e matches LineError::DeserializeError {
                string: text,
            } && text@ == string@),
        },
{
    let chars = to_chars(string);
    match read_byte_list(chars.as_slice()) {
        Some(bytes) => Ok(bytes),
        None => Err(LineError::DeserializeError { string: String::from_str(string) }),
    }
}

/// The keyword of `text`: what stands before its first equals sign.
pub open spec fn key_part(text: Seq<char>) -> Seq<char> {
    text.subrange(0, first_index(text, '='))
}

/// The value of `text`: what stands after its first equals sign.
pub open spec fn value_part(text: Seq<char>) -> Seq<char> {
    text.subrange(first_index(text, '=') + 1, text.len() as int)
}

/// Whether `text` holds an equals sign.
pub open spec fn has_equals(text: Seq<char>) -> bool {
    first_index(text, '=') < text.len()
}

impl Line<Vec<u8>> {
    /// Reads a line whose value is a list of bytes, written as JSON. The
    /// keyword is what stands before the first equals sign, the value what
    /// stands after it.
    pub fn from(string: &str) -> (r: Result<Line<Vec<u8>>, LineError>)
        ensures
            match r {
                Ok(line) => has_equals(string@) && line.key@ == key_part(string@) && json_bytes(
                    value_part(string@),
                ) == Some(line.value@),
                Err(LineError::InvalidFromArgument) => !has_equals(string@),
                Err(LineError::DeserializeError { string: text }) => has_equals(string@)
                    && json_bytes(value_part(string@)) is None && text@ == value_part(string@),
                Err(LineError::FormatError) => false,
            },
    {
        let chars = to_chars(string);
        proof {
            assert(chars@.subrange(0, chars@.len() as int) =~= chars@);
        }
        let at = find_from(chars.as_slice(), 0, '=');
        if at == chars.len() {
            return Err(LineError::InvalidFromArgument);
        }
        let key = from_chars(copy_range(chars.as_slice(), 0, at).as_slice());
        let value = from_chars(copy_range(chars.as_slice(), at + 1, chars.len()).as_slice());
        match bytes_from_json(value.as_str()) {
            Ok(bytes) => Ok(Line { key, value: bytes }),
            Err(_) => Err(LineError::DeserializeError { string: value }),
        }
    }

    /// The text of this line: the keyword, an equals sign, and the value as
    /// JSON. Fails with `FormatError` where the value cannot be written.
    pub fn format(&self) -> (r: Result<String, LineError>)
        ensures
            match r {
                Ok(text) => json_bytes_text(self.value@) is Some && text@ == bytes_line(
                    self.key@,
                    self.value@,
                ),
                Err(e) => json_bytes_text(self.value@) is None && e == LineError::FormatError,
            },
    {
        match bytes_to_json(&self.value) {
            Ok(value) => {
                let mut text = String::from_str(self.key.as_str());
                text.append("=");
                text.append(value.as_str());
                proof {
                    reveal_strlit("=");
                    assert("="@ =~= seq!['=']);
                }
                Ok(text)
            },
            Err(_) => Err(LineError::FormatError),
        }
    }
}

/// The line with the given keyword that holds `bytes` as JSON.
pub open spec fn bytes_line(keyword: Seq<char>, bytes: Seq<u8>) -> Seq<char> {
    keyword + seq!['='] + json_bytes_text(bytes)->0
}

/// The decimal numbers of `bytes`, one text for each byte.
pub open spec fn decimals(bytes: Seq<u8>) -> Seq<Seq<char>> {
    Seq::new(bytes.len(), |i: int| decimal(bytes[i] as nat))
}

/// The joined numbers of one byte or more start and end with a digit, and
/// hold nothing but digits and commas.
pub proof fn lemma_join_items_shape(bytes: Seq<u8>, c: char)
    requires
        bytes.len() >= 1,
    ensures
        join_items(bytes).len() > 0,
        is_digit(join_items(bytes)[0]),
        is_digit(join_items(bytes).last()),
        !is_digit(c) && c != ',' ==> free_of(join_items(bytes), c),
    decreases bytes.len(),
{
    let last = decimal(bytes.last() as nat);
    lemma_decimal_digits(bytes.last() as nat);
    assert(is_digit(last[last.len() - 1]) && is_digit(last[0]));
    if bytes.len() == 1 {
        assert(bytes[0] == bytes.last());
    } else {
        let head = join_items(bytes.drop_last());
        lemma_join_items_shape(bytes.drop_last(), c);
        let all = head + seq![','] + last;
        assert(all[0] == head[0]);
        assert(all.last() == last[last.len() - 1]);
        if !is_digit(c) && c != ',' {
            assert forall|i: int| 0 <= i < all.len() implies all[i] != c by {
                if i < head.len() {
                    assert(all[i] == head[i]);
                } else if i > head.len() {
                    assert(all[i] == last[i - head.len() - 1]);
                }
            }
        }
    }
}

/// Splitting the joined numbers at the commas gives the numbers back.
pub proof fn lemma_split_join_items(bytes: Seq<u8>)
    requires
        bytes.len() >= 1,
    ensures
        split_on(join_items(bytes), ',') == decimals(bytes),
    decreases bytes.len(),
{
    let last = decimal(bytes.last() as nat);
    lemma_decimal_free_of(bytes.last() as nat, ',');
    if bytes.len() == 1 {
        assert(bytes[0] == bytes.last());
        lemma_split_on_one_piece(last, ',');
        assert(decimals(bytes) =~= seq![last]);
    } else {
        let head = join_items(bytes.drop_last());
        lemma_split_join_items(bytes.drop_last());
        lemma_split_on_last_piece(head, ',', last);
        assert(decimals(bytes) =~= decimals(bytes.drop_last()).push(last));
    }
}

/// Reading the decimal numbers of bytes gives the bytes back.
pub proof fn lemma_parse_items_of_decimals(bytes: Seq<u8>)
    ensures
        parse_items(decimals(bytes)) == Some(bytes),
    decreases bytes.len(),
{
    if bytes.len() == 0 {
        assert(bytes =~= Seq::<u8>::empty());
    } else {
        lemma_parse_items_of_decimals(bytes.drop_last());
        assert(decimals(bytes).drop_last() =~= decimals(bytes.drop_last()));
        assert(decimals(bytes).last() == decimal(bytes.last() as nat));
        lemma_decimal_trim(bytes.last() as nat);
        lemma_parse_decimal_of_decimal(bytes.last() as nat, u8::MAX as nat);
        assert(bytes.drop_last().push(bytes.last()) =~= bytes);
    }
}

/// Reading a bracketed list that was written for some bytes gives the bytes
/// back.
pub proof fn lemma_byte_list_round_trip(bytes: Seq<u8>)
    ensures
        parse_byte_list(format_byte_list(bytes)) == Some(bytes),
        free_of(format_byte_list(bytes), '='),
        free_of(format_byte_list(bytes), '\n'),
        free_of(format_byte_list(bytes), '\r'),
        format_byte_list(bytes).last() == ']',
{
    let joined = join_items(bytes);
    let text = format_byte_list(bytes);
    assert(text[0] == '[' && text.last() == ']');
    assert(trim(text) == text);
    assert(text.subrange(1, text.len() - 1) =~= joined);
    if bytes.len() == 0 {
        assert(trim(joined) =~= Seq::<char>::empty());
        assert(bytes =~= Seq::<u8>::empty());
    } else {
        lemma_join_items_shape(bytes, '=');
        lemma_join_items_shape(bytes, '\n');
        lemma_join_items_shape(bytes, '\r');
        assert(trim(joined) == joined);
        lemma_split_join_items(bytes);
        lemma_parse_items_of_decimals(bytes);
    }
    assert forall|i: int| 0 <= i < text.len() implies text[i] != '=' && text[i] != '\n' && text[i]
        != '\r' by {
        if 0 < i < text.len() - 1 {
            assert(text[i] == joined[i - 1]);
        }
    }
}

} // verus!
