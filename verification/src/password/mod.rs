//! The password of the user and the questions that recover it, kept in the
//! configuration store. The password is sealed with a key of its own.
pub mod utf8;

use vstd::prelude::*;
use crate::encryption::seal::{
    decryption,
    generate_encryption_key,
    open_sealed,
    opening,
    DecryptionFailure,
    PASSPHRASE_LIMIT,
    SEAL_OVERHEAD,
};
use crate::encryption::KEY_LENGTH;
use crate::password::utf8::string_from_utf8;
use crate::utils::config_interact::{lines_with_key, replaced, Config};
use crate::utils::json::{
    json_bytes,
    json_bytes_text,
    json_pairs,
    json_text,
    pair_views,
    pairs_from_json,
    pairs_to_json,
};
use crate::utils::line::{bytes_line, has_equals, key_part, value_part, Line, LineError};
use crate::utils::text::{
    appended,
    copy_range,
    find_from,
    from_chars,
    string_views,
    to_chars,
    trim,
    trimmed,
};
use crate::utils::GenericError;
use vstd::utf8::{encode_utf8, valid_utf8};

verus! {

/// The keyword of the line that holds the sealed password.
pub const PASSWORD_KEYWORD: &'static str = "MUCLI_PASSWORD";

/// The keyword of the line that holds the key of the password.
pub const PASSWORD_KEY_KEYWORD: &'static str = "MUCLI_KEY_PASSWORD";

/// The keyword of the line that holds the recovery questions.
pub const QUESTION_KEYWORD: &'static str = "MUCLI_QUESTION";

/// Why an operation on the password failed.
#[derive(Debug, PartialEq, Eq)]
#[allow(inconsistent_fields)]
pub enum PasswordError {
    /// A line of the store could not be read or written.
    Line { source: LineError },
    /// The store lacks what the operation needs.
    Generic { source: GenericError },
    /// The sealed password did not open.
    Decrypt { source: DecryptionFailure },
    /// The store holds no password.
    RetrievePassword,
    /// The store holds no key that can seal the password.
    EncryptPassword,
    /// What was opened is not text.
    DecryptPassword,
}

impl PasswordError {
    /// What to tell the user about this error.
    pub fn message(&self) -> (text: String)
        ensures
            self matches PasswordError::Line { source } ==> text@ == source.text(),
            self matches PasswordError::Generic { source } ==> text@ == source.text(),
            self matches PasswordError::Decrypt { source } ==> text@ == source.text(),
            self is RetrievePassword ==> text@ == "Cannot retrieve password"@,
            self is EncryptPassword ==> text@ == "Failed to encrypt password"@,
            self is DecryptPassword ==> text@ == "Failed to decrypt password"@,
    {
        match self {
            PasswordError::Line { source } => source.message(),
            PasswordError::Generic { source } => source.message(),
            PasswordError::Decrypt { source } => source.message(),
            PasswordError::RetrievePassword => String::from_str("Cannot retrieve password"),
            PasswordError::EncryptPassword => String::from_str("Failed to encrypt password"),
            PasswordError::DecryptPassword => String::from_str("Failed to decrypt password"),
        }
    }
}

/// The first line of `content` that carries `keyword`.
pub open spec fn first_line(content: Seq<char>, keyword: Seq<char>) -> Option<Seq<char>> {
    let found = lines_with_key(content, keyword);
    if found.len() > 0 {
        Some(found[0])
    } else {
        None
    }
}

/// The bytes that the first line with `keyword` holds. `None` where no
/// line carries the keyword or its value is not a list of bytes.
pub open spec fn stored_bytes(content: Seq<char>, keyword: Seq<char>) -> Option<Seq<u8>> {
    match first_line(content, keyword) {
        None => None,
        Some(line) => if has_equals(line) {
            json_bytes(value_part(line))
        } else {
            None
        },
    }
}

/// Whether `source` is the error of reading `line` as a keyword and a
/// value, where the value cannot be read: without an equals sign the line
/// has no value; else the error holds the value.
pub open spec fn line_failure(line: Seq<char>, source: LineError) -> bool {
    if has_equals(line) {
        source matches LineError::DeserializeError { string } && string@ == value_part(line)
    } else {
        source is InvalidFromArgument
    }
}

/// Whether `e` is the error of reading the first line with `keyword` in
/// `content`, where it cannot be read: `missing` where no line carries the
/// keyword, else the error of the line.
pub open spec fn stored_failure(
    content: Seq<char>,
    keyword: Seq<char>,
    missing: PasswordError,
    e: PasswordError,
) -> bool {
    match first_line(content, keyword) {
        None => e == missing,
        Some(line) => e matches PasswordError::Line { source } && line_failure(line, source),
    }
}

/// The key of the password that `content` holds, where the cipher takes
/// it: the bytes of the first line with the keyword of the key, unless they
/// are more than the passphrase that the cipher takes.
pub open spec fn password_key(content: Seq<char>) -> Option<Seq<u8>> {
    match stored_bytes(content, PASSWORD_KEY_KEYWORD@) {
        Some(key) => if key.len() <= PASSPHRASE_LIMIT {
            Some(key)
        } else {
            None
        },
        None => None,
    }
}

/// Whether `e` is the error of reading the key of the password, where there
/// is none to use: `EncryptPassword` where no line holds one or the one
/// held is too long for the cipher, else the error of the line.
pub open spec fn key_failure(content: Seq<char>, e: PasswordError) -> bool {
    match stored_bytes(content, PASSWORD_KEY_KEYWORD@) {
        Some(_) => e == PasswordError::EncryptPassword,
        None => stored_failure(content, PASSWORD_KEY_KEYWORD@, PasswordError::EncryptPassword, e),
    }
}

/// Whether `r` is the password that opening its seal gave: the error of the
/// cipher where the seal did not open; else the text that the opened bytes
/// encode, or `DecryptPassword` where they encode none.
pub open spec fn reads_as(opened: Result<Seq<u8>, DecryptionFailure>, r: Result<
    String,
    PasswordError,
>) -> bool {
    match opened {
        Err(cause) => r == Err::<String, PasswordError>(PasswordError::Decrypt { source: cause }),
        Ok(bytes) => match r {
            Ok(text) => valid_utf8(bytes) && encode_utf8(text@) == bytes,
            Err(e) => !valid_utf8(bytes) && e == PasswordError::DecryptPassword,
        },
    }
}

/// Whether `r` is the password that the store `content` holds: the sealed
/// password of the first line with the keyword of the password, opened with
/// the key of the password. Where the password cannot be read, `r` is the
/// error of that (`RetrievePassword` where no line holds one); else where
/// there is no key to use, the error of that.
pub open spec fn password_read(content: Seq<char>, r: Result<String, PasswordError>) -> bool {
    match stored_bytes(content, PASSWORD_KEYWORD@) {
        None => r is Err && stored_failure(
            content,
            PASSWORD_KEYWORD@,
            PasswordError::RetrievePassword,
            r->Err_0,
        ),
        Some(sealed) => match password_key(content) {
            None => r is Err && key_failure(content, r->Err_0),
            Some(key) => reads_as(decryption(sealed, key), r),
        },
    }
}

/// The bytes that the first line with `keyword` holds, `missing` where no
/// line carries the keyword.
fn read_stored(config: &Config, keyword: &str, missing: PasswordError) -> (r: Result<
    Vec<u8>,
    PasswordError,
>)
    ensures
        match r {
            Ok(bytes) => stored_bytes(config@, keyword@) == Some(bytes@),
            Err(e) => stored_bytes(config@, keyword@) is None && stored_failure(
                config@,
                keyword@,
                missing,
                e,
            ),
        },
{
    match config.get_line(keyword) {
        None => Err(missing),
        Some(text) => match Line::<Vec<u8>>::from(text.as_str()) {
            Ok(line) => Ok(line.value),
            Err(source) => Err(PasswordError::Line { source }),
        },
    }
}

/// The key of the password, where the cipher takes it.
fn read_key(config: &Config) -> (r: Result<Vec<u8>, PasswordError>)
    ensures
        match r {
            Ok(key) => password_key(config@) == Some(key@) && key@.len() <= PASSPHRASE_LIMIT,
            Err(e) => password_key(config@) is None && key_failure(config@, e),
        },
{
    let key = read_stored(config, PASSWORD_KEY_KEYWORD, PasswordError::EncryptPassword)?;
    if key.len() as u64 > PASSPHRASE_LIMIT {
        return Err(PasswordError::EncryptPassword);
    }
    Ok(key)
}

/// Seals `password` with the key of the password. Fails with
/// `EncryptPassword` where the store holds no key that the cipher takes.
pub fn encrypt_password(config: &Config, password: &str) -> (r: Result<Vec<u8>, PasswordError>)
    ensures
        match r {
            Ok(sealed) => password_key(config@) is Some && decryption(
                sealed@,
                password_key(config@)->0,
            ) == Ok::<Seq<u8>, DecryptionFailure>(encode_utf8(password@)),
            Err(e) => password_key(config@) is None && key_failure(config@, e),
        },
{
    let key = read_key(config)?;
    Ok(simplecrypt::encrypt(password.as_bytes(), key.as_slice()))
}

/// What opening a sealed password gave, as the password: the text that the
/// bytes encode, or `DecryptPassword` where they encode none.
pub fn opened_password(opened: Result<Vec<u8>, DecryptionFailure>) -> (r: Result<
    String,
    PasswordError,
>)
    ensures
        reads_as(
            match opened {
                Ok(bytes) => Ok(bytes@),
                Err(cause) => Err(cause),
            },
            r,
        ),
{
    match opened {
        Err(source) => Err(PasswordError::Decrypt { source }),
        Ok(bytes) => match string_from_utf8(bytes) {
            Some(text) => Ok(text),
            None => Err(PasswordError::DecryptPassword),
        },
    }
}

/// Opens a sealed password with the key of the password. Fails with
/// `EncryptPassword` where the store holds no key that the cipher takes.
pub fn decrypt_password(config: &Config, crypted_value: Vec<u8>) -> (r: Result<
    String,
    PasswordError,
>)
    ensures
        match password_key(config@) {
            None => r is Err && key_failure(config@, r->Err_0),
            Some(key) => reads_as(decryption(crypted_value@, key), r),
        },
{
    let key = read_key(config)?;
    opened_password(open_sealed(crypted_value.as_slice(), key.as_slice()))
}

/// Makes sure that the store holds a key for the password: where no line
/// carries the keyword of that key, adds one with a fresh random key of 32
/// bytes; else changes nothing. Fails with `FormatError` where the key
/// cannot be written; the store is then left as it was.
pub fn init_password_key(config: &mut Config) -> (r: Result<(), PasswordError>)
    ensures
        first_line(old(config)@, PASSWORD_KEY_KEYWORD@) is Some ==> r is Ok && final(config)@
            == old(config)@,
        first_line(old(config)@, PASSWORD_KEY_KEYWORD@) is None ==> match r {
            Ok(_) => exists|key: Seq<u8>|
                key.len() == KEY_LENGTH && json_bytes_text(key) is Some && final(config)@
                    == appended(old(config)@, #[trigger] bytes_line(PASSWORD_KEY_KEYWORD@, key)),
            Err(e) => final(config)@ == old(config)@ && e == (
            PasswordError::Line { source: LineError::FormatError }),
        },
{
    if config.get_line(PASSWORD_KEY_KEYWORD).is_none() {
        let key = generate_encryption_key(KEY_LENGTH);
        let line = Line::new(PASSWORD_KEY_KEYWORD, key);
        match line.format() {
            Ok(text) => {
                config.set_line(text.as_str());
                assert(final(config)@ == appended(
                    old(config)@,
                    bytes_line(PASSWORD_KEY_KEYWORD@, line.value@),
                ));
                Ok(())
            },
            Err(source) => Err(PasswordError::Line { source }),
        }
    } else {
        Ok(())
    }
}

/// Stores `password`, sealed, in place of the one stored before. Fails as
/// `encrypt_password` does, and with `FormatError` where the sealed
/// password cannot be written; the store is then left as it was.
pub fn set_password(config: &mut Config, password: &str) -> (r: Result<(), PasswordError>)
    ensures
        match r {
            Ok(_) => password_key(old(config)@) is Some && exists|sealed: Seq<u8>|
                decryption(sealed, password_key(old(config)@)->0) == Ok::<
                    Seq<u8>,
                    DecryptionFailure,
                >(encode_utf8(password@)) && json_bytes_text(sealed) is Some && final(config)@
                    == replaced(
                    old(config)@,
                    PASSWORD_KEYWORD@,
                    #[trigger] bytes_line(PASSWORD_KEYWORD@, sealed),
                ),
            Err(e) => final(config)@ == old(config)@ && if password_key(old(config)@) is None {
                key_failure(old(config)@, e)
            } else {
                e == (PasswordError::Line { source: LineError::FormatError })
            },
        },
{
    let sealed = encrypt_password(config, password)?;
    let line = Line::new(PASSWORD_KEYWORD, sealed);
    match line.format() {
        Ok(text) => {
            config.replace_key(PASSWORD_KEYWORD, text.as_str());
            assert(final(config)@ == replaced(
                old(config)@,
                PASSWORD_KEYWORD@,
                bytes_line(PASSWORD_KEYWORD@, line.value@),
            ));
            Ok(())
        },
        Err(source) => Err(PasswordError::Line { source }),
    }
}

/// The password that the store holds. Fails with `RetrievePassword` where
/// no line carries the keyword of the password.
pub fn get_password(config: &Config) -> (r: Result<String, PasswordError>)
    ensures
        password_read(config@, r),
{
    let sealed = read_stored(config, PASSWORD_KEYWORD, PasswordError::RetrievePassword)?;
    decrypt_password(config, sealed)
}

impl Line<Vec<(String, String)>> {
    /// Reads a line whose value is a list of pairs of strings, written as
    /// JSON. The keyword is what stands before the first equals sign, the
    /// value what stands after it.
    pub fn from(string: &str) -> (r: Result<Line<Vec<(String, String)>>, LineError>)
        ensures
            match r {
                Ok(line) => has_equals(string@) && line.key@ == key_part(string@) && json_pairs(
                    value_part(string@),
                ) == Some(pair_views(line.value@)),
                Err(LineError::InvalidFromArgument) => !has_equals(string@),
                Err(LineError::DeserializeError { string: text }) => has_equals(string@)
                    && json_pairs(value_part(string@)) is None && text@ == value_part(string@),
                Err(LineError::FormatError) => false,
            },
    {
        let chars = to_chars(string);
        proof {
            assert(chars@.subrange(0, chars@.len() as int) =~= chars@);
        }
        let at = find_from(chars.as_slice(), 0, '=');
        if at == chars.len() {
            return Err(LineError::InvalidFromArgument);
        }
        let key = from_chars(copy_range(chars.as_slice(), 0, at).as_slice());
        let value = from_chars(copy_range(chars.as_slice(), at + 1, chars.len()).as_slice());
        match pairs_from_json(value.as_str()) {
            Ok(pairs) => Ok(Line { key, value: pairs }),
            Err(_) => Err(LineError::DeserializeError { string: value }),
        }
    }

    /// The text of this line: the keyword, an equals sign, and the value as
    /// JSON. Fails with `FormatError` where the value cannot be written.
    pub fn format(&self) -> (r: Result<String, LineError>)
        ensures
            match r {
                Ok(text) => json_text(pair_views(self.value@)) is Some && text@ == pairs_line(
                    self.key@,
                    pair_views(self.value@),
                ),
                Err(e) => json_text(pair_views(self.value@)) is None && e == LineError::FormatError,
            },
    {
        match pairs_to_json(&self.value) {
            Ok(value) => {
                let mut text = String::from_str(self.key.as_str());
                text.append("=");
                text.append(value.as_str());
                proof {
                    reveal_strlit("=");
                    assert("="@ =~= seq!['=']);
                }
                Ok(text)
            },
            Err(_) => Err(LineError::FormatError),
        }
    }
}

/// The line with the given keyword that holds `pairs`.
pub open spec fn pairs_line(keyword: Seq<char>, pairs: Seq<(Seq<char>, Seq<char>)>) -> Seq<char> {
    keyword + seq!['='] + json_text(pairs)->0
}

/// The recovery questions that `content` holds, with the keyword of their
/// line: what the first line with the keyword of the questions holds.
/// `None` where no line carries the keyword or its value cannot be read.
pub open spec fn stored_questions(content: Seq<char>) -> Option<
    (Seq<char>, Seq<(Seq<char>, Seq<char>)>),
> {
    match first_line(content, QUESTION_KEYWORD@) {
        None => None,
        Some(line) => if has_equals(line) {
            match json_pairs(value_part(line)) {
                Some(pairs) => Some((key_part(line), pairs)),
                None => None,
            }
        } else {
            None
        },
    }
}

/// The recovery questions with their answers. Fails with `KeyNotFound`
/// where no line carries the keyword of the questions, and with the error
/// of the line where it cannot be read.
pub fn retrieve_questions(config: &Config) -> (r: Result<
    Line<Vec<(String, String)>>,
    PasswordError,
>)
    ensures
        match r {
            Ok(line) => stored_questions(config@) == Some((line.key@, pair_views(line.value@))),
            Err(e) => stored_questions(config@) is None && match first_line(
                config@,
                QUESTION_KEYWORD@,
            ) {
                None => e matches PasswordError::Generic {
                    source: GenericError::KeyNotFound { key },
                } && key@ == QUESTION_KEYWORD@,
                Some(line) => e matches PasswordError::Line { source } && line_failure(
                    line,
                    source,
                ),
            },
        },
{
    match config.get_line(QUESTION_KEYWORD) {
        None => Err(
            PasswordError::Generic {
                source: GenericError::KeyNotFound { key: String::from_str(QUESTION_KEYWORD) },
            },
        ),
        Some(text) => match Line::<Vec<(String, String)>>::from(text.as_str()) {
            Ok(line) => Ok(line),
            Err(source) => Err(PasswordError::Line { source }),
        },
    }
}

/// `text` without its leading and trailing whitespace.
fn trimmed_text(text: &str) -> (r: String)
    ensures
        r@ == trim(text@),
{
    let chars = to_chars(text);
    from_chars(trimmed(chars.as_slice()).as_slice())
}

/// The keyword and the questions to start from when one is added: those
/// stored, or the keyword of the questions and none where no line carries
/// it.
pub open spec fn questions_before(content: Seq<char>) -> Option<
    (Seq<char>, Seq<(Seq<char>, Seq<char>)>),
> {
    if first_line(content, QUESTION_KEYWORD@) is None {
        Some((QUESTION_KEYWORD@, Seq::empty()))
    } else {
        stored_questions(content)
    }
}

/// Adds a question and its answer, each without the whitespace around it,
/// after the questions stored so far, and stores them all in one line in
/// place of the line before. Fails where the stored questions cannot be
/// read or the new ones cannot be written; the store is then left as it
/// was.
pub fn add_password_recovery_question(config: &mut Config, question: &str, answer: &str) -> (r:
    Result<(), PasswordError>)
    ensures
        match r {
            Ok(_) => questions_before(old(config)@) is Some && ({
                let (keyword, before) = questions_before(old(config)@)->0;
                let after = before.push((trim(question@), trim(answer@)));
                json_text(after) is Some && final(config)@ == replaced(
                    old(config)@,
                    keyword,
                    pairs_line(keyword, after),
                )
            }),
            Err(e) => final(config)@ == old(config)@ && match questions_before(old(config)@) {
                None => e matches PasswordError::Line { source } && line_failure(
                    first_line(old(config)@, QUESTION_KEYWORD@)->0,
                    source,
                ),
                Some((_, before)) => json_text(before.push((trim(question@), trim(answer@))))
                    is None && e == (PasswordError::Line { source: LineError::FormatError }),
            },
        },
{
    let mut line = match config.get_line(QUESTION_KEYWORD) {
        Some(text) => match Line::<Vec<(String, String)>>::from(text.as_str()) {
            Ok(line) => line,
            Err(source) => {
                return Err(PasswordError::Line { source });
            },
        },
        None => Line::new(QUESTION_KEYWORD, Vec::new()),
    };
    let ghost before = pair_views(line.value@);
    proof {
        if first_line(config@, QUESTION_KEYWORD@) is None {
            assert(before =~= Seq::<(Seq<char>, Seq<char>)>::empty());
        }
        assert(questions_before(config@) == Some((line.key@, before)));
    }
    let pair = (trimmed_text(question), trimmed_text(answer));
    assert(pair_views(line.value@.push(pair)) =~= before.push((pair.0@, pair.1@)));
    line.add(pair);
    match line.format() {
        Ok(text) => {
            config.replace_key(line.key.as_str(), text.as_str());
            Ok(())
        },
        Err(source) => Err(PasswordError::Line { source }),
    }
}

/// Takes the pair at `index` from the value of the line.
pub fn remove_question(line: &mut Line<Vec<(String, String)>>, index: usize)
    requires
        index < old(line).value@.len(),
    ensures
        final(line).key == old(line).key,
        final(line).value@ == old(line).value@.remove(index as int),
{
    line.value.remove(index);
}

/// Removes the question at `index`, with its answer, and stores the others
/// in one line in place of the line before. Fails as `retrieve_questions`
/// does, with a `Custom` error where there is no question at `index`, and
/// where the questions left cannot be written; the store is then left as it
/// was.
pub fn remove_password_recovery_question(config: &mut Config, index: usize) -> (r: Result<
    (),
    PasswordError,
>)
    ensures
        match r {
            Ok(_) => stored_questions(old(config)@) is Some && ({
                let (keyword, before) = stored_questions(old(config)@)->0;
                index < before.len() && json_text(before.remove(index as int)) is Some && final(config)@ == replaced(
                    old(config)@,
                    keyword,
                    pairs_line(keyword, before.remove(index as int)),
                )
            }),
            Err(e) => final(config)@ == old(config)@ && match stored_questions(old(config)@) {
                None => match first_line(old(config)@, QUESTION_KEYWORD@) {
                    None => e matches PasswordError::Generic {
                        source: GenericError::KeyNotFound { key },
                    } && key@ == QUESTION_KEYWORD@,
                    Some(line) => e matches PasswordError::Line { source } && line_failure(
                        line,
                        source,
                    ),
                },
                Some((_, before)) => if index >= before.len() {
                    e matches PasswordError::Generic {
                        source: GenericError::Custom { message },
                    } && message@ == "No question at this position"@
                } else {
                    json_text(before.remove(index as int)) is None && e == (
                    PasswordError::Line { source: LineError::FormatError })
                },
            },
        },
{
    let mut line = retrieve_questions(config)?;
    let ghost before = pair_views(line.value@);
    assert(before.len() == line.value@.len());
    if index >= line.value.len() {
        return Err(
            PasswordError::Generic {
                source: GenericError::Custom {
                    message: String::from_str("No question at this position"),
                },
            },
        );
    }
    remove_question(&mut line, index);
    assert(pair_views(line.value@) =~= before.remove(index as int));
    match line.format() {
        Ok(text) => {
            config.replace_key(line.key.as_str(), text.as_str());
            Ok(())
        },
        Err(source) => Err(PasswordError::Line { source }),
    }
}

/// Why a new recovery question is refused.
#[derive(Debug, Clone, Copy, PartialEq, Eq, Structural)]
pub enum QuestionFault {
    /// The question is already among the stored ones.
    Repeated,
    /// The question is shorter than ten bytes.
    TooShort,
}

impl QuestionFault {
    /// What to tell the user about this fault.
    pub fn message(&self) -> (text: &'static str)
        ensures
            self is Repeated ==> text@ == "Cannot set a question twice"@,
            self is TooShort ==> text@ == "Question must be at least 10 characters long"@,
    {
        match self {
            QuestionFault::Repeated => "Cannot set a question twice",
            QuestionFault::TooShort => "Question must be at least 10 characters long",
        }
    }
}

/// Whether `question` is the question of one of `pairs`.
pub open spec fn is_asked(pairs: Seq<(Seq<char>, Seq<char>)>, question: Seq<char>) -> bool {
    exists|i: int| 0 <= i < pairs.len() && (#[trigger] pairs[i]).0 == question
}

/// Whether `input` can be added to the stored `questions`: it is refused
/// as `Repeated` where it is one of them, else as `TooShort` where its
/// UTF-8 encoding has fewer than ten bytes.
pub fn validate_question(questions: &Vec<(String, String)>, input: &str) -> (r: Result<
    (),
    QuestionFault,
>)
    ensures
        r == if is_asked(pair_views(questions@), input@) {
            Err::<(), QuestionFault>(QuestionFault::Repeated)
        } else if encode_utf8(input@).len() > 9 {
            Ok::<(), QuestionFault>(())
        } else {
            Err::<(), QuestionFault>(QuestionFault::TooShort)
        },
{
    let wanted = String::from_str(input);
    let mut i: usize = 0;
    while i < questions.len()
        invariant
            i <= questions.len(),
            wanted@ == input@,
            forall|j: int| 0 <= j < i ==> (#[trigger] pair_views(questions@)[j]).0 != input@,
        decreases questions.len() - i,
    {
        assert(pair_views(questions@)[i as int].0 == questions@[i as int].0@);
        if questions[i].0 == wanted {
            return Err(QuestionFault::Repeated);
        }
        i += 1;
    }
    if input.as_bytes().len() > 9 {
        Ok(())
    } else {
        Err(QuestionFault::TooShort)
    }
}

/// Whether `input` can be the answer to a recovery question: its UTF-8
/// encoding has two bytes or more.
pub fn validate_answer(input: &str) -> (valid: bool)
    ensures
        valid == (encode_utf8(input@).len() > 1),
{
    input.as_bytes().len() > 1
}

/// How many right answers reset the password.
pub const ANSWERS_NEEDED: usize = 3;

/// Whether `text` is among `list`.
pub open spec fn among(list: Seq<Seq<char>>, text: Seq<char>) -> bool {
    exists|i: int| 0 <= i < list.len() && #[trigger] list[i] == text
}

/// The test that a text is not among `list`.
pub open spec fn not_among(list: Seq<Seq<char>>) -> spec_fn(Seq<char>) -> bool {
    |text: Seq<char>| !among(list, text)
}

/// Whether `text` is among `list`.
fn is_among(list: &Vec<String>, text: &String) -> (found: bool)
    ensures
        found == among(string_views(list@), text@),
{
    let mut i: usize = 0;
    while i < list.len()
        invariant
            i <= list.len(),
            forall|j: int| 0 <= j < i ==> #[trigger] string_views(list@)[j] != text@,
        decreases list.len() - i,
    {
        assert(string_views(list@)[i as int] == list@[i as int]@);
        if list[i] == *text {
            return true;
        }
        i += 1;
    }
    false
}

/// The reset of the password by answering recovery questions: the choices
/// still offered, the last of them being the way out; the answers to all
/// questions, in the order in which the questions were stored; and the
/// answers given so far that were right.
pub struct Recovery {
    questions: Vec<String>,
    answers: Vec<String>,
    answered: Vec<String>,
}

impl Recovery {
    #[verifier::type_invariant]
    spec fn fits(self) -> bool {
        self.questions@.len() + self.answered@.len() <= self.answers@.len() + 1
    }

    /// The choices still offered.
    pub closed spec fn choices(self) -> Seq<Seq<char>> {
        string_views(self.questions@)
    }

    /// The answers to all questions.
    pub closed spec fn answers(self) -> Seq<Seq<char>> {
        string_views(self.answers@)
    }

    /// The right answers given so far.
    pub closed spec fn answered(self) -> Seq<Seq<char>> {
        string_views(self.answered@)
    }

    /// Starts a reset with the stored questions. There is none to start
    /// where fewer than three questions are stored. The questions are
    /// offered in their order, and after them `Cancel`.
    pub fn start(pairs: &Vec<(String, String)>) -> (r: Option<Recovery>)
        ensures
            match r {
                None => pairs@.len() < ANSWERS_NEEDED,
                Some(recovery) => pairs@.len() >= ANSWERS_NEEDED && recovery.choices() == Seq::new(
                    pairs@.len(),
                    |i: int| pair_views(pairs@)[i].0,
                ).push("Cancel"@) && recovery.answers() == Seq::new(
                    pairs@.len(),
                    |i: int| pair_views(pairs@)[i].1,
                ) && recovery.answered() == Seq::<Seq<char>>::empty(),
            },
    {
        if pairs.len() < ANSWERS_NEEDED {
            return None;
        }
        let mut questions: Vec<String> = Vec::new();
        let mut answers: Vec<String> = Vec::new();
        let mut i: usize = 0;
        while i < pairs.len()
            invariant
                i <= pairs.len(),
                string_views(questions@) == Seq::new(i as nat, |j: int| pair_views(pairs@)[j].0),
                string_views(answers@) == Seq::new(i as nat, |j: int| pair_views(pairs@)[j].1),
            decreases pairs.len() - i,
        {
            let question = pairs[i].0.clone();
            let answer = pairs[i].1.clone();
            proof {
                assert(pair_views(pairs@)[i as int] == (pairs@[i as int].0@, pairs@[i as int].1@));
                assert(string_views(questions@.push(question)) =~= string_views(questions@).push(
                    question@,
                ));
                assert(string_views(answers@.push(answer)) =~= string_views(answers@).push(
                    answer@,
                ));
                assert(string_views(questions@.push(question)) =~= Seq::new(
                    (i + 1) as nat,
                    |j: int| pair_views(pairs@)[j].0,
                ));
                assert(string_views(answers@.push(answer)) =~= Seq::new(
                    (i + 1) as nat,
                    |j: int| pair_views(pairs@)[j].1,
                ));
            }
            questions.push(question);
            answers.push(answer);
            i += 1;
        }
        let cancel = String::from_str("Cancel");
        proof {
            assert(string_views(questions@.push(cancel)) =~= string_views(questions@).push(
                "Cancel"@,
            ));
            assert(string_views(questions@).len() == questions@.len());
            assert(string_views(answers@).len() == answers@.len());
        }
        questions.push(cancel);
        let answered: Vec<String> = Vec::new();
        assert(string_views(answered@) =~= Seq::<Seq<char>>::empty());
        Some(Recovery { questions, answers, answered })
    }

    /// The choices to offer, in order.
    pub fn questions(&self) -> (r: Vec<String>)
        ensures
            string_views(r@) == self.choices(),
    {
        let r = self.questions.clone();
        assert(string_views(r@) =~= string_views(self.questions@)) by {
            assert(r@ =~= self.questions@);
        }
        r
    }

    /// Whether the choice at `chosen` is the way out: it is the last choice.
    pub fn cancels(&self, chosen: usize) -> (out: bool)
        ensures
            out == (chosen + 1 == self.choices().len()),
    {
        assert(string_views(self.questions@).len() == self.questions@.len());
        self.questions.len() > 0 && chosen == self.questions.len() - 1
    }

    /// Takes the answer to the question at `chosen` and says whether three
    /// answers are right by now.
    ///
    /// The answer is held against the answer at the position `chosen` plus
    /// the number of right answers so far. Where it is that answer, it
    /// counts as right and the question is no longer offered. Where it is
    /// not, every choice that reads like one of the right answers given so
    /// far is no longer offered.
    pub fn answer(&mut self, chosen: usize, answer: String) -> (done: bool)
        requires
            chosen + 1 < old(self).choices().len(),
        ensures
            final(self).answers() == old(self).answers(),
            chosen + old(self).answered().len() < old(self).answers().len(),
            if answer@ == old(self).answers()[chosen + old(self).answered().len()] {
                final(self).choices() == old(self).choices().remove(chosen as int) && final(self).answered() == old(self).answered().push(answer@)
            } else {
                final(self).choices() == old(self).choices().filter(
                    not_among(old(self).answered()),
                ) && final(self).answered() == old(self).answered()
            },
            done == (final(self).answered().len() == ANSWERS_NEEDED),
    {
        proof {
            use_type_invariant(&*self);
            assert(string_views(self.questions@).len() == self.questions@.len());
            assert(string_views(self.answers@).len() == self.answers@.len());
            assert(string_views(self.answered@).len() == self.answered@.len());
        }
        let total = self.answers.len();
        assert(chosen + self.answered@.len() < total);
        let at = chosen + self.answered.len();
        assert(string_views(self.answers@)[at as int] == self.answers@[at as int]@);
        if answer == self.answers[at] {
            let mut questions = self.questions.clone();
            assert(questions@ =~= self.questions@);
            questions.remove(chosen);
            let mut answered = self.answered.clone();
            assert(answered@ =~= self.answered@);
            answered.push(answer);
            proof {
                assert(string_views(questions@) =~= string_views(self.questions@).remove(
                    chosen as int,
                ));
                assert(string_views(answered@) =~= string_views(self.answered@).push(answer@));
            }
            self.questions = questions;
            self.answered = answered;
        } else {
            let mut questions: Vec<String> = Vec::new();
            let mut i: usize = 0;
            let ghost test = not_among(string_views(self.answered@));
            proof {
                reveal(Seq::filter);
                assert(string_views(self.questions@).take(0).filter(test) =~= string_views(
                    questions@,
                ));
            }
            while i < self.questions.len()
                invariant
                    i <= self.questions.len(),
                    test == not_among(string_views(self.answered@)),
                    string_views(questions@) == string_views(self.questions@).take(i as int).filter(
                        test,
                    ),
                    questions@.len() <= i,
                decreases self.questions.len() - i,
            {
                let question = self.questions[i].clone();
                proof {
                    assert(string_views(self.questions@).take(i + 1) =~= string_views(
                        self.questions@,
                    ).take(i as int).push(question@));
                    string_views(self.questions@).take(i as int).lemma_filter_push(
                        question@,
                        test,
                    );
                }
                if !is_among(&self.answered, &question) {
                    assert(string_views(questions@.push(question)) =~= string_views(
                        questions@,
                    ).push(question@));
                    questions.push(question);
                }
                i += 1;
            }
            proof {
                assert(string_views(self.questions@).take(self.questions@.len() as int)
                    =~= string_views(self.questions@));
            }
            self.questions = questions;
        }
        assert(string_views(self.answered@).len() == self.answered@.len());
        self.answered.len() == ANSWERS_NEEDED
    }
}

} // verus!
