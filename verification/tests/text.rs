use mucli::utils::line::{push_byte_list, read_byte_list, string_as_key, Line, LineError};
use mucli::utils::number::{parse_u32, parse_u8, push_decimal};
use mucli::utils::text::{
    copy_range, find_from, from_chars, is_whitespace, matches_at, same_chars, split,
    split_lines, to_chars, trimmed, written,
};

fn chars(text: &str) -> Vec<char> {
    text.chars().collect()
}

fn decimal(n: u32) -> String {
    let mut out = Vec::new();
    push_decimal(&mut out, n);
    out.into_iter().collect()
}

fn byte_list(bytes: &[u8]) -> String {
    let mut out = Vec::new();
    push_byte_list(&mut out, bytes);
    out.into_iter().collect()
}

#[test]
fn strings_and_characters_convert_both_ways() {
    assert_eq!(to_chars("héllo"), vec!['h', 'é', 'l', 'l', 'o']);
    assert_eq!(to_chars(""), Vec::<char>::new());
    assert_eq!(from_chars(&['a', 'ß', '\n']), "aß\n");
    assert_eq!(from_chars(&[]), "");
    assert_eq!(copy_range(&chars("abcdef"), 2, 4), chars("cd"));
    assert_eq!(copy_range(&chars("abcdef"), 3, 3), chars(""));
}

#[test]
fn whitespace_is_what_the_standard_says() {
    for code in 0u32..0x3100 {
        if let Some(c) = char::from_u32(code) {
            assert_eq!(is_whitespace(c), c.is_whitespace(), "U+{:04X}", code);
        }
    }
}

#[test]
fn trimming_removes_whitespace_at_both_ends_only() {
    for text in [
        "",
        " ",
        "  a  ",
        "a b",
        "\t\na b\r\n ",
        "\u{a0}x\u{3000}",
        "x",
        " \u{2003} ",
    ] {
        assert_eq!(from_chars(&trimmed(&chars(text))), text.trim());
    }
}

#[test]
fn splitting_keeps_empty_pieces() {
    for text in ["", "a", "a=b", "=", "a==b", "=a=", "a=b=c=d"] {
        let expected: Vec<Vec<char>> = text.split('=').map(chars).collect();
        assert_eq!(split(&chars(text), '='), expected);
    }
    assert_eq!(find_from(&chars("a=b=c"), 0, '='), 1);
    assert_eq!(find_from(&chars("a=b=c"), 2, '='), 3);
    assert_eq!(find_from(&chars("a=b=c"), 4, '='), 5);
    assert_eq!(find_from(&chars("a=b=c"), 5, '='), 5);
}

#[test]
fn lines_split_and_join() {
    assert_eq!(
        split_lines(&chars("a\r\nb\n\nc")),
        vec![chars("a"), chars("b"), chars(""), chars("c")]
    );
    assert_eq!(split_lines(&chars("a\r")), vec![chars("a")]);
    assert_eq!(written(&vec![]), chars(""));
    assert_eq!(written(&vec![chars("a")]), chars("a\n"));
    assert_eq!(
        written(&vec![chars("a"), chars(""), chars("b")]),
        chars("a\n\nb\n")
    );
    assert_eq!(written(&vec![chars(""), chars("")]), chars("\n\n"));
    let lines = vec![chars("x=1"), chars(""), chars("y")];
    assert_eq!(split_lines(&written(&lines)), lines);
}

#[test]
fn character_sequences_compare() {
    assert!(same_chars(&chars("abc"), &chars("abc")));
    assert!(same_chars(&chars(""), &chars("")));
    assert!(!same_chars(&chars("abc"), &chars("abd")));
    assert!(!same_chars(&chars("abc"), &chars("ab")));
    assert!(matches_at(&chars("version1"), 0, &chars("version")));
    assert!(matches_at(&chars("xversion"), 1, &chars("version")));
    assert!(!matches_at(&chars("versio"), 0, &chars("version")));
    assert!(matches_at(&chars("abc"), 3, &chars("")));
}

#[test]
fn numbers_are_read_as_the_standard_reads_them() {
    for text in [
        "0",
        "7",
        "007",
        "+7",
        "4294967295",
        "4294967296",
        "04294967295",
        "99999999999999999999",
        "",
        "+",
        "-1",
        "++1",
        "1+",
        " 1",
        "1 ",
        "1_000",
        "0x10",
        "١",
        "255",
        "256",
    ] {
        assert_eq!(parse_u32(&chars(text)), text.parse::<u32>().ok(), "{:?}", text);
        assert_eq!(parse_u8(&chars(text)), text.parse::<u8>().ok(), "{:?}", text);
    }
}

#[test]
fn numbers_are_written_without_leading_zeros() {
    assert_eq!(decimal(0), "0");
    assert_eq!(decimal(9), "9");
    assert_eq!(decimal(10), "10");
    assert_eq!(decimal(1203), "1203");
    assert_eq!(decimal(u32::MAX), "4294967295");
    for n in [0u32, 1, 99, 100, 65535, 4000000000] {
        assert_eq!(parse_u32(&chars(&decimal(n))), Some(n));
    }
}

#[test]
fn byte_lists_are_bracketed_and_comma_separated() {
    assert_eq!(byte_list(&[]), "[]");
    assert_eq!(byte_list(&[0]), "[0]");
    assert_eq!(byte_list(&[1, 20, 255]), "[1,20,255]");
    assert_eq!(read_byte_list(&chars("[]")), Some(vec![]));
    assert_eq!(read_byte_list(&chars(" [ ] ")), Some(vec![]));
    assert_eq!(read_byte_list(&chars("[1,20,255]")), Some(vec![1, 20, 255]));
    assert_eq!(read_byte_list(&chars(" [ 1 , +2,003 ]\t")), Some(vec![1, 2, 3]));
    for bad in ["", "[", "]", "1,2", "[1,2", "[1,]", "[,1]", "[1;2]", "[256]", "[-1]", "[[1]]", "[1] x"] {
        assert_eq!(read_byte_list(&chars(bad)), None, "{:?}", bad);
    }
    let all: Vec<u8> = (0u8..=255).collect();
    assert_eq!(read_byte_list(&chars(&byte_list(&all))), Some(all));
}

#[test]
fn string_as_key_reads_a_byte_list() {
    assert_eq!(string_as_key("[1, 2, 3]"), Ok(vec![1, 2, 3]));
    assert_eq!(string_as_key("[]"), Ok(vec![]));
    assert_eq!(
        string_as_key("[1, x]"),
        Err(LineError::DeserializeError {
            string: "[1, x]".to_string()
        })
    );
}

#[test]
fn a_line_has_a_keyword_and_a_value() {
    let mut line: Line<Vec<u8>> = Line::new("KEY", vec![1, 2]);
    assert_eq!(line.key, "KEY");
    assert_eq!(line.value, vec![1, 2]);
    line.add(3);
    assert_eq!(line.value, vec![1, 2, 3]);
    line.pop();
    line.pop();
    assert_eq!(line.value, vec![1]);
    line.pop();
    line.pop();
    assert_eq!(line.value, Vec::<u8>::new());
    line.set_new(vec![9, 8]);
    assert_eq!(line.value, vec![9, 8]);
    assert_eq!(line.key, "KEY");

    let mut words: Line<Vec<String>> = Line::new("W", vec![]);
    words.add("one".to_string());
    assert_eq!(words.value, vec!["one"]);
    let number: Line<u64> = Line::new("N", 5);
    assert_eq!(number.value, 5);
}

#[test]
fn a_line_of_bytes_is_written_and_read() {
    let line: Line<Vec<u8>> = Line::new("MUCLI_PASSWORD", vec![0, 10, 255]);
    assert_eq!(line.format(), Ok("MUCLI_PASSWORD=[0,10,255]".to_string()));
    let none: Line<Vec<u8>> = Line::new("K", vec![]);
    assert_eq!(none.format(), Ok("K=[]".to_string()));
    let read = Line::<Vec<u8>>::from("MUCLI_PASSWORD=[0,10,255]").unwrap();
    assert_eq!(read.key, "MUCLI_PASSWORD");
    assert_eq!(read.value, vec![0, 10, 255]);
    let spaced = Line::<Vec<u8>>::from("K= [1, 2] ").unwrap();
    assert_eq!(spaced.key, "K");
    assert_eq!(spaced.value, vec![1, 2]);
    let empty_key = Line::<Vec<u8>>::from("=[]").unwrap();
    assert_eq!(empty_key.key, "");
    assert_eq!(empty_key.value, Vec::<u8>::new());

    assert_eq!(
        Line::<Vec<u8>>::from("no equals sign").unwrap_err(),
        LineError::InvalidFromArgument
    );
    assert_eq!(
        Line::<Vec<u8>>::from("K=[1]=[2]").unwrap_err(),
        LineError::DeserializeError {
            string: "[1]=[2]".to_string()
        }
    );
    assert_eq!(
        Line::<Vec<u8>>::from("K=[256]").unwrap_err(),
        LineError::DeserializeError {
            string: "[256]".to_string()
        }
    );
    assert_eq!(
        Line::<Vec<u8>>::from("K=[+1]").unwrap_err(),
        LineError::DeserializeError {
            string: "[+1]".to_string()
        }
    );
    assert_eq!(
        Line::<Vec<u8>>::from("K=[01]").unwrap_err(),
        LineError::DeserializeError {
            string: "[01]".to_string()
        }
    );
    assert_eq!(
        Line::<Vec<u8>>::from("K=").unwrap_err(),
        LineError::DeserializeError {
            string: "".to_string()
        }
    );
}

#[test]
fn line_errors_say_what_went_wrong() {
    assert_eq!(
        LineError::InvalidFromArgument.message(),
        "Argument to `Line::from() must be a string containing one '='`"
    );
    assert_eq!(
        LineError::DeserializeError {
            string: "x".to_string()
        }
        .message(),
        "Could not deserialize: x into a key, value pair"
    );
    assert_eq!(
        LineError::FormatError.message(),
        "Could not format Line, value must implement serialize"
    );
}
