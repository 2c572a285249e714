use mucli::utils::config_interact::{select_lines, starts_with_key, to_strings, Config};
use mucli::utils::GenericError;

fn chars(text: &str) -> Vec<char> {
    text.chars().collect()
}

#[test]
fn a_store_holds_the_text_it_was_opened_with() {
    let config = Config::open("A=1\nB=2\n");
    assert_eq!(config.content(), "A=1\nB=2\n");
    assert_eq!(Config::open("").content(), "");
    assert_eq!(Config::open("é=ü\n").content(), "é=ü\n");
}

#[test]
fn lines_end_at_line_feeds() {
    assert_eq!(Config::open("").lines(), Vec::<String>::new());
    assert_eq!(Config::open("\n").lines(), vec![""]);
    assert_eq!(Config::open("a").lines(), vec!["a"]);
    assert_eq!(Config::open("a\n").lines(), vec!["a"]);
    assert_eq!(Config::open("a\nb").lines(), vec!["a", "b"]);
    assert_eq!(Config::open("a\n\nb\n").lines(), vec!["a", "", "b"]);
    assert_eq!(Config::open("a\r\nb\r\n").lines(), vec!["a", "b"]);
    assert_eq!(Config::open("a\rb\r").lines(), vec!["a\rb"]);
    assert_eq!(Config::open("a\r").lines(), vec!["a"]);
    assert_eq!(Config::open("\r").lines(), vec![""]);
    assert_eq!(Config::open("a\r\r\nb").lines(), vec!["a\r", "b"]);
    assert_eq!(Config::open("\r\n").lines(), vec![""]);
    for text in ["", "\n", "a", "a\n\nb\n", "a\r\nb\r\n", "a\rb", "x=1\r\n\r\ny"] {
        let expected: Vec<String> = text.lines().map(|l| l.to_string()).collect();
        assert_eq!(Config::open(text).lines(), expected);
    }
}

#[test]
fn a_line_carries_a_keyword_followed_by_an_equals_sign() {
    assert!(starts_with_key(&chars("KEY=value"), &chars("KEY")));
    assert!(starts_with_key(&chars("KEY="), &chars("KEY")));
    assert!(starts_with_key(&chars("=x"), &chars("")));
    assert!(!starts_with_key(&chars("KEY"), &chars("KEY")));
    assert!(!starts_with_key(&chars("KEY value"), &chars("KEY")));
    assert!(!starts_with_key(&chars("KEYS=value"), &chars("KEY")));
    assert!(!starts_with_key(&chars(" KEY=value"), &chars("KEY")));
    assert!(!starts_with_key(&chars("key=value"), &chars("KEY")));
    assert!(!starts_with_key(&chars(""), &chars("")));
}

#[test]
fn the_first_line_with_the_keyword_is_found() {
    let config = Config::open("A=1\nB=2\nA=3\nAB=4\n");
    assert_eq!(config.get_line("A"), Some("A=1".to_string()));
    assert_eq!(config.get_line("B"), Some("B=2".to_string()));
    assert_eq!(config.get_line("AB"), Some("AB=4".to_string()));
    assert_eq!(config.get_line("C"), None);
    assert_eq!(config.get_line("A=1"), None);
    assert!(config.key_exists("A"));
    assert!(config.key_exists("AB"));
    assert!(!config.key_exists("C"));
    assert!(!config.key_exists(""));
    assert_eq!(config.get_lines("A"), vec!["A=1", "A=3"]);
    assert_eq!(config.get_lines("C"), Vec::<String>::new());
}

#[test]
fn set_line_writes_at_the_end_without_looking() {
    let mut config = Config::open("");
    config.set_line("A=1");
    assert_eq!(config.content(), "A=1\n");
    config.set_line("A=1");
    assert_eq!(config.content(), "A=1\nA=1\n");
    config.set_key("B=2");
    assert_eq!(config.content(), "A=1\nA=1\nB=2\n");

    let mut open_ended = Config::open("A=1");
    open_ended.set_line("B=2");
    assert_eq!(open_ended.content(), "A=1\nB=2\n");
    assert_eq!(open_ended.get_line("B"), Some("B=2".to_string()));
    assert_eq!(open_ended.lines(), vec!["A=1", "B=2"]);
}

#[test]
fn a_record_written_after_a_replacement_stands_on_its_own_line() {
    let mut config = Config::open("");
    config.replace_key("A", "A=1");
    config.set_line("B=2");
    assert_eq!(config.lines(), vec!["A=1", "B=2"]);
    assert_eq!(config.get_line("A"), Some("A=1".to_string()));
    assert_eq!(config.get_line("B"), Some("B=2".to_string()));
    config.remove_key("A");
    config.set_line("C=3");
    assert_eq!(config.lines(), vec!["B=2", "C=3"]);
    config.replace_key("B", "B=4");
    config.set_key("D=5");
    assert_eq!(config.lines(), vec!["C=3", "B=4", "D=5"]);
    assert_eq!(config.content(), "C=3\nB=4\nD=5\n");

    for start in ["", "X=0", "X=0\n", "X=0\r\n", "X=0\r", "\n", "X=0\n\nY=1"] {
        let mut store = Config::open(start);
        let mut expected = store.lines();
        store.set_line("NEW=1");
        expected.push("NEW=1".to_string());
        assert_eq!(store.lines(), expected);
        assert_eq!(store.get_line("NEW"), Some("NEW=1".to_string()));
    }
}

#[test]
fn replace_key_drops_every_line_with_the_keyword() {
    let mut config = Config::open("A=1\nB=2\nA=3\nC=4\n");
    config.replace_key("A", "A=9");
    assert_eq!(config.content(), "B=2\nC=4\nA=9\n");
    config.replace_key("Z", "Z=0");
    assert_eq!(config.content(), "B=2\nC=4\nA=9\nZ=0\n");
    config.replace_key("B", "other=1");
    assert_eq!(config.content(), "C=4\nA=9\nZ=0\nother=1\n");

    let mut empty = Config::open("");
    empty.replace_key("A", "A=1");
    assert_eq!(empty.content(), "A=1\n");
    let mut only = Config::open("A=1\r\nA=2\r\n");
    only.replace_key("A", "");
    assert_eq!(only.content(), "\n");
}

#[test]
fn remove_key_drops_every_line_with_the_keyword() {
    let mut config = Config::open("A=1\nB=2\nA=3\n\nC=4\n");
    config.remove_key("A");
    assert_eq!(config.content(), "B=2\n\nC=4\n");
    assert!(!config.key_exists("A"));
    config.remove_key("A");
    assert_eq!(config.content(), "B=2\n\nC=4\n");
    config.remove_key("B");
    config.remove_key("C");
    assert_eq!(config.content(), "\n");
    assert_eq!(config.lines(), vec![""]);
    let mut only = Config::open("A=1\nA=2");
    only.remove_key("A");
    assert_eq!(only.content(), "");
}

#[test]
fn overwrite_content_replaces_everything() {
    let mut config = Config::open("A=1\n");
    config.overwrite_content("B=2");
    assert_eq!(config.content(), "B=2");
    assert_eq!(config.get_line("A"), None);
    config.overwrite_content("");
    assert_eq!(config.content(), "");
}

#[test]
fn filter_map_lines_keeps_what_the_function_gives() {
    let config = Config::open("A=1\nB=2\nA=3\n");
    let lengths: Vec<usize> = config.filter_map_lines(|line: String| Some(line.len()));
    assert_eq!(lengths, vec![3, 3, 3]);
    let with_a: Vec<String> = config.filter_map_lines(|line: String| {
        if line.starts_with("A=") {
            Some(line[2..].to_string())
        } else {
            None
        }
    });
    assert_eq!(with_a, vec!["1", "3"]);
    let none: Vec<u8> = config.filter_map_lines(|_line: String| None);
    assert_eq!(none, Vec::<u8>::new());
    let empty: Vec<String> = Config::open("").filter_map_lines(|line: String| Some(line));
    assert_eq!(empty, Vec::<String>::new());
}

#[test]
fn values_are_the_second_field_without_whitespace() {
    let config = Config::open("A= 1 \nB=2\nA=3=4\nA=\n");
    assert_eq!(config.get_keys("A"), vec!["1", "3", ""]);
    assert_eq!(config.get_keys("B"), vec!["2"]);
    assert_eq!(config.get_keys("C"), Vec::<String>::new());
    assert_eq!(config.get_key("A"), Ok("1".to_string()));
    assert_eq!(config.get_key("B"), Ok("2".to_string()));
    assert_eq!(
        config.get_key("C"),
        Err(GenericError::KeyNotFound {
            key: "C".to_string()
        })
    );
}

#[test]
fn lines_are_selected_by_keyword() {
    let lines = vec![chars("A=1"), chars("B=2"), chars("A=3")];
    assert_eq!(
        select_lines(&lines, &chars("A"), true),
        vec![chars("A=1"), chars("A=3")]
    );
    assert_eq!(select_lines(&lines, &chars("A"), false), vec![chars("B=2")]);
    assert_eq!(to_strings(&lines), vec!["A=1", "B=2", "A=3"]);
}

#[test]
fn generic_errors_say_what_went_wrong() {
    assert_eq!(
        GenericError::KeyNotFound {
            key: "MUCLI_QUESTION".to_string()
        }
        .message(),
        "Key \"MUCLI_QUESTION\" not found in config file."
    );
    assert_eq!(
        GenericError::Custom {
            message: "as given".to_string()
        }
        .message(),
        "as given"
    );
}
