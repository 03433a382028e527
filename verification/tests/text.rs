use git_dag_analyzer::text::{
    chars_of, equals_str, has_suffix, parse_u32_chars, slice_of, split_chars, split_lines,
    string_of, strings_of,
};

fn lines_of(text: &str) -> Vec<String> {
    strings_of(&split_lines(&chars_of(text)))
}

fn pieces_of(text: &str, sep: char) -> Vec<String> {
    strings_of(&split_chars(&chars_of(text), sep))
}

#[test]
fn characters_and_strings_turn_into_each_other() {
    assert_eq!(chars_of("añb"), vec!['a', 'ñ', 'b']);
    assert_eq!(string_of(&vec!['x', 'ÿ', 'z']), "xÿz");
    assert_eq!(string_of(&Vec::new()), "");
    assert_eq!(string_of(&slice_of(&chars_of("hello"), 1, 3)), "el");
}

#[test]
fn splitting_keeps_empty_pieces() {
    assert_eq!(pieces_of("a b  c", ' '), vec!["a", "b", "", "c"]);
    assert_eq!(pieces_of("", ' '), vec![""]);
    assert_eq!(pieces_of(" ", ' '), vec!["", ""]);
    assert_eq!(pieces_of("abc", ' '), vec!["abc"]);
}

#[test]
fn splitting_agrees_with_std() {
    for text in ["a b c", " a", "a ", "  ", "x", ""] {
        let expected: Vec<String> = text.split(' ').map(|s| s.to_string()).collect();
        assert_eq!(pieces_of(text, ' '), expected);
    }
}

#[test]
fn lines_end_at_line_feeds() {
    assert_eq!(lines_of("a\nb\n"), vec!["a", "b"]);
    assert_eq!(lines_of("a\nb"), vec!["a", "b"]);
    assert_eq!(lines_of("a\n\nb\n"), vec!["a", "", "b"]);
    assert_eq!(lines_of(""), Vec::<String>::new());
    assert_eq!(lines_of("\n"), vec![""]);
}

#[test]
fn carriage_return_before_line_feed_is_part_of_the_ending() {
    assert_eq!(lines_of("a\r\nb\r\n"), vec!["a", "b"]);
    assert_eq!(lines_of("foo\nbar\n\r\nbaz\r"), vec!["foo", "bar", "", "baz\r"]);
    assert_eq!(lines_of("a\r\r\n"), vec!["a\r"]);
}

#[test]
fn lines_agree_with_std() {
    for text in ["a\nb", "a\r\nb\r", "\n\n", "\r\n", "x\ry\n", "", "z"] {
        let expected: Vec<String> = text.lines().map(|s| s.to_string()).collect();
        assert_eq!(lines_of(text), expected);
    }
}

#[test]
fn numbers_are_read_as_std_reads_them() {
    for text in [
        "0", "7", "007", "+5", "4294967295", "4294967296", "99999999999999999999", "", "+",
        "-1", "1 ", " 1", "1_0", "0x10", "١", "++1", "12a",
    ] {
        assert_eq!(parse_u32_chars(&chars_of(text)), text.parse::<u32>().ok());
    }
    assert_eq!(parse_u32_chars(&chars_of("120")), Some(120));
}

#[test]
fn comparing_with_strings() {
    assert!(equals_str(&chars_of("commit"), "commit"));
    assert!(!equals_str(&chars_of("commit"), "commits"));
    assert!(!equals_str(&chars_of("commit"), "commis"));
    assert!(has_suffix(&chars_of("refs/tags/v1^{}"), "^{}"));
    assert!(!has_suffix(&chars_of("refs/tags/v1"), "^{}"));
    assert!(!has_suffix(&chars_of("{}"), "^{}"));
    assert!(has_suffix(&chars_of("abc"), ""));
}
