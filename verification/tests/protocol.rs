use unison_fsmonitor::protocol::{decode, encode, format_line, parse_input};

#[test]
fn encode_escapes_reserved_characters() {
    assert_eq!(encode("before%after"), "before%25after");
}

#[test]
fn parse_input_decodes_arguments() {
    assert_eq!(
        parse_input("START 123 foo%20bar baz%2Fqux\n"),
        (
            "START".to_owned(),
            vec!["123".to_owned(), "foo bar".to_owned(), "baz/qux".to_owned()],
        )
    );
}

#[test]
fn encode_and_decode_undo_each_other() {
    for text in ["", "abc", "a b/c%", "é\u{1F600}\n", "%2F", "0aZ~"] {
        assert_eq!(decode(&encode(text)), text);
    }
    assert_eq!(encode("é ~"), "%C3%A9%20%7E");
}

#[test]
fn decode_leaves_what_is_no_escape() {
    assert_eq!(decode("%"), "%");
    assert_eq!(decode("%2"), "%2");
    assert_eq!(decode("%zz%41"), "%zzA");
    assert_eq!(decode("%2f%2F"), "//");
    assert_eq!(decode("%%41"), "%A");
    assert_eq!(decode("%FFa"), "\u{FFFD}a");
}

#[test]
fn words_stand_between_any_white_space() {
    assert_eq!(parse_input(""), (String::new(), vec![]));
    assert_eq!(parse_input(" \t\r\n"), (String::new(), vec![]));
    assert_eq!(
        parse_input("  CMD\u{2003}one\u{A0}\u{3000}two\u{85}"),
        (
            "CMD".to_owned(),
            vec!["one".to_owned(), "two".to_owned()]
        )
    );
    assert_eq!(
        parse_input("%41 %41"),
        ("%41".to_owned(), vec!["A".to_owned()])
    );
    let separators: Vec<char> = (0..=0x10FFFFu32)
        .filter_map(char::from_u32)
        .filter(|c| parse_input(&format!("a{}b", c)).1.len() == 1)
        .collect();
    let expected: Vec<char> = (0..=0x10FFFFu32)
        .filter_map(char::from_u32)
        .filter(|c| c.is_whitespace())
        .collect();
    assert_eq!(separators, expected);
    assert_eq!(separators.len(), 25);
}

#[test]
fn lines_are_read_back() {
    let args = vec!["a b".to_owned(), "é/%".to_owned()];
    let line = format_line("CMD", &args);
    assert_eq!(line, "CMD a%20b %C3%A9%2F%25");
    assert_eq!(parse_input(&line), ("CMD".to_owned(), args.clone()));
    assert_eq!(
        parse_input(&format!("{}\n", line)),
        ("CMD".to_owned(), args)
    );
    assert_eq!(format_line("OK", &vec![]), "OK");
}
