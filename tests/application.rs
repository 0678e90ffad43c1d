use compressor::application::frequency::{frequency_of, pieces_of, words_of_lines};
use compressor::application::input::Summary;
use compressor::application::parser::TokenParser;

#[test]
fn input_test_process_as_chars() {
    let input_text = b"Hello world!";
    let text = std::str::from_utf8(&input_text[..]).unwrap();
    let char_summary = Summary::chars_from_reader(text);
    assert_eq!(
        char_summary.input,
        String::from_utf8(input_text.to_vec()).unwrap()
    );
    assert_eq!(frequency_of(&char_summary.frequencies, &'H'), Some(1));
    assert_eq!(frequency_of(&char_summary.frequencies, &'e'), Some(1));
    assert_eq!(frequency_of(&char_summary.frequencies, &'l'), Some(3));
    assert_eq!(frequency_of(&char_summary.frequencies, &'o'), Some(2));
    assert_eq!(frequency_of(&char_summary.frequencies, &'w'), Some(1));
    assert_eq!(frequency_of(&char_summary.frequencies, &'r'), Some(1));
    assert_eq!(frequency_of(&char_summary.frequencies, &'d'), Some(1));
    assert_eq!(frequency_of(&char_summary.frequencies, &'!'), Some(1));
}

#[test]
fn input_test_process_as_strings() {
    let input_text = b"Hello world! Hello ";
    let text = std::str::from_utf8(&input_text[..]).unwrap();
    let str_summary = Summary::strs_from_reader(text);
    assert_eq!(
        str_summary.input,
        String::from_utf8(input_text.to_vec()).unwrap()
    );

    assert_eq!(
        frequency_of(&str_summary.frequencies, &String::from("Hello ")),
        Some(2)
    );
    assert_eq!(
        frequency_of(&str_summary.frequencies, &String::from("world! ")),
        Some(1)
    );
}

#[test]
fn parser_test_process_as_chars() {
    let lines_text = b"Hello world!\nGoodbye :(";
    let text = std::str::from_utf8(&lines_text[..]).unwrap();
    let char_summary = TokenParser::chars_from_reader(text);
    assert_eq!(char_summary.lines, vec!["Hello world!\n", "Goodbye :("]);
    let f = &char_summary.token_frequencies;
    assert_eq!(frequency_of(f, &'H'), Some(1));
    assert_eq!(frequency_of(f, &'e'), Some(2));
    assert_eq!(frequency_of(f, &'l'), Some(3));
    assert_eq!(frequency_of(f, &'o'), Some(4));
    assert_eq!(frequency_of(f, &'w'), Some(1));
    assert_eq!(frequency_of(f, &'r'), Some(1));
    assert_eq!(frequency_of(f, &'d'), Some(2));
    assert_eq!(frequency_of(f, &'!'), Some(1));
    assert_eq!(frequency_of(f, &'\n'), Some(1));
    assert_eq!(frequency_of(f, &'G'), Some(1));
    assert_eq!(frequency_of(f, &'b'), Some(1));
    assert_eq!(frequency_of(f, &'y'), Some(1));
    assert_eq!(frequency_of(f, &' '), Some(2));
    assert_eq!(frequency_of(f, &':'), Some(1));
    assert_eq!(frequency_of(f, &'('), Some(1));
}

#[test]
fn parser_test_process_as_strings() {
    let lines_text = b"Hello world! \n Hello ";
    let text = std::str::from_utf8(&lines_text[..]).unwrap();
    let str_summary = TokenParser::words_from_reader(text);
    assert_eq!(str_summary.lines, vec!["Hello world! \n", " Hello "]);
    assert_eq!(
        frequency_of(&str_summary.token_frequencies, &String::from("Hello ")),
        Some(2)
    );
    assert_eq!(
        frequency_of(&str_summary.token_frequencies, &String::from("world! ")),
        Some(1)
    );
}

#[test]
fn pieces_match_split_inclusive() {
    for text in ["", "a", "  ", "a b c", "a b ", " x\n y \n", "no-sep"] {
        let expected: Vec<String> = text.split_inclusive(' ').map(String::from).collect();
        assert_eq!(pieces_of(text, ' '), expected);
    }
}

#[test]
fn words_are_cut_per_line() {
    let lines = vec![String::from("a\n"), String::from("b c")];
    assert_eq!(words_of_lines(&lines), vec!["a\n", "b ", "c"]);
}

#[test]
fn frequency_table_has_one_entry_per_distinct_token() {
    let summary = Summary::chars_from_reader("abcabca");
    assert_eq!(summary.frequencies, vec![('a', 3), ('b', 2), ('c', 2)]);
    assert_eq!(frequency_of(&summary.frequencies, &'z'), None);
}

#[test]
fn empty_text_has_empty_table() {
    let summary = Summary::chars_from_reader("");
    assert!(summary.frequencies.is_empty());
    let parser = TokenParser::words_from_reader("");
    assert!(parser.lines.is_empty());
    assert!(parser.token_frequencies.is_empty());
}
