use toolbox::string::{
    generate_escape_string, sanitize_symbol, string_to_bool, vna_hash, word_to_bool,
};
use toolbox::text::{chars_of, push_blanks, push_decimal};

#[test]
fn yes_in_any_case_and_with_blanks_around() {
    assert!(string_to_bool("y"));
    assert!(string_to_bool("yes"));
    assert!(string_to_bool("true"));
    assert!(string_to_bool("YES"));
    assert!(string_to_bool(" \t True \n"));
    assert!(string_to_bool("\u{3000}Y\u{a0}"));
}

#[test]
fn only_white_space_is_taken_off() {
    let blank = |c: u32| {
        matches!(
            c,
            0x09..=0x0d
                | 0x20
                | 0x85
                | 0xa0
                | 0x1680
                | 0x2000..=0x200a
                | 0x2028
                | 0x2029
                | 0x202f
                | 0x205f
                | 0x3000
        )
    };
    for code in 0..=0x10ffff {
        if let Some(c) = char::from_u32(code) {
            let text: String = [c, 'y', c].iter().collect();
            assert_eq!(string_to_bool(&text), blank(code), "{code:x}");
        }
    }
}

#[test]
fn everything_else_means_no() {
    assert!(!string_to_bool("n"));
    assert!(!string_to_bool("no"));
    assert!(!string_to_bool("FALSE"));
    assert!(!string_to_bool(""));
    assert!(!string_to_bool("   "));
    assert!(!string_to_bool("1"));
    assert!(!string_to_bool("ye s"));
}

#[test]
fn words_are_taken_as_they_are() {
    assert!(word_to_bool("yes"));
    assert!(!word_to_bool("Yes"));
    assert!(!word_to_bool(" yes"));
}

#[test]
fn escapes_are_written_out() {
    assert_eq!(
        generate_escape_string("a\n\r\t\\\"'b"),
        "a\\n\\r\\t\\\\\\\"\\'b"
    );
    assert_eq!(generate_escape_string(""), "");
    assert_eq!(generate_escape_string("äöü"), "äöü");
}

#[test]
fn texts_are_escaped_piece_by_piece() {
    let (a, b) = ("say \"a\\", "'\tb'\n");
    assert_eq!(
        generate_escape_string(&format!("{a}{b}")),
        generate_escape_string(a) + &generate_escape_string(b)
    );
}

#[test]
fn quotes_stand_behind_a_backslash() {
    let escaped = generate_escape_string("\"a' \\\" '\"");
    let chars: Vec<char> = escaped.chars().collect();
    let quotes: Vec<usize> =
        (0..chars.len()).filter(|&i| chars[i] == '"' || chars[i] == '\'').collect();
    assert_eq!(quotes.len(), 5);
    for i in quotes {
        assert_eq!(chars[i - 1], '\\');
    }
}

#[test]
fn escaping_keeps_texts_apart() {
    assert_ne!(generate_escape_string("\n"), generate_escape_string("\\n"));
    assert_ne!(generate_escape_string("\\"), generate_escape_string("\\\\"));
}

#[test]
fn version_hashes_are_those_of_elf() {
    assert_eq!(vna_hash(""), 0);
    assert_eq!(vna_hash("a"), 97);
    assert_eq!(vna_hash("GLIBC_2.2.5"), 0x0969_1a75);
    assert_eq!(vna_hash("GLIBC_2.4"), 0x0d69_6914);
}

#[test]
fn version_hashes_fit_in_28_bits() {
    assert!(vna_hash("zzzzzzzzzzzzzzzzzzzz") < 0x1000_0000);
    assert!(vna_hash("\u{ff}\u{ff}\u{ff}\u{ff}\u{ff}\u{ff}") < 0x1000_0000);
}

#[test]
fn symbols_are_sanitized() {
    assert_eq!(sanitize_symbol("hello-world"), "hello_world");
    assert_eq!(sanitize_symbol("3d"), "_3d");
    assert_eq!(sanitize_symbol(""), "sym");
    assert_eq!(sanitize_symbol("é"), "_");
    assert_eq!(sanitize_symbol("A_z09"), "A_z09");
    assert_eq!(sanitize_symbol("-3"), "_3");
}

#[test]
fn sanitizing_twice_changes_nothing_more() {
    for text in ["", "3d", "a b", "___", "9"] {
        let once = sanitize_symbol(text);
        assert_eq!(sanitize_symbol(&once), once);
    }
}

#[test]
fn numbers_and_blanks_are_written_behind() {
    let mut text = "n".to_string();
    push_decimal(&mut text, 0);
    push_blanks(&mut text, 2);
    push_decimal(&mut text, 18446744073709551615);
    assert_eq!(text, "n0  18446744073709551615");
}

#[test]
fn characters_are_listed() {
    assert_eq!(chars_of("aé"), vec!['a', 'é']);
}
