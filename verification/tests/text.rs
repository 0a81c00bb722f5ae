use text_read::text::{
    char_is_whitespace, chars_of, lines, matches_at, push_decimal, replace, same_text, split,
    string_of, string_of_range, trim_range,
};

fn chars(s: &str) -> Vec<char> {
    s.chars().collect()
}

#[test]
fn whitespace_is_what_std_calls_whitespace() {
    let mut code: u32 = 0;
    while code <= 0x10FFFF {
        if let Some(c) = char::from_u32(code) {
            assert_eq!(char_is_whitespace(c), c.is_whitespace(), "U+{:04X}", code);
        }
        code += 1;
    }
}

#[test]
fn chars_and_strings_convert_both_ways() {
    let v = chars_of("aé日\u{1F600}");
    assert_eq!(v, vec!['a', 'é', '日', '\u{1F600}']);
    assert_eq!(string_of(&v), "aé日\u{1F600}");
    assert_eq!(string_of_range(&v, 1, 3), "é日");
    assert_eq!(string_of_range(&v, 2, 2), "");
}

#[test]
fn trimming_agrees_with_std() {
    for s in ["", "   ", "a", "  a b \t\r\n", "\u{3000}x\u{a0}", "no-space", " \n "] {
        let v = chars(s);
        let (a, b) = trim_range(&v, 0, v.len());
        assert_eq!(string_of_range(&v, a, b), s.trim(), "{:?}", s);
    }
}

#[test]
fn trimming_a_piece_stays_within_the_piece() {
    let v = chars("ab  cd  ef");
    let (a, b) = trim_range(&v, 2, 8);
    assert_eq!((a, b), (4, 6));
    let (a, b) = trim_range(&v, 2, 4);
    assert_eq!(a, b);
}

#[test]
fn texts_are_the_same_or_not() {
    assert!(same_text(&chars("abc"), &chars("abc")));
    assert!(same_text(&chars(""), &chars("")));
    assert!(!same_text(&chars("abc"), &chars("abd")));
    assert!(!same_text(&chars("abc"), &chars("ab")));
    assert!(!same_text(&chars("ab"), &chars("abc")));
}

#[test]
fn splitting_agrees_with_std() {
    for s in ["", "/", "a", "a/b", "/a//b/", "target/backup", "a\\b/c"] {
        let got: Vec<String> = split(&chars(s), '/').iter().map(string_of).collect();
        let want: Vec<String> = s.split('/').map(|p| p.to_string()).collect();
        assert_eq!(got, want, "{:?}", s);
    }
}

#[test]
fn matching_at_an_index() {
    let hay = chars("hello");
    assert!(matches_at(&hay, 1, &chars("ell")));
    assert!(!matches_at(&hay, 2, &chars("ell")));
    assert!(matches_at(&hay, 5, &chars("")));
    assert!(!matches_at(&hay, 6, &chars("")));
    assert!(!matches_at(&hay, 3, &chars("low")));
}

#[test]
fn replacing_a_character() {
    assert_eq!(replace(&chars("a\\b\\c"), '\\', '/'), chars("a/b/c"));
    assert_eq!(replace(&chars("abc"), '\\', '/'), chars("abc"));
    assert_eq!(replace(&chars(""), '\\', '/'), chars(""));
}

#[test]
fn lines_are_the_pieces_between_line_feeds() {
    let got: Vec<String> = lines(&chars("a\n\nb\n")).iter().map(string_of).collect();
    assert_eq!(got, vec!["a", "", "b", ""]);
    let got: Vec<String> = lines(&chars("")).iter().map(string_of).collect();
    assert_eq!(got, vec![""]);
    let got: Vec<String> = lines(&chars("one")).iter().map(string_of).collect();
    assert_eq!(got, vec!["one"]);
    let got: Vec<String> = lines(&chars("a\r\nb")).iter().map(string_of).collect();
    assert_eq!(got, vec!["a\r", "b"]);
}

#[test]
fn numbers_are_written_in_decimal() {
    for n in [0usize, 1, 9, 10, 11, 99, 100, 101, 50_000, 1234567890, usize::MAX] {
        let mut s = String::from("n=");
        push_decimal(&mut s, n);
        assert_eq!(s, format!("n={}", n));
    }
}
