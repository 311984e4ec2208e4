use diffvibe::order::{order_of, Rank};
use diffvibe::text::{
    chars_of, count_line_tokens, is_whitespace_char, join_with_newlines, split_lines, string_of,
    trim_end_of,
};

#[test]
fn whitespace_is_the_unicode_property() {
    let mut c: u32 = 0;
    while c <= 0x10FFFF {
        if let Some(ch) = char::from_u32(c) {
            assert_eq!(is_whitespace_char(ch), ch.is_whitespace(), "U+{:04X}", c);
        }
        c += 1;
    }
}

#[test]
fn trim_end_matches_std() {
    for s in ["", " ", "a", "a ", "a \t\r\n", " a b ", "\u{3000}x\u{3000}\u{205F}", "x\u{200B}"] {
        assert_eq!(trim_end_of(s), s.trim_end());
    }
    assert_eq!(trim_end_of("line  \n"), "line");
}

#[test]
fn split_lines_matches_std_lines() {
    for s in [
        "", "\n", "a", "a\n", "a\nb", "a\n\nb\n", "a\r\nb", "a\rb", "a\r", "\r\n", "a\n\r\nb",
        "x\r\r\ny", "\n\n\n",
    ] {
        let want: Vec<String> = s.lines().map(|l| l.to_string()).collect();
        assert_eq!(split_lines(s), want, "{:?}", s);
    }
}

#[test]
fn split_lines_exact_values() {
    assert_eq!(split_lines("one\r\ntwo\n\nthree"), vec!["one", "two", "", "three"]);
    assert!(split_lines("").is_empty());
    assert_eq!(split_lines("\n"), vec![""]);
}

#[test]
fn join_puts_one_line_feed_between_lines() {
    let none: Vec<String> = Vec::new();
    assert_eq!(join_with_newlines(&none), "");
    assert_eq!(join_with_newlines(&vec!["a".to_string()]), "a");
    assert_eq!(
        join_with_newlines(&vec!["a".to_string(), "".to_string(), "b".to_string()]),
        "a\n\nb"
    );
}

#[test]
fn chars_and_strings_round_trip() {
    let chars = chars_of("héllo, wörld");
    assert_eq!(chars.len(), 12);
    assert_eq!(string_of(&chars, 0, chars.len()), "héllo, wörld");
    assert_eq!(string_of(&chars, 7, 12), "wörld");
    assert_eq!(string_of(&chars, 3, 3), "");
}

#[test]
fn order_of_is_the_order_of_str() {
    let words = ["", "a", "A", "ab", "abc", "abd", "b", "é", "z", "a/b", "a.b", "a0", "\u{10000}"];
    for x in words {
        for y in words {
            let want = match x.cmp(y) {
                std::cmp::Ordering::Less => Rank::Before,
                std::cmp::Ordering::Equal => Rank::Same,
                std::cmp::Ordering::Greater => Rank::After,
            };
            assert_eq!(order_of(&chars_of(x), &chars_of(y)), want, "{:?} {:?}", x, y);
        }
    }
}

#[test]
fn line_tokens_end_at_every_terminator() {
    for (text, count) in [
        ("", 0),
        ("a", 1),
        ("a\n", 1),
        ("a\nb", 2),
        ("a\r\nb\rc\n", 3),
        ("\r\r\n\n", 3),
        ("x\r", 1),
        ("\n\n\n", 3),
    ] {
        assert_eq!(count_line_tokens(text), count, "{:?}", text);
    }
}
