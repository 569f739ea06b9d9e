use flowroute::sorted::SortedStrings;
use flowroute::text::{
    chars_of, contains_chars, decimal_chars, first_token_chars, lex_less, split_lines,
    string_of, strip_all_prefix_chars, trim_chars,
};

fn chars(s: &str) -> Vec<char> {
    s.chars().collect()
}

fn text(v: &[char]) -> String {
    v.iter().collect()
}

#[test]
fn characters_round_trip() {
    let s = "héllo, wörld ✓";
    assert_eq!(chars_of(s), chars(s));
    assert_eq!(string_of(&chars(s)), s);
    assert_eq!(string_of(&[]), "");
}

#[test]
fn trim_uses_unicode_white_space() {
    assert_eq!(text(&trim_chars(&chars("\u{3000}\t x y \u{a0}\n"))), "x y");
    assert_eq!(text(&trim_chars(&chars(" \u{2028} "))), "");
    assert_eq!(text(&trim_chars(&chars("\u{200b}x"))), "\u{200b}x");
}

#[test]
fn strip_prefix_repeatedly() {
    assert_eq!(text(&strip_all_prefix_chars(&chars("*.*.a.b"), &chars("*."))), "a.b");
    assert_eq!(text(&strip_all_prefix_chars(&chars("a.b"), &chars(""))), "a.b");
}

#[test]
fn decimal_digits() {
    assert_eq!(text(&decimal_chars(0)), "0");
    assert_eq!(text(&decimal_chars(7)), "7");
    assert_eq!(text(&decimal_chars(17890)), "17890");
    assert_eq!(text(&decimal_chars(u64::MAX)), u64::MAX.to_string());
}

#[test]
fn lines_like_str_lines() {
    let inputs = ["a\r\nb\n\nc\r", "", "\n", "x", "x\n", "a\r\r\n", "\r\n\r\n"];
    for s in inputs {
        let got: Vec<String> = split_lines(&chars(s)).iter().map(|l| text(l)).collect();
        let want: Vec<String> = s.lines().map(|l| l.to_string()).collect();
        assert_eq!(got, want, "input {s:?}");
    }
}

#[test]
fn first_token_like_split_whitespace() {
    for s in ["  12 rest", "", "   ", "one", "\t a\u{3000}b"] {
        let got = first_token_chars(&chars(s)).map(|t| text(&t));
        let want = s.split_whitespace().next().map(|t| t.to_string());
        assert_eq!(got, want, "input {s:?}");
    }
}

#[test]
fn substring_search() {
    assert!(contains_chars(&chars("USB Serial Port 2"), &chars("Serial Port")));
    assert!(!contains_chars(&chars("Serial Por"), &chars("Serial Port")));
    assert!(contains_chars(&chars(""), &chars("")));
}

#[test]
fn order_is_string_order() {
    let words = ["", "a", "b", "ab", "aa", "Z", "é", "e", "+.x", "*.x", "'+.a'"];
    for a in words {
        for b in words {
            assert_eq!(lex_less(&chars(a), &chars(b)), a < b, "{a:?} < {b:?}");
        }
    }
}

#[test]
fn sorted_strings_keep_order_and_drop_repeats() {
    let mut set = SortedStrings::new();
    for w in ["pear", "apple", "fig", "apple", "banana", "fig"] {
        set.insert(chars(w));
    }
    let got: Vec<String> = (0..set.len()).map(|i| text(set.get(i))).collect();
    assert_eq!(got, vec!["apple", "banana", "fig", "pear"]);
}
