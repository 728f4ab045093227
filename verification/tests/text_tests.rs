use aur_check_rebuild::text::{chars_of, join, sort_strings, string_le, string_of, trim_bounds, split_lines, is_whitespace};

fn strings(xs: &[&str]) -> Vec<String> {
    xs.iter().map(|x| x.to_string()).collect()
}

#[test]
fn lines_follow_str_lines() {
    for text in ["", "a", "a\n", "a\r\nb", "a\n\nb\r", "\r\n", "x\ny\n\n", "é\u{2028}z\n"] {
        let cs = chars_of(text);
        let got: Vec<String> = split_lines(&cs).iter().map(|(lo, hi)| string_of(&cs, *lo, *hi)).collect();
        let want: Vec<String> = text.lines().map(|l| l.to_string()).collect();
        assert_eq!(got, want, "{:?}", text);
    }
}

#[test]
fn trim_follows_str_trim() {
    for text in ["", "  ", " a b ", "\t\u{3000}x\u{a0}", "\u{85}y\u{200b}", "%%k%%"] {
        let cs = chars_of(text);
        let (a, b) = trim_bounds(&cs, 0, cs.len(), false);
        assert_eq!(string_of(&cs, a, b), text.trim(), "{:?}", text);
        let (c, d) = trim_bounds(&cs, 0, cs.len(), true);
        assert_eq!(string_of(&cs, c, d), text.trim_matches('%'), "{:?}", text);
    }
}

#[test]
fn whitespace_follows_char_is_whitespace() {
    for c in ['\t', '\n', '\u{b}', '\u{c}', '\r', ' ', '\u{85}', '\u{a0}', '\u{1680}', '\u{2000}', '\u{200a}', '\u{200b}', '\u{2028}', '\u{2029}', '\u{202f}', '\u{205f}', '\u{3000}', 'a', '\u{feff}'] {
        assert_eq!(is_whitespace(c), c.is_whitespace(), "{:?}", c);
    }
}

#[test]
fn join_follows_slice_join() {
    assert_eq!(join(&strings(&[]), ", "), "");
    assert_eq!(join(&strings(&["a"]), ", "), "a");
    assert_eq!(join(&strings(&["a", "b", "c"]), ", "), "a, b, c");
}

#[test]
fn strings_are_ordered_like_string_ord() {
    let words = ["", "a", "ab", "b", "B", "é", "z", "\u{1f600}", "ab\u{0}"];
    for x in words {
        for y in words {
            assert_eq!(string_le(&x.to_string(), &y.to_string()), x <= y, "{:?} {:?}", x, y);
        }
    }
    let mut expected = strings(&words);
    expected.sort();
    assert_eq!(sort_strings(strings(&words)), expected);
}

#[test]
fn sorting_any_arrangement_gives_one_order() {
    let a = sort_strings(strings(&["c", "a", "b", "a"]));
    let b = sort_strings(strings(&["a", "b", "a", "c"]));
    assert_eq!(a, b);
    assert_eq!(sort_strings(a.clone()), a);
}
