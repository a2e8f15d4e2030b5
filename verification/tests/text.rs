use std::path::Path;

use kb::letters::{lower_all, lowers_to_word, upper_all, uppers_to_word};
use kb::numeral::{parse_i64, parse_u64, parse_usize, push_i64};
use kb::order::{add_text, sort_texts, text_before};
use kb::path::{
    join_path, path_components, path_file_name, path_has_extension, path_parent_name, path_under, paths_equal, stem_of,
};
use kb::text::{
    chars_of, is_space_char, lines_of, position, last_position, split_char, split_text, string_of, trimmed, words_of,
};
use kb::textmap::TextMap;
use kb::width::{at_least_wide, date_of, fit};

fn shown(v: Vec<&[char]>) -> Vec<String> {
    v.into_iter().map(string_of).collect()
}

fn texts() -> Vec<String> {
    [
        "",
        " ",
        "a",
        "\n",
        "a\n",
        "a\r\nb",
        "a\r\n",
        "\r",
        "a\rb\n\n c",
        "  two words ",
        "\u{2003}em\u{a0}space\u{3000}",
        "caf\u{e9} \u{1f980} x",
        "a -> b -> c",
        "one, two,three, ",
        "\t\u{b}\u{c}x\u{85}y\u{200b}",
    ]
    .iter()
    .map(|s| s.to_string())
    .collect()
}

#[test]
fn white_space_is_what_unicode_says() {
    for c in (0..=0x10FFFFu32).filter_map(char::from_u32) {
        assert_eq!(is_space_char(c), c.is_whitespace(), "{:?}", c);
    }
}

#[test]
fn texts_are_taken_apart_as_usual() {
    for s in texts() {
        let cs = chars_of(&s);
        assert_eq!(string_of(trimmed(&cs)), s.trim(), "{:?}", s);
        assert_eq!(shown(lines_of(&cs)), s.lines().collect::<Vec<&str>>(), "{:?}", s);
        assert_eq!(shown(words_of(&cs)), s.split_whitespace().collect::<Vec<&str>>(), "{:?}", s);
        assert_eq!(shown(split_char(&cs, '\n')), s.split('\n').collect::<Vec<&str>>(), "{:?}", s);
        assert_eq!(shown(split_text(&cs, ", ")), s.split(", ").collect::<Vec<&str>>(), "{:?}", s);
    }
    let s = chars_of("a -> b -> c");
    assert_eq!((position(&s, " -> "), last_position(&s, " -> "), position(&s, "x")), (Some(1), Some(6), None));
}

#[test]
fn only_the_kelvin_sign_has_a_small_ascii_letter_outside_ascii() {
    for c in (0x80..=0x10FFFFu32).filter_map(char::from_u32) {
        let lower: String = c.to_lowercase().collect();
        assert_eq!(lower.is_ascii(), c == '\u{212A}', "{:?}", c);
        let upper: String = c.to_uppercase().collect();
        if upper.is_ascii() && upper.len() == 1 {
            assert!(c == '\u{131}' || c == '\u{17f}', "{:?}", c);
        }
    }
    assert!(lowers_to_word(&chars_of("\u{212A}nOWn"), "known"));
    assert!(uppers_to_word(&chars_of("\u{17f}hown"), "SHOWN"));
    assert!(!lowers_to_word(&chars_of("known"), "knowns"));
    assert_eq!(string_of(&lower_all(&chars_of("A\u{c9}z"))), "a\u{c9}z");
    assert_eq!(string_of(&upper_all(&chars_of("a\u{e9}Z"))), "A\u{e9}Z");
}

#[test]
fn numerals_are_read_as_usual() {
    for s in [
        "", "+", "-", "0", "007", "+5", "-5", "--5", " 5", "5 ", "9223372036854775807", "9223372036854775808",
        "-9223372036854775808", "-9223372036854775809", "18446744073709551615", "18446744073709551616", "-0", "1_0",
        "\u{661}",
    ] {
        let cs = chars_of(s);
        assert_eq!(parse_i64(&cs), s.parse::<i64>().ok(), "{:?}", s);
        assert_eq!(parse_u64(&cs), s.parse::<u64>().ok(), "{:?}", s);
        assert_eq!(parse_usize(&cs), s.parse::<usize>().ok(), "{:?}", s);
    }
    for n in [0, 7, -1, i64::MAX, i64::MIN] {
        let mut out: Vec<char> = Vec::new();
        push_i64(&mut out, n);
        assert_eq!(string_of(&out), n.to_string());
        assert_eq!(parse_i64(&out), Some(n));
    }
}

#[test]
fn texts_are_ordered_as_usual() {
    let mut v: Vec<String> = texts();
    v.extend(["Z", "z", "\u{ffff}", "\u{10000}", "a/b", "a-b", "a"].iter().map(|s| s.to_string()));
    for a in &v {
        for b in &v {
            assert_eq!(text_before(a, b), a < b, "{:?} {:?}", a, b);
        }
    }
    let mut expected = v.clone();
    expected.sort();
    assert_eq!(sort_texts(&v), expected);
    let mut set: Vec<String> = Vec::new();
    for s in &v {
        add_text(&mut set, s);
    }
    expected.dedup();
    assert_eq!(set, expected);
}

#[test]
fn paths_are_taken_apart_as_usual() {
    let paths = [
        "", "/", ".", "..", "a", "/a", "a/", "a//b", "./a", "a/./b", "a/../b", "/a/b.tar.gz", ".hidden", "a/.x", "a/b/..",
        "a.", "/.", "//a",
    ];
    for p in paths {
        let std_components: Vec<String> =
            Path::new(p).components().map(|c| c.as_os_str().to_string_lossy().into_owned()).collect();
        assert_eq!(path_components(p), std_components, "{:?}", p);
        let name = Path::new(p).file_name().map(|n| n.to_string_lossy().into_owned());
        assert_eq!(path_file_name(p), name, "{:?}", p);
        let parent = Path::new(p).parent().and_then(|q| q.file_name()).map(|n| n.to_string_lossy().into_owned());
        assert_eq!(path_parent_name(p), parent, "{:?}", p);
        if let Some(n) = name {
            assert_eq!(Some(stem_of(&n)), Path::new(p).file_stem().map(|s| s.to_string_lossy().into_owned()), "{:?}", p);
        }
        for ext in ["gz", "x", "sh", ""] {
            let same = Path::new(p).extension().and_then(|e| e.to_str()) == Some(ext);
            assert_eq!(path_has_extension(p, ext), same, "{:?} {:?}", p, ext);
        }
        for q in paths {
            assert_eq!(paths_equal(p, q), Path::new(p) == Path::new(q), "{:?} {:?}", p, q);
            assert_eq!(path_under(p, q), Path::new(p).starts_with(q), "{:?} {:?}", p, q);
            assert_eq!(join_path(p, q), Path::new(p).join(q).to_string_lossy(), "{:?} {:?}", p, q);
        }
    }
}

#[test]
fn a_map_keeps_its_keys_in_order() {
    let mut m: TextMap<u32> = TextMap::new();
    assert!(m.is_empty());
    for (k, v) in [("b", 1), ("a", 2), ("c", 3), ("a", 4)] {
        m.insert(k.to_string(), v);
    }
    let entries: Vec<(String, u32)> = (0..m.len()).map(|i| (m.key_at(i).to_string(), *m.value_at(i))).collect();
    assert_eq!(entries, vec![("a".to_string(), 4), ("b".to_string(), 1), ("c".to_string(), 3)]);
    assert_eq!((m.get("c"), m.get("d"), m.contains_key("b")), (Some(&3), None, true));
}

#[test]
fn widths_are_counted_in_bytes() {
    let s = chars_of("a\u{e9}\u{5b57}\u{1f980}");
    for n in 0..12 {
        let text = string_of(&s);
        let mut cut = n.min(text.len());
        while !text.is_char_boundary(cut) {
            cut -= 1;
        }
        assert_eq!(string_of(fit(&s, n)), &text[..cut], "{}", n);
        assert_eq!(at_least_wide(&s, n), text.len() >= n, "{}", n);
    }
    for stamp in ["2026-09-08T10:00:00Z", "2026", "2026-09-0\u{e9}", "\u{e9}\u{e9}\u{e9}\u{e9}\u{e9}x"] {
        assert_eq!(string_of(date_of(&chars_of(stamp))), stamp.get(..10).unwrap_or(stamp), "{:?}", stamp);
    }
}
