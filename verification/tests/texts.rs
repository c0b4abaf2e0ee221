//! Texts against the strings of the standard library.

use captain::names::NameMap;
use captain::order::comes_before;
use captain::text::{
    chars_of, decimal_chars, joined, parse_unsigned, split_at_char, squeezed, string_of, trimmed,
    trimmed_end, white_space,
};

#[test]
fn white_space_is_that_of_the_standard_library() {
    for code in 0..=0x10ffffu32 {
        if let Some(c) = char::from_u32(code) {
            assert_eq!(white_space(c), c.is_whitespace(), "{code:x}");
        }
    }
}

#[test]
fn texts_survive_the_way_through_characters() {
    for text in ["", "schema", "sch\u{e9}ma \u{1f4dc}"] {
        assert_eq!(string_of(&chars_of(text)), text);
    }
}

#[test]
fn trimming_is_that_of_the_standard_library() {
    for text in ["", "  ", " a b\t\n", "\u{a0}x\u{3000}", "x", "\r\nx y\u{85}"] {
        let chars = chars_of(text);
        assert_eq!(string_of(trimmed(&chars)), text.trim());
        assert_eq!(string_of(trimmed_end(&chars)), text.trim_end());
    }
}

#[test]
fn white_space_goes_once_and_for_all() {
    let once = string_of(&squeezed(" List ( UInt64\t) "));
    assert_eq!(once, "List(UInt64)");
    assert_eq!(string_of(&squeezed(once.as_str())), once);
}

#[test]
fn pieces_are_those_of_the_standard_library() {
    for text in ["", "/", "a/b", "/a//b/"] {
        let expected: Vec<&str> = text.split('/').collect();
        let found: Vec<String> =
            split_at_char(&chars_of(text), '/').iter().map(|piece| string_of(piece)).collect();
        assert_eq!(found, expected);
    }
}

#[test]
fn numbers_are_read_as_by_the_standard_library() {
    for text in [
        "", "0", "7", "42", "+7", "-7", "+", "007", "4294967295", "4294967296", "99999999999",
        "1a", " 1",
    ] {
        assert_eq!(parse_unsigned(&chars_of(text)), text.parse::<u32>().ok(), "{text:?}");
    }
}

#[test]
fn printed_numbers_read_back() {
    for n in [0u32, 1, 9, 10, 65535, 4294967295] {
        let printed = decimal_chars(n);
        assert_eq!(string_of(&printed), n.to_string());
        assert_eq!(parse_unsigned(&printed), Some(n));
    }
}

#[test]
fn joining_puts_the_separator_between() {
    let parts = vec!["a".to_owned(), "b".to_owned(), "c".to_owned()];
    assert_eq!(joined(&parts, ", "), "a, b, c");
    assert_eq!(joined(&[], ", "), "");
}

#[test]
fn texts_are_ordered_as_strings() {
    let samples = ["", "a", "ab", "b", "A", "\u{e9}", "z", "\u{1f4dc}", "\u{ffff}"];
    for a in samples {
        for b in samples {
            assert_eq!(comes_before(a, b), a < b, "{a:?} {b:?}");
        }
    }
}

#[test]
fn names_are_listed_in_order() {
    let mut map: NameMap<u32> = NameMap::new();
    map.insert("b".to_owned(), 1);
    map.insert("a".to_owned(), 2);
    map.insert("c".to_owned(), 3);
    map.insert("b".to_owned(), 4);
    assert_eq!(map.len(), 3);
    assert_eq!(map.get("b"), Some(&4));
    assert_eq!(map.get("d"), None);
    assert!(map.contains_key("a"));
    assert_eq!(map.remove("a"), Some(2));
    assert_eq!(map.remove("a"), None);
    assert_eq!(map.entry(0), (&"b".to_owned(), &4));
    assert_eq!(map.clone(), map);
    assert_eq!(map.into_entries(), vec![("b".to_owned(), 4), ("c".to_owned(), 3)]);
}
