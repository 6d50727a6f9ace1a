//! Strings, held against what std does with them.

use auto_commit::ordered::TextMap;
use auto_commit::text::{
    begins_with, bytes_in, bytes_in_char, comes_before, is_blank, joined, line_parts_of, lines_of,
    number, padded_end, padded_start, part_after_last, read_i64, read_u64, same, split_at_byte,
    split_at_first, split_on, trimmed, trimmed_end, trimmed_start, white, words_of,
};

const SAMPLES: [&str; 14] = [
    "",
    " ",
    "a",
    "\n",
    "a\n",
    "a\r\nb",
    "\r",
    "a\r\r\n\nb\n",
    " \u{3000}x y\u{2003}",
    "\u{e9}\u{4e2d}\u{1f600}",
    "one\ttwo\t\tthree",
    "a -> b -> c",
    " -> -> x",
    "//a//b/",
];

#[test]
fn white_space_is_what_unicode_says() {
    for c in (0u32..=0x10_FFFF).filter_map(char::from_u32) {
        assert_eq!(white(c), c.is_whitespace(), "{c:?}");
    }
}

#[test]
fn characters_take_their_bytes() {
    for c in ['a', '\u{7f}', '\u{80}', '\u{7ff}', '\u{800}', '\u{ffff}', '\u{10000}'] {
        assert_eq!(bytes_in_char(c), c.len_utf8());
    }
    for sample in SAMPLES {
        assert_eq!(bytes_in(sample), sample.len());
    }
}

#[test]
fn strings_come_apart_as_in_std() {
    let owned = |parts: Vec<&str>| -> Vec<String> {
        parts.into_iter().map(|part| part.to_owned()).collect()
    };
    for sample in SAMPLES {
        assert_eq!(lines_of(sample), owned(sample.lines().collect()), "{sample:?}");
        assert_eq!(words_of(sample), owned(sample.split_whitespace().collect()), "{sample:?}");
        assert_eq!(split_on(sample, '/'), owned(sample.split('/').collect()), "{sample:?}");
        assert_eq!(
            line_parts_of(sample),
            owned(sample.split_inclusive('\n').collect()),
            "{sample:?}"
        );
        assert_eq!(trimmed(sample), sample.trim());
        assert_eq!(trimmed_start(sample), sample.trim_start());
        assert_eq!(trimmed_end(sample), sample.trim_end());
        assert_eq!(is_blank(sample), sample.trim().is_empty());
        for pattern in ["\n", "\n\n", " -> ", "/", "two", "a"] {
            assert_eq!(
                split_at_first(sample, pattern),
                sample.split_once(pattern).map(|(a, b)| (a.to_owned(), b.to_owned())),
                "{sample:?} {pattern:?}"
            );
            assert_eq!(begins_with(sample, pattern), sample.starts_with(pattern));
            assert_eq!(
                Some(part_after_last(sample, pattern).as_str()),
                sample.rsplit(pattern).next(),
                "{sample:?} {pattern:?}"
            );
        }
        for at in 0..12 {
            assert_eq!(
                split_at_byte(sample, at),
                sample.split_at_checked(at).map(|(a, b)| (a.to_owned(), b.to_owned())),
                "{sample:?} {at}"
            );
        }
    }
}

#[test]
fn strings_are_put_together_as_in_std() {
    let parts = vec!["a".to_owned(), "".to_owned(), "b".to_owned()];
    assert_eq!(joined(&parts, ", "), parts.join(", "));
    assert_eq!(joined(&[], ", "), "");
    for sample in SAMPLES {
        assert_eq!(padded_end(sample, 5), format!("{sample:<5}"));
        assert_eq!(padded_start(sample, 5), format!("{sample:>5}"));
    }
}

#[test]
fn numbers_are_written_and_read_as_in_std() {
    for n in [0u128, 7, 10, 99, 100, 12_345, u64::MAX as u128, u128::MAX] {
        assert_eq!(number(n), n.to_string());
    }
    for text in [
        "", "+", "-", "0", "007", "+5", "-5", "5x", " 5", "18446744073709551615",
        "18446744073709551616", "9223372036854775807", "9223372036854775808",
        "-9223372036854775808", "-9223372036854775809", "--1", "\u{661}",
    ] {
        assert_eq!(read_u64(text), text.parse::<u64>().ok(), "{text:?}");
        assert_eq!(read_i64(text), text.parse::<i64>().ok(), "{text:?}");
    }
}

#[test]
fn texts_are_ordered_as_in_std() {
    for a in SAMPLES {
        for b in SAMPLES {
            assert_eq!(comes_before(a, b), a < b, "{a:?} {b:?}");
            assert_eq!(same(a, b), a == b);
        }
    }
}

#[test]
fn a_map_is_walked_in_the_order_of_its_keys() {
    let mut map: TextMap<usize> = TextMap::new();
    for (index, key) in ["b", "a", "c", "a/b", "a", "\u{e9}"].iter().enumerate() {
        map.insert((*key).to_owned(), index);
    }
    let walked: Vec<(&str, usize)> =
        (0..map.len()).map(|i| (map.key(i).as_str(), *map.value(i))).collect();
    assert_eq!(walked, vec![("a", 4), ("a/b", 3), ("b", 0), ("c", 2), ("\u{e9}", 5)]);
    assert_eq!(map.find("a/b"), Some(&3));
    assert_eq!(map.find("d"), None);
    assert_eq!(map.remove("b"), Some(0));
    assert_eq!(map.remove("b"), None);
    assert_eq!(map.len(), 4);
}
