use anonymous_corpus::ids::CardScriptId;
use anonymous_corpus::letters::{lowered, to_ascii_lowercase, to_ascii_uppercase};
use anonymous_corpus::maps::TextMap;
use anonymous_corpus::numerals::{append_decimal, append_hex, append_padded_key, read_number};
use anonymous_corpus::order::{bytes_of, is_longer_first, less};
use anonymous_corpus::sorting::sort_longest_first;
use anonymous_corpus::tables::{column_index, field, fields_of};
use anonymous_corpus::text::{
    chars_of, halves, joined, last_halves, line_slices, pieces, position_of, replaced_char,
    replaced_str, string_of, trimmed, white_space,
};
use anonymous_corpus::words::{words_of, Gap};

fn text(chars: &[char]) -> String {
    string_of(chars)
}

#[test]
fn white_space_is_that_of_unicode() {
    for c in (0..=0x10ffff).filter_map(char::from_u32) {
        assert_eq!(white_space(c), c.is_whitespace(), "{c:?}");
    }
}

const SAMPLES: [&str; 14] = [
    "",
    " ",
    "abc",
    " a b ",
    "a|b||c",
    "|",
    "a\nb\r\nc",
    "a\n",
    "\n\n",
    "a\r",
    "\r\n",
    "x=1=2",
    "日本 語\u{3000}",
    "aaaa",
];

#[test]
fn texts_are_cut_as_strings_are() {
    for sample in SAMPLES {
        let chars = chars_of(sample);
        assert_eq!(text(&chars), sample);
        assert_eq!(text(trimmed(&chars)), sample.trim());
        let lines: Vec<String> = line_slices(&chars).into_iter().map(text).collect();
        assert_eq!(lines, sample.lines().collect::<Vec<_>>());
        let parts: Vec<String> = pieces(&chars, '|').into_iter().map(text).collect();
        assert_eq!(parts, sample.split('|').collect::<Vec<_>>());
        let first = halves(&chars, '=').map(|(left, right)| (text(left), text(right)));
        assert_eq!(first, sample.split_once('=').map(|(l, r)| (l.to_owned(), r.to_owned())));
        let last = last_halves(&chars, '=').map(|(left, right)| (text(left), text(right)));
        assert_eq!(last, sample.rsplit_once('=').map(|(l, r)| (l.to_owned(), r.to_owned())));
        assert_eq!(text(&replaced_str(&chars, "aa", "b")), sample.replace("aa", "b"));
        assert_eq!(text(&replaced_char(&chars, 'a', '_')), sample.replace('a', "_"));
        let words: Vec<String> = words_of(&chars, Gap::WhiteSpace).iter().map(|word| text(word)).collect();
        assert_eq!(words, sample.split_whitespace().collect::<Vec<_>>());
        let runs: Vec<String> = words_of(&chars, Gap::NotAlphanumeric).iter().map(|word| text(word)).collect();
        let expected: Vec<&str> = sample
            .split(|c: char| !c.is_alphanumeric())
            .filter(|word| !word.is_empty())
            .collect();
        assert_eq!(runs, expected);
        assert_eq!(bytes_of(&chars), sample.len() as u128);
    }
    assert_eq!(position_of(&chars_of("xaay"), "aa"), Some(1));
    assert_eq!(position_of(&chars_of("xaay"), "ab"), None);
    assert_eq!(text(&joined(&vec![chars_of("a"), chars_of(""), chars_of("b")], ", ")), "a, , b");
}

#[test]
fn cases_are_those_of_the_standard_library() {
    for sample in ["ABC", "Straße", "İstanbul", "ΑΣ", "x"] {
        let chars = chars_of(sample);
        let expected: String = sample.chars().flat_map(char::to_lowercase).collect();
        assert_eq!(text(&lowered(&chars)), expected);
        assert_eq!(text(&to_ascii_lowercase(&chars)), sample.to_ascii_lowercase());
        assert_eq!(text(&to_ascii_uppercase(&chars)), sample.to_ascii_uppercase());
    }
}

#[test]
fn numbers_are_read_and_written() {
    for sample in ["0", "7", "+12", "007", "4294967295", "4294967296", "", "+", "-1", "1 ", "٣"] {
        assert_eq!(
            read_number(&chars_of(sample), 0xffff_ffff),
            sample.parse::<u32>().ok().map(u64::from),
            "{sample}"
        );
    }
    for n in [0u64, 9, 10, 4_294_967_295, u64::MAX] {
        let mut out = Vec::new();
        append_decimal(&mut out, n);
        assert_eq!(text(&out), n.to_string());
        assert_eq!(read_number(&out, u64::MAX), Some(n));
    }
    for n in [0u32, 123, 12_345_678, 4_294_967_295] {
        let mut out = Vec::new();
        append_padded_key(&mut out, n);
        assert_eq!(text(&out), format!("{n:08}"));
    }
    let mut out = Vec::new();
    append_hex(&mut out, &[0, 15, 16, 255]);
    assert_eq!(text(&out), "000f10ff");
}

#[test]
fn texts_are_ordered_as_strings_are() {
    for left in SAMPLES {
        for right in SAMPLES {
            assert_eq!(less(&chars_of(left), &chars_of(right)), left < right);
            let longer = left.len() > right.len() || (left.len() == right.len() && left < right);
            assert_eq!(is_longer_first(left, right), longer);
        }
    }
    let names = ["b", "日", "aaa", "a", "cc"];
    let rows = names.map(|name| (name.to_owned(), CardScriptId(1))).to_vec();
    let sorted: Vec<String> = sort_longest_first(rows).into_iter().map(|row| row.0).collect();
    assert_eq!(sorted, ["aaa", "日", "cc", "a", "b"]);
}

#[test]
fn maps_keep_their_keys_in_order() {
    let mut map = TextMap::new();
    for (key, value) in [("b", 1), ("a", 2), ("c", 3), ("a", 4)] {
        map.insert(key.to_owned(), value);
    }
    assert_eq!(map.len(), 3);
    assert_eq!(map.keys(), ["a", "b", "c"]);
    assert_eq!(map.get("a"), Some(&4));
    assert_eq!(map.get("d"), None);
    assert_eq!(map.remove("b"), Some(1));
    assert_eq!(map.remove("b"), None);
    assert_eq!(map.into_rows(), vec![("a".to_owned(), 4), ("c".to_owned(), 3)]);
}

#[test]
fn tables_have_columns_and_fields() {
    let columns = fields_of(&chars_of("a\tb\t\ta"));
    assert_eq!(columns, ["a", "b", "", "a"]);
    assert_eq!(column_index(&columns, "a").ok(), Some(0));
    assert_eq!(column_index(&columns, "").ok(), Some(2));
    assert_eq!(column_index(&columns, "x").err().unwrap().name, "x");
    assert_eq!(field(&columns, 1, 9, "b").ok().unwrap(), "b");
    let missing = field(&columns, 4, 9, "b").err().unwrap();
    assert_eq!((missing.line, missing.name.as_str()), (9, "b"));
}
