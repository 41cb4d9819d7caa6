use vajra::assoc::AssocMap;
use vajra::bytes::{
    copy, copy_range, push_i64_le, push_u32_le, push_u64_le, push_words, read_i64_le, read_u32_le,
    read_u64_le, read_words,
};
use vajra::schema::{index_of, project, Field};
use vajra::text::{
    contains_text, ends_with, eq_ignore_ascii_case, from_chars, parse_i32, parse_u64,
    parse_u64_up_to, push_decimal, push_signed_decimal, rsplit_once, split, str_eq, strip_prefix,
    to_chars, trim, trim_start, u64_to_text,
};

#[test]
fn bytes_are_little_endian() {
    let mut out = vec![];
    push_u32_le(&mut out, 0x0102_0304);
    push_u64_le(&mut out, 0x0102_0304_0506_0708);
    push_i64_le(&mut out, -2);
    assert_eq!(out[..4], [4, 3, 2, 1]);
    assert_eq!(out[4..12], [8, 7, 6, 5, 4, 3, 2, 1]);
    assert_eq!(read_u32_le(&out, 0), 0x0102_0304);
    assert_eq!(read_u64_le(&out, 4), 0x0102_0304_0506_0708);
    assert_eq!(read_i64_le(&out, 12), -2);
    let mut words = vec![0xff];
    push_words(&mut words, &[1, u64::MAX]);
    assert_eq!(words.len(), 17);
    assert_eq!(read_words(&words, 1, 2), vec![1, u64::MAX]);
    assert_eq!(copy(&words), words);
    assert_eq!(copy_range(&words, 0, 2), vec![0xff, 1]);
}

#[test]
fn numbers_are_read_as_std_reads_them() {
    for s in ["0", "7", "+7", "007", "18446744073709551615"] {
        assert_eq!(parse_u64(s), s.parse::<u64>().ok());
    }
    for s in ["", "+", "-1", "1 ", " 1", "1_0", "18446744073709551616", "a"] {
        assert_eq!(parse_u64(s), None);
        assert!(s.parse::<u64>().is_err());
    }
    for s in ["-2147483648", "2147483647", "+3", "-0", "-", "2147483648", "-2147483649", "x"] {
        assert_eq!(parse_i32(s), s.parse::<i32>().ok());
    }
    assert_eq!(parse_u64_up_to("10", 9), None);
    assert_eq!(parse_u64_up_to("9", 9), Some(9));
}

#[test]
fn numbers_are_written_in_decimal() {
    assert_eq!(u64_to_text(0), "0");
    assert_eq!(u64_to_text(u64::MAX), "18446744073709551615");
    let mut out = "n=".to_string();
    push_decimal(&mut out, 120);
    push_signed_decimal(&mut out, i64::MIN);
    push_signed_decimal(&mut out, 5);
    assert_eq!(out, "n=120-92233720368547758085");
}

#[test]
fn texts_are_cut_and_compared() {
    assert_eq!(split("a,,b", ','), vec!["a", "", "b"]);
    assert_eq!(split("", ','), vec![""]);
    assert_eq!(rsplit_once("a:b:c", ':'), Some(("a:b".to_string(), "c".to_string())));
    assert_eq!(rsplit_once("abc", ':'), None);
    assert_eq!(strip_prefix("prefix", "pre").as_deref(), Some("fix"));
    assert_eq!(strip_prefix("prefix", "fix"), None);
    assert!(ends_with("prefix", "fix"));
    assert!(!ends_with("fix", "prefix"));
    assert!(contains_text("abcd", "bc"));
    assert!(!contains_text("abcd", "cb"));
    assert!(contains_text("", ""));
    assert!(str_eq("é", "é"));
    assert!(!str_eq("a", "b"));
    assert!(eq_ignore_ascii_case("Earliest", "eARLIEST"));
    assert!(!eq_ignore_ascii_case("É", "é"));
    assert_eq!(trim("\u{2003} a b\t\n"), "a b");
    assert_eq!(trim_start("  a "), "a ");
    let chars = to_chars("héllo");
    assert_eq!(from_chars(&chars, 1, 3), "él");
}

#[test]
fn columns_are_found_and_projected_by_position() {
    let fields =
        vec![Field::new("a", 1, true), Field::new("b", 2, false), Field::new("a", 3, true)];
    assert_eq!(index_of(&fields, "a"), Some(0));
    assert_eq!(index_of(&fields, "c"), None);
    let picked = project(&fields, &[2, 1]).ok().unwrap();
    assert_eq!(picked.iter().map(|f| f.data_type).collect::<Vec<_>>(), vec![3, 2]);
    assert!(matches!(project(&fields, &[0, 3]), Err(3)));
}

#[test]
fn maps_keep_one_value_for_each_key() {
    let mut map: AssocMap<String, u8> = AssocMap::new();
    map.insert("a".to_string(), 1);
    map.insert("b".to_string(), 2);
    map.insert("a".to_string(), 3);
    assert_eq!(map.len(), 2);
    assert_eq!(map.get("a"), Some(&3));
    assert_eq!(map.remove(&"a".to_string()), Some(3));
    assert_eq!(map.remove(&"a".to_string()), None);
    assert_eq!(map.get("b"), Some(&2));
}
