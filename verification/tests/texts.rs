//! Words, lines, numbers and order.

use beb_courier::fail::{nothing, refused, Fail};
use beb_courier::number::{decimal_of, number_in};
use beb_courier::order::sort;
use beb_courier::report::note;
use beb_courier::routes::{is_address, plural, shown, trim_to};
use beb_courier::table::count_of;
use beb_courier::text::{
    cut_word, has_char, has_part, has_prefix, same, space, split_lines, split_words, trimmed,
    without_prefix,
};

const SAMPLES: [&str; 16] = [
    "",
    " ",
    "a",
    " a ",
    "a  b\tc",
    "\u{3000}x\u{a0}y\u{2028}",
    "one\ntwo\n",
    "one\r\ntwo\r",
    "\n\n",
    "a\r\n\r\nb",
    "\u{85}z\u{1680}",
    "\u{200b}q",
    "\u{1f}q\u{b}r",
    "ends with space \n",
    "no end",
    "é ü\u{205f}ß",
];

#[test]
fn text_is_read_as_std_reads_it() {
    for s in SAMPLES {
        assert_eq!(trimmed(s), s.trim());
        assert_eq!(split_words(s), s.split_whitespace().collect::<Vec<_>>());
        assert_eq!(split_lines(s), s.lines().collect::<Vec<_>>());
        assert_eq!(cut_word(s).map(|(w, _)| w), s.split_whitespace().next());
        for t in SAMPLES {
            assert_eq!(has_prefix(s, t), s.starts_with(t));
            assert_eq!(without_prefix(s, t), s.strip_prefix(t));
            assert_eq!(has_part(s, t), s.contains(t));
            assert_eq!(same(s, t), s == t);
        }
        for c in ['a', '\n', ' ', 'é', '\u{3000}'] {
            assert_eq!(has_char(s, c), s.contains(c));
        }
    }
}

#[test]
fn whitespace_is_unicodes() {
    for n in 0..0x3100u32 {
        if let Some(c) = char::from_u32(n) {
            assert_eq!(space(c), c.is_whitespace());
        }
    }
}

#[test]
fn a_word_is_cut_off_with_what_follows() {
    assert_eq!(cut_word("  ab  cd e "), Some(("ab", "  cd e ")));
    assert_eq!(cut_word("ab"), Some(("ab", "")));
    assert_eq!(cut_word(" \t"), None);
}

#[test]
fn numbers_are_written_and_read() {
    for n in [0, 7, 10, 99, 1234567890, u64::MAX] {
        assert_eq!(decimal_of(n), n.to_string());
        assert_eq!(number_in(&decimal_of(n)), Some(n));
    }
    for s in ["", "+", "-1", "1 ", "0x1", "18446744073709551616", "٣"] {
        assert_eq!(number_in(s), None);
        assert!(s.parse::<u64>().is_err());
    }
    assert_eq!(number_in("+5"), Some(5));
    assert_eq!(number_in("007"), Some(7));
}

#[test]
fn names_are_sorted_as_std_sorts_them() {
    let names: Vec<String> =
        ["b", "a", "", "ab", "a", "Z", "é", "\u{10000}", "\u{ffff}", "aa"]
            .iter()
            .map(|s| s.to_string())
            .collect();
    let mut want = names.clone();
    want.sort();
    assert_eq!(sort(&names), want);
}

#[test]
fn an_address_is_sixty_four_lower_case_digits() {
    assert!(is_address(&"0a".repeat(32)));
    assert!(is_address("0123456789abcdef0123456789abcdef0123456789abcdef0123456789abcdef"));
    assert!(!is_address(&"A".repeat(64)));
    assert!(!is_address(&"g".repeat(64)));
    assert!(!is_address(&"a".repeat(63)));
    assert!(!is_address(&"a".repeat(65)));
    assert!(!is_address(&"é".repeat(32)));
    assert!(!is_address(""));
}

#[test]
fn long_things_are_cut_with_an_ellipsis() {
    assert_eq!(trim_to("abcdef", 3), "abc…");
    assert_eq!(trim_to("abc", 3), "abc");
    assert_eq!(trim_to("éüßx", 3), "éüß…");
    assert_eq!(trim_to("", 0), "");
    assert_eq!(trim_to("a", 0), "…");
}

#[test]
fn one_is_not_many() {
    assert_eq!(plural(1, "route", "routes"), "route");
    assert_eq!(plural(0, "route", "routes"), "routes");
    assert_eq!(count_of(2, "route", "routes"), "2 routes");
    assert_eq!(count_of(1, "route", "routes"), "1 route");
}

#[test]
fn a_route_without_an_address_is_for_everything_else() {
    assert_eq!(shown(&None), "everything else");
    assert_eq!(shown(&Some("ab".to_string())), "ab");
}

#[test]
fn every_line_said_is_signed() {
    assert_eq!(note("one"), "beb-courier: one\n");
    assert_eq!(note("one\ntwo\r\n\nfour"), "beb-courier: one\nbeb-courier: two\nbeb-courier: \nbeb-courier: four\n");
    assert_eq!(note(""), "");
}

#[test]
fn exit_codes() {
    assert_eq!(refused("no".to_string()).code, 3);
    assert_eq!(nothing("no".to_string()).code, 2);
    assert_eq!(Fail::from("no").code, 1);
    assert_eq!(Fail::from("no".to_string()).code, 1);
    assert_eq!(Fail::from("no").msg, "no");
}
