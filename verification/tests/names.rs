//! Host names: their form and their order.

use ctlog::{entry_hostnames, is_control, is_whitespace, without_apex, CrtShEntry};

fn hosts(value: &str) -> Vec<String> {
    entry_hostnames(&vec![CrtShEntry { name_value: value.to_string() }])
}

#[test]
fn character_classes_are_those_of_unicode() {
    for n in 0..=0x10ffffu32 {
        if let Some(c) = char::from_u32(n) {
            assert_eq!(is_whitespace(c), c.is_whitespace(), "U+{n:04X}");
            assert_eq!(is_control(c), c.is_control(), "U+{n:04X}");
        }
    }
}

#[test]
fn names_are_in_the_order_of_strings() {
    let raw = [
        "b.x", "a.x", "a-b.x", "a.x.y", "z", "ab", "a", "\u{e9}.x", "\u{ffff}.x", "\u{10000}.x",
        "e.x", "10.x", "9.x", "_a.x", "a", "b.x", "\u{7f0}.x", "\u{800}.x",
    ];
    let mut expected: Vec<String> = raw.iter().map(|s| s.to_string()).collect();
    expected.sort();
    expected.dedup();
    assert_eq!(hosts(&raw.join("\n")), expected);
}

#[test]
fn long_lists_are_sorted_and_deduplicated() {
    let mut raw: Vec<String> = Vec::new();
    let mut n: u64 = 1;
    for _ in 0..5000 {
        n = n * 48271 % 2147483647;
        raw.push(format!("h{}.example.com", n % 3000));
    }
    let mut expected = raw.clone();
    expected.sort();
    expected.dedup();
    assert_eq!(hosts(&raw.join("\n")), expected);
}

#[test]
fn only_ascii_letters_change_case() {
    assert_eq!(hosts("\u{c9}COLE.FR"), ["\u{c9}cole.fr"]);
    assert_eq!(hosts("AZaz@"), Vec::<String>::new());
    assert_eq!(hosts("AZ[`az{.x"), ["az[`az{.x"]);
}

#[test]
fn all_leading_wildcards_and_surrounding_dots_are_stripped() {
    assert_eq!(hosts("*.*.api.example.com.."), ["api.example.com"]);
    assert_eq!(hosts(".*.a.x."), ["a.x"]);
    assert_eq!(hosts("a.*.x"), Vec::<String>::new());
    assert_eq!(hosts("*a.x"), Vec::<String>::new());
}

#[test]
fn what_cannot_be_a_host_is_left_out() {
    for bad in [
        "", " ", ".", "*", "*.", "a..b", "a b", "a\tb", "a\u{a0}b", "a\u{7f}b", "a\u{9f}b",
        "a/b", "a:1", "u@a", "x .", "*. x", "a\rb",
    ] {
        assert_eq!(hosts(bad), Vec::<String>::new(), "{bad:?}");
    }
    assert_eq!(hosts("a\r\nb"), ["a", "b"]);
}

#[test]
fn listing_a_list_gives_the_same_list() {
    let list = hosts("*.B.x\n c.x. \nA.x\n..\nb.x");
    assert_eq!(list, ["a.x", "b.x", "c.x"]);
    assert_eq!(hosts(&list.join("\n")), list);
}

#[test]
fn apex_is_left_out_however_it_was_typed() {
    let list = hosts("example.com\na.example.com\nexample.com.evil");
    for domain in ["example.com", "EXAMPLE.com", " *.Example.Com. ", "..example.com", "*.*.example.com"] {
        assert_eq!(without_apex(&list, domain), ["a.example.com", "example.com.evil"]);
    }
    assert_eq!(without_apex(&list, ""), list);
    assert_eq!(without_apex(&list, "com"), list);
}
