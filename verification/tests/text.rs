use srv::models::Entry;
use srv::db::{clean_stream_names, extract_stream_names, match_body, match_title};
use srv::ids::make_id;
use srv::text::{
    chars_of, contains, decimal_of, pare, replace_all, replace_first, starts_with_at, string_of,
    trim, white_marks,
};

fn cs(s: &str) -> Vec<char> {
    s.chars().collect()
}

fn entry(title: &str, body: &str) -> Entry {
    Entry {
        id: String::from("1-a"),
        created: 1,
        meta: String::new(),
        title: String::from(title),
        body: String::from(body),
    }
}

#[test]
fn chars_and_strings_convert_both_ways() {
    assert_eq!(chars_of("héllo"), vec!['h', 'é', 'l', 'l', 'o']);
    assert_eq!(string_of(&cs("héllo wörld")), "héllo wörld");
    assert_eq!(chars_of(""), Vec::<char>::new());
}

#[test]
fn pattern_at_position() {
    assert!(starts_with_at(&cs("abcdef"), 2, &cs("cd")));
    assert!(!starts_with_at(&cs("abcdef"), 1, &cs("cd")));
    assert!(!starts_with_at(&cs("abcdef"), 5, &cs("fg")));
    assert!(starts_with_at(&cs("abc"), 3, &cs("")));
    assert!(!starts_with_at(&cs("abc"), 4, &cs("")));
    assert!(!starts_with_at(&cs("abc"), usize::MAX, &cs("a")));
}

#[test]
fn substring_search() {
    assert!(contains(&cs("Buy milk"), &cs("milk")));
    assert!(contains(&cs("Buy milk"), &cs("")));
    assert!(contains(&cs(""), &cs("")));
    assert!(!contains(&cs(""), &cs("a")));
    assert!(!contains(&cs("Buy milk"), &cs("Milk")));
    assert!(contains(&cs("aab"), &cs("ab")));
    assert!(!contains(&cs("ab"), &cs("abc")));
}

#[test]
fn trimming() {
    assert_eq!(string_of(&trim(&cs("  a b \t\n"))), "a b");
    assert_eq!(string_of(&trim(&cs(" \u{a0}\u{3000} "))), "");
    assert_eq!(string_of(&trim(&cs(""))), "");
    assert_eq!(string_of(&trim(&cs("x"))), "x");
    for s in ["", " ", "  a  ", "\u{2003}a\u{2003}", "a \u{200b}", "\u{85}x\u{1680}"] {
        assert_eq!(string_of(&trim(&cs(s))), s.trim(), "{:?}", s);
    }
}

#[test]
fn paring_by_marks() {
    assert_eq!(string_of(&pare(&cs("xaby"), &vec![true, false, false, true])), "ab");
    assert_eq!(string_of(&pare(&cs("xaby"), &vec![true, false, true, false])), "aby");
    assert_eq!(string_of(&pare(&cs("xaby"), &vec![false, true, true, false])), "xaby");
    assert_eq!(string_of(&pare(&cs("xaby"), &vec![true, true, true, true])), "");
    assert_eq!(string_of(&pare(&cs("xaby"), &vec![true, true, true, false])), "y");
    assert_eq!(string_of(&pare(&cs(""), &vec![])), "");
    assert_eq!(white_marks(&cs(" a\t\u{a0}b_")), vec![true, false, true, true, false, false]);
    assert_eq!(white_marks(&cs("")), Vec::<bool>::new());
}

#[test]
fn replacing() {
    assert_eq!(string_of(&replace_all(&cs("a-b-c"), &cs("-"), &cs("+"))), "a+b+c");
    assert_eq!(string_of(&replace_all(&cs("aaa"), &cs("aa"), &cs("b"))), "ba");
    assert_eq!(string_of(&replace_all(&cs("abc"), &cs(""), &cs("x"))), "abc");
    assert_eq!(string_of(&replace_all(&cs("abab"), &cs("ab"), &cs(""))), "");
    assert_eq!(string_of(&replace_first(&cs("a  b  c  d"), &cs("  "), &cs(" "), 2)), "a b c  d");
    assert_eq!(string_of(&replace_first(&cs("a    b"), &cs("  "), &cs(" "), 2)), "a  b");
    assert_eq!(string_of(&replace_first(&cs("a  b"), &cs("  "), &cs(" "), 0)), "a  b");
    for (s, p, t) in [("a  b   c", "  ", " "), ("xxxx", "xx", "xxx"), ("{A}{A}", "{A}", "")] {
        assert_eq!(string_of(&replace_all(&cs(s), &cs(p), &cs(t))), s.replace(p, t));
        assert_eq!(string_of(&replace_first(&cs(s), &cs(p), &cs(t), 2)), s.replacen(p, t, 2));
        assert_eq!(string_of(&replace_first(&cs(s), &cs(p), &cs(t), 1)), s.replacen(p, t, 1));
    }
}

#[test]
fn decimal_notation() {
    assert_eq!(string_of(&decimal_of(0)), "0");
    assert_eq!(string_of(&decimal_of(7)), "7");
    assert_eq!(string_of(&decimal_of(10)), "10");
    assert_eq!(string_of(&decimal_of(1700000000)), "1700000000");
    assert_eq!(string_of(&decimal_of(u64::MAX)), "18446744073709551615");
}

#[test]
fn identifiers_join_time_and_random_part() {
    assert_eq!(make_id(5, "abc"), "5-abc");
    assert_eq!(make_id(1700000000, "Yo1Tr9F3iF-LFHX9i9GvA"), "1700000000-Yo1Tr9F3iF-LFHX9i9GvA");
    assert_eq!(make_id(0, ""), "0-");
}

#[test]
fn names_are_extracted_left_to_right_with_duplicates() {
    let names = |s: &str| extract_stream_names(&String::from(s));
    assert_eq!(names("{A} x {B}{A}"), vec!["A", "B", "A"]);
    assert_eq!(names("no tags"), Vec::<String>::new());
    assert_eq!(names(""), Vec::<String>::new());
    assert_eq!(names("{}"), Vec::<String>::new());
    assert_eq!(names("{Foo/Bar} {a b}"), vec!["Foo/Bar", "a b"]);
    assert_eq!(names("{a\nb}"), vec!["a\nb"]);
}

#[test]
fn nested_and_broken_braces() {
    let names = |s: &str| extract_stream_names(&String::from(s));
    assert_eq!(names("{{A}}"), vec!["A"]);
    assert_eq!(names("{A{B}C}"), vec!["B"]);
    assert_eq!(names("{A"), Vec::<String>::new());
    assert_eq!(names("A}"), Vec::<String>::new());
    assert_eq!(names("}{A}{"), vec!["A"]);
    assert_eq!(names("{A}{"), vec!["A"]);
    assert_eq!(names("{{}"), Vec::<String>::new());
}

#[test]
fn query_words() {
    let clean = |s: &str| clean_stream_names(&String::from(s));
    assert_eq!(clean("milk"), "milk");
    assert_eq!(clean("  milk  "), "milk");
    assert_eq!(clean("{Errands} milk"), "milk");
    assert_eq!(clean("milk {Errands}"), "milk");
    assert_eq!(clean("{Errands}"), "");
    assert_eq!(clean(""), "");
    assert_eq!(clean("buy {A} milk {B}"), "buy  milk");
    assert_eq!(clean("milk {Err"), "milk");
    assert_eq!(clean("milk {"), "milk");
    assert_eq!(clean("{A} milk {Err"), "milk");
    assert_eq!(clean("a } b {c"), "a } b");
    assert_eq!(clean("a { b } c"), "a  c");
    assert_eq!(clean("a {} c"), "a {} c");
    assert_eq!(clean("a {b} {c} {"), "a");
    assert_eq!(clean("{a{b}c}"), "{ac}");
    assert_eq!(clean("x {a{b}c"), "x");
}

#[test]
fn titles_and_bodies_match_without_regard_to_case() {
    let q = |s: &str| String::from(s);
    let e = entry("Buy MILK", "at the Store");
    assert!(match_title(&q("milk"), &e));
    assert!(match_title(&q("Milk"), &e));
    assert!(match_title(&q("{Errands} mIlK"), &e));
    assert!(match_title(&q(""), &e));
    assert!(match_title(&q("{Errands}"), &e));
    assert!(!match_title(&q("store"), &e));
    assert!(match_body(&q("store"), &e));
    assert!(match_body(&q("THE"), &e));
    assert!(!match_body(&q("milk"), &e));
    assert!(match_body(&q("  "), &e));
    let accents = entry("ÉCOLE", "Straße");
    assert!(match_title(&q("école"), &accents));
    assert!(match_body(&q("STRASSE"), &accents) == "straße".contains(&"STRASSE".to_lowercase()));
}
