use srv::models::{EntryPrev, Stream, StreamPrev};
use std::cmp::Ordering;

#[test]
fn test_stream_parent_names() {
    let s = Stream {
        id: String::from("foo"),
        meta: String::from(""),
        name: String::from("Foo/Bar"),
    };
    assert_eq!(vec!["Foo", "Foo/Bar"], s.parent_names());

    let s = Stream {
        id: String::from("foo"),
        meta: String::from(""),
        name: String::from("Foo"),
    };
    assert_eq!(vec!["Foo"], s.parent_names());

    let s = Stream {
        id: String::from("foo"),
        meta: String::from(""),
        name: String::from("Foo/Bar/Acme"),
    };
    assert_eq!(vec!["Foo", "Foo/Bar", "Foo/Bar/Acme"], s.parent_names());

    let s = Stream {
        id: String::from("foo"),
        meta: String::from(""),
        name: String::from("Foo/"),
    };
    assert_eq!(vec!["Foo", "Foo/"], s.parent_names());

    let s = Stream {
        id: String::from("foo"),
        meta: String::from(""),
        name: String::from("/Foo/"),
    };
    assert_eq!(vec!["", "/Foo", "/Foo/"], s.parent_names());
}

fn stream(id: &str, name: &str) -> Stream {
    Stream { id: String::from(id), meta: String::new(), name: String::from(name) }
}

#[test]
fn parent_names_of_empty_name_is_the_empty_name() {
    assert_eq!(vec![""], stream("x", "").parent_names());
}

#[test]
fn parent_names_of_slashes_only() {
    assert_eq!(vec!["", "/", "//"], stream("x", "//").parent_names());
}

#[test]
fn inbox_sorts_before_every_other_name() {
    let inbox = Stream::inbox();
    assert_eq!(inbox.id, "0-inbox");
    assert_eq!(inbox.name, "Inbox");
    assert_eq!(inbox.meta, "");
    assert!(inbox.is_inbox());
    for name in ["", "A", "Errands", "Inbo", "Inbox2", "a", "inbox"] {
        let other = stream("x", name);
        assert!(!other.is_inbox());
        assert!(inbox.sorts_before(&other), "{}", name);
        assert!(!other.sorts_before(&inbox), "{}", name);
        assert!(inbox < other);
        assert!(other > inbox);
    }
    assert!(!inbox.sorts_before(&stream("y", "Inbox")));
}

#[test]
fn names_sort_by_character_with_case() {
    let cases = [
        ("A", "B", true),
        ("B", "A", false),
        ("A", "A", false),
        ("A", "AB", true),
        ("AB", "A", false),
        ("", "A", true),
        ("Z", "a", true),
        ("a", "Z", false),
        ("Foo/Bar", "Foo/Baz", true),
        ("Foo", "Foo/Bar", true),
        ("é", "z", false),
        ("z", "é", true),
        ("\u{ffff}", "\u{10000}", true),
    ];
    for (a, b, expected) in cases {
        assert_eq!(stream("1", a).sorts_before(&stream("2", b)), expected, "{:?} {:?}", a, b);
        assert_eq!(a < b, expected, "std order of {:?} {:?}", a, b);
    }
}

#[test]
fn streams_are_equal_by_identifier() {
    assert!(stream("1", "A") == stream("1", "B"));
    assert!(stream("1", "A") != stream("2", "A"));
}

#[test]
fn partial_cmp_follows_listing_order() {
    assert_eq!(stream("1", "A").partial_cmp(&stream("2", "B")), Some(Ordering::Less));
    assert_eq!(stream("1", "B").partial_cmp(&stream("2", "A")), Some(Ordering::Greater));
    assert_eq!(stream("1", "A").partial_cmp(&stream("2", "A")), Some(Ordering::Equal));
    assert_eq!(stream("1", "Inbox").partial_cmp(&stream("2", "Inbox")), Some(Ordering::Equal));
    assert_eq!(stream("1", "Zed").partial_cmp(&stream("2", "Inbox")), Some(Ordering::Greater));
}

#[test]
fn old_records_upgrade() {
    let s = StreamPrev { id: String::from("7-x"), name: String::from("Work") }.upgrade();
    assert_eq!((s.id.as_str(), s.meta.as_str(), s.name.as_str()), ("7-x", "", "Work"));

    let full = EntryPrev {
        id: Some(String::from("9-y")),
        created: Some(9),
        meta: String::from("m"),
        title: String::from("t"),
        body: String::from("b"),
    };
    let e = full.upgrade().unwrap();
    assert_eq!(e.id, "9-y");
    assert_eq!(e.created, 9);
    assert_eq!((e.meta.as_str(), e.title.as_str(), e.body.as_str()), ("m", "t", "b"));

    let no_id = EntryPrev { id: None, ..full_copy(&full) };
    assert!(no_id.upgrade().is_none());
    let no_time = EntryPrev { created: None, ..full_copy(&full) };
    assert!(no_time.upgrade().is_none());
}

fn full_copy(e: &EntryPrev) -> EntryPrev {
    EntryPrev {
        id: e.id.clone(),
        created: e.created,
        meta: e.meta.clone(),
        title: e.title.clone(),
        body: e.body.clone(),
    }
}
