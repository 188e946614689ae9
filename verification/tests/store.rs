use srv::db::DB;
use srv::models::{Entry, EntryCreation, Stream};
use srv::{
    create_entry, delete_entry, delete_stream, list_entries, list_streams, update_entry,
    update_stream, ListOptions,
};

fn s(text: &str) -> String {
    String::from(text)
}

fn stream(id: &str, name: &str) -> Stream {
    Stream { id: s(id), meta: String::new(), name: s(name) }
}

fn entry(id: &str, created: u64, title: &str, body: &str, meta: &str) -> Entry {
    Entry { id: s(id), created, meta: s(meta), title: s(title), body: s(body) }
}

fn creation(title: &str, body: &str, meta: &str) -> EntryCreation {
    EntryCreation { meta: s(meta), title: s(title), body: s(body) }
}

fn options(query: &str, offset: usize, limit: usize) -> ListOptions {
    ListOptions { query: s(query), offset, limit }
}

fn titles(entries: &Vec<Entry>) -> Vec<String> {
    entries.iter().map(|e| e.title.clone()).collect()
}

fn names(streams: &Vec<Stream>) -> Vec<String> {
    streams.iter().map(|x| x.name.clone()).collect()
}

fn raw_meta(db: &DB, id: &str) -> String {
    db.stored_entries().into_iter().find(|e| e.id == id).unwrap().meta
}

fn id_of(db: &DB, name: &str) -> String {
    db.stored_streams().into_iter().find(|x| x.name == name).unwrap().id
}

fn is_minted_id(id: &str, created: u64) -> bool {
    let prefix = format!("{}-", created);
    id.starts_with(&prefix)
        && id.len() == prefix.len() + 21
        && id[prefix.len()..].chars().all(|c| c.is_ascii_alphanumeric() || c == '_' || c == '-')
}

#[test]
fn a_new_store_holds_the_inbox() {
    let db = DB::new();
    let streams = db.list_streams();
    assert_eq!(streams.len(), 1);
    assert_eq!(streams[0].id, "0-inbox");
    assert_eq!(streams[0].name, "Inbox");
    assert_eq!(streams[0].meta, "");
    assert_eq!(db.get_sync_id(), 0);
    assert!(db.stored_entries().is_empty());
    let all = db.list_entries(&s(""), 0, usize::MAX);
    assert_eq!(all.0, 0);
    assert!(all.1.is_empty());
}

#[test]
fn create_then_search_by_word_by_stream_and_all() {
    let mut db = DB::new();
    let a = create_entry(&mut db, creation("Buy milk", "", "{Errands}"));
    let b = create_entry(&mut db, creation("Call mom", "", "{Personal}"));

    let by_word = list_entries(&db, options("milk", 0, 10));
    assert_eq!(by_word.total, 1);
    assert_eq!(by_word.offset, 0);
    assert_eq!(by_word.entries.len(), 1);
    assert_eq!(by_word.entries[0].id, a.id);
    assert_eq!(by_word.entries[0].title, "Buy milk");
    assert_eq!(by_word.entries[0].meta, "{Errands}");

    let by_stream = list_entries(&db, options("{Errands}", 0, 10));
    assert_eq!(by_stream.total, 1);
    assert_eq!(by_stream.entries.len(), 1);
    assert_eq!(by_stream.entries[0].id, a.id);

    let all = list_entries(&db, options("", 0, 10));
    assert_eq!(all.total, 2);
    assert_eq!(all.entries.len(), 2);
    assert_eq!(all.entries[0].id, b.id);
    assert_eq!(all.entries[1].id, a.id);
    assert_eq!(titles(&all.entries), vec!["Call mom", "Buy milk"]);
}

#[test]
fn created_entries_get_minted_identifiers_and_decoded_meta() {
    let mut db = DB::new();
    let e = db.create_entry(&creation("t", "b", "see {Work} and {Inbox}"));
    assert!(is_minted_id(&e.id, e.created), "{}", e.id);
    assert_eq!(e.title, "t");
    assert_eq!(e.body, "b");
    assert_eq!(e.meta, "see {Work} and {Inbox}");
    let work = id_of(&db, "Work");
    assert!(is_minted_id(&work, work.split('-').next().unwrap().parse().unwrap()));
    assert_eq!(
        raw_meta(&db, &e.id),
        format!("see _stream_id_[{}]__ and _stream_id_[0-inbox]__", work)
    );
    let got = db.get_entry(&e.id).unwrap();
    assert_eq!(got.meta, "see {Work} and {Inbox}");
    assert_eq!(got.id, e.id);
    assert_eq!(got.created, e.created);
    let other = db.create_entry(&creation("t2", "", ""));
    assert_ne!(other.id, e.id);
}

#[test]
fn the_same_name_twice_makes_one_stream() {
    let mut db = DB::new();
    db.insert_entry(&entry("1-a", 1, "t", "", "{A} {B} {A}"));
    assert_eq!(names(&db.list_streams()), vec!["Inbox", "A", "B"]);
    let a = id_of(&db, "A");
    let b = id_of(&db, "B");
    assert_eq!(
        raw_meta(&db, "1-a"),
        format!("_stream_id_[{a}]__ _stream_id_[{b}]__ _stream_id_[{a}]__")
    );
    db.insert_entry(&entry("2-b", 2, "t", "", "{B}"));
    assert_eq!(db.stored_streams().len(), 3);
}

#[test]
fn stored_and_display_form_with_known_streams() {
    let mut db = DB::new();
    db.insert_stream(&stream("7-work", "Work"));
    db.insert_stream(&stream("8-home", "Home/Garden"));
    db.insert_entry(&entry("1-a", 1, "t", "b", "{Work} then {Home/Garden}, {Work}!"));
    assert_eq!(
        raw_meta(&db, "1-a"),
        "_stream_id_[7-work]__ then _stream_id_[8-home]__, _stream_id_[7-work]__!"
    );
    assert_eq!(db.get_entry(&s("1-a")).unwrap().meta, "{Work} then {Home/Garden}, {Work}!");
    assert_eq!(db.preprocess_meta(&s("x{Work}y")), "x_stream_id_[7-work]__y");
    assert_eq!(db.postprocess_meta(&s("x_stream_id_[7-work]__y")), "x{Work}y");
    assert_eq!(db.stored_streams().len(), 3);
}

#[test]
fn a_token_of_a_missing_stream_stays_as_it_is() {
    let mut db = DB::new();
    db.insert_stream(&stream("7-work", "Work"));
    assert_eq!(
        db.postprocess_meta(&s("_stream_id_[gone]__ _stream_id_[7-work]__")),
        "_stream_id_[gone]__ {Work}"
    );
    assert_eq!(db.postprocess_meta(&s("_stream_id_[]__")), "_stream_id_[]__");
    assert_eq!(db.postprocess_meta(&s("_stream_id_[7-work]_")), "_stream_id_[7-work]_");
    assert_eq!(db.postprocess_meta(&s("_stream_id_[7-[work]__")), "_stream_id_[7-[work]__");
    assert_eq!(db.postprocess_meta(&s("")), "");
}

#[test]
fn renaming_a_stream_changes_what_is_shown_not_what_is_stored() {
    let mut db = DB::new();
    db.insert_stream(&stream("7-work", "Work"));
    db.insert_entry(&entry("1-a", 1, "t", "", "{Work}"));
    db.insert_entry(&entry("2-b", 2, "u", "", "in {Work} too"));
    let before = (raw_meta(&db, "1-a"), raw_meta(&db, "2-b"));

    let renamed = update_stream(&mut db, stream("7-work", "Job"));
    assert_eq!(renamed.id, "7-work");
    assert_eq!(renamed.name, "Job");

    assert_eq!((raw_meta(&db, "1-a"), raw_meta(&db, "2-b")), before);
    assert_eq!(db.get_entry(&s("1-a")).unwrap().meta, "{Job}");
    assert_eq!(db.get_entry(&s("2-b")).unwrap().meta, "in {Job} too");
    let listed = list_entries(&db, options("{Job}", 0, 10));
    assert_eq!(listed.total, 2);
    assert_eq!(list_entries(&db, options("{Work}", 0, 10)).total, 2);
    assert_eq!(db.get_stream(&s("7-work")).unwrap().name, "Job");
}

#[test]
fn renaming_a_missing_stream_changes_nothing() {
    let mut db = DB::new();
    let back = update_stream(&mut db, stream("nope", "Job"));
    assert_eq!(back.id, "nope");
    assert_eq!(back.name, "Job");
    assert_eq!(names(&db.list_streams()), vec!["Inbox"]);
    assert!(db.get_stream(&s("nope")).is_none());
}

#[test]
fn an_entry_in_a_descendant_answers_for_the_ancestor() {
    let mut db = DB::new();
    db.insert_stream(&stream("1-foo", "Foo"));
    db.insert_stream(&stream("2-foobar", "Foo/Bar"));
    db.insert_entry(&entry("1-deep", 1, "deep", "", "{Foo/Bar}"));
    db.insert_entry(&entry("2-top", 2, "top", "", "{Foo}"));

    let foo = list_entries(&db, options("{Foo}", 0, 10));
    assert_eq!(titles(&foo.entries), vec!["top", "deep"]);
    assert_eq!(foo.total, 2);

    let bar = list_entries(&db, options("{Foo/Bar}", 0, 10));
    assert_eq!(titles(&bar.entries), vec!["deep"]);
    assert_eq!(bar.total, 1);

    let both = list_entries(&db, options("{Foo} {Foo/Bar}", 0, 10));
    assert_eq!(titles(&both.entries), vec!["deep"]);
}

#[test]
fn a_leading_slash_makes_the_empty_name_an_ancestor() {
    let mut db = DB::new();
    db.insert_stream(&stream("1-root", ""));
    db.insert_stream(&stream("2-foo", "/Foo"));
    db.insert_entry(&entry("1-a", 1, "a", "", "{/Foo}"));
    let closure = db.extract_streams_from_meta(&s("_stream_id_[2-foo]__"), true);
    assert_eq!(names(&closure), vec!["", "/Foo"]);
    let root = db.get_stream(&s("1-root")).unwrap();
    assert!(db.match_meta(&vec![root], &entry("x", 0, "", "", "_stream_id_[2-foo]__"), true));
}

#[test]
fn closure_with_and_without_ancestors() {
    let mut db = DB::new();
    db.insert_stream(&stream("3-c", "Zoo/Ape/Old"));
    db.insert_stream(&stream("1-a", "Zoo"));
    db.insert_stream(&stream("2-b", "Zoo/Ape"));
    db.insert_stream(&stream("4-d", "Other"));
    let meta = s("_stream_id_[3-c]__ and _stream_id_[0-inbox]__ and _stream_id_[3-c]__");
    let direct = db.extract_streams_from_meta(&meta, false);
    assert_eq!(names(&direct), vec!["Inbox", "Zoo/Ape/Old"]);
    let all = db.extract_streams_from_meta(&meta, true);
    assert_eq!(names(&all), vec!["Inbox", "Zoo", "Zoo/Ape", "Zoo/Ape/Old"]);
    assert!(db.extract_streams_from_meta(&s("plain"), true).is_empty());
    assert!(db.extract_streams_from_meta(&s("_stream_id_[none]__"), true).is_empty());
}

#[test]
fn an_unknown_name_in_a_query_is_passed_over() {
    let mut db = DB::new();
    db.insert_entry(&entry("1-a", 1, "Buy milk", "", "{Errands}"));
    let found = list_entries(&db, options("{Nowhere}", 0, 10));
    assert_eq!(found.total, 1);
    let found = list_entries(&db, options("{Nowhere} milk", 0, 10));
    assert_eq!(found.total, 1);
    let found = list_entries(&db, options("{Nowhere} bread", 0, 10));
    assert_eq!(found.total, 0);
    assert_eq!(names(&db.streams_from_query(&s("{Nowhere} {Errands} {Inbox} {Errands}"))),
        vec!["Errands", "Inbox", "Errands"]);
    assert_eq!(db.stored_streams().len(), 2);
}

#[test]
fn the_inbox_holds_only_what_is_put_there() {
    let mut db = DB::new();
    db.insert_entry(&entry("1-a", 1, "untagged", "", ""));
    db.insert_entry(&entry("2-b", 2, "tagged", "", "{Inbox}"));
    let inbox = list_entries(&db, options("{Inbox}", 0, 10));
    assert_eq!(titles(&inbox.entries), vec!["tagged"]);
    assert_eq!(raw_meta(&db, "2-b"), "_stream_id_[0-inbox]__");
}

#[test]
fn words_match_title_or_body() {
    let mut db = DB::new();
    db.insert_entry(&entry("1-a", 1, "Alpha", "has Beta inside", ""));
    db.insert_entry(&entry("2-b", 2, "Beta", "nothing", ""));
    db.insert_entry(&entry("3-c", 3, "Gamma", "nothing", ""));
    assert_eq!(titles(&db.list_entries(&s("beta"), 0, 10).1), vec!["Beta", "Alpha"]);
    assert_eq!(titles(&db.list_entries(&s("  NOTHING "), 0, 10).1), vec!["Gamma", "Beta"]);
    assert_eq!(db.list_entries(&s("delta"), 0, 10).0, 0);
}

#[test]
fn pages() {
    let mut db = DB::new();
    for k in 0..7u64 {
        db.insert_entry(&entry(&format!("{}-x", k), k, &format!("t{}", k), "", ""));
    }
    let n = 7usize;
    for offset in [0usize, 1, 3, 6, 7, 8, 100, usize::MAX] {
        for limit in [0usize, 1, 2, 7, 8, usize::MAX] {
            let (total, page) = db.list_entries(&s(""), offset, limit);
            assert_eq!(total, n);
            let expected = std::cmp::min(limit, n.saturating_sub(offset));
            assert_eq!(page.len(), expected, "offset {} limit {}", offset, limit);
            for (i, e) in page.iter().enumerate() {
                assert_eq!(e.title, format!("t{}", n - 1 - offset - i));
            }
        }
    }
    let listed = list_entries(&db, options("", 2, 3));
    assert_eq!(listed.total, 7);
    assert_eq!(listed.offset, 2);
    assert_eq!(titles(&listed.entries), vec!["t4", "t3", "t2"]);
}

#[test]
fn streams_are_listed_inbox_first_then_by_name() {
    let mut db = DB::new();
    for (id, name) in
        [("5", "beta"), ("6", "Alpha"), ("7", "alpha"), ("8", "Zed"), ("9", "Alpha/Sub"), ("a", "")]
    {
        db.insert_stream(&stream(id, name));
    }
    let listed = list_streams(&db, options("", 0, 0));
    assert_eq!(listed.total, 7);
    assert_eq!(
        names(&listed.streams),
        vec!["Inbox", "", "Alpha", "Alpha/Sub", "Zed", "alpha", "beta"]
    );
}

#[test]
fn streams_of_one_name_keep_the_order_of_the_store() {
    let mut db = DB::new();
    db.insert_stream(&stream("1", "Twin"));
    db.insert_stream(&stream("2", "Twin"));
    db.insert_stream(&stream("3", "Inbox"));
    db.insert_stream(&stream("4", "Abc"));
    let listed = db.list_streams();
    let ids: Vec<&str> = listed.iter().map(|x| x.id.as_str()).collect();
    assert_eq!(ids, vec!["0-inbox", "3", "4", "1", "2"]);
}

#[test]
fn a_name_resolves_to_the_first_stream_that_carries_it() {
    let mut db = DB::new();
    db.insert_stream(&stream("1", "One"));
    db.insert_stream(&stream("2", "Two"));
    update_stream(&mut db, stream("2", "One"));
    db.insert_entry(&entry("1-a", 1, "t", "", "{One}"));
    assert_eq!(raw_meta(&db, "1-a"), "_stream_id_[1]__");
    assert_eq!(db.stream_by_name(&s("One"), false).unwrap().id, "1");
    assert_eq!(db.stored_streams().len(), 3);
}

#[test]
fn stream_by_name_finds_or_makes() {
    let mut db = DB::new();
    assert!(db.stream_by_name(&s("New"), false).is_none());
    assert_eq!(db.stored_streams().len(), 1);
    let made = db.stream_by_name(&s("New"), true).unwrap();
    assert_eq!(made.name, "New");
    assert_eq!(made.meta, "");
    assert_eq!(made.id.len(), made.id.find('-').unwrap() + 22);
    let again = db.stream_by_name(&s("New"), true).unwrap();
    assert_eq!(again.id, made.id);
    assert_eq!(db.stored_streams().len(), 2);
    assert_eq!(db.stream_by_name(&s("Inbox"), false).unwrap().id, "0-inbox");
    assert!(db.stream_by_name(&s("inbox"), false).is_none());
}

#[test]
fn writing_a_stream_under_a_known_identifier_replaces_it_in_place() {
    let mut db = DB::new();
    db.insert_stream(&stream("1", "A"));
    db.insert_stream(&stream("2", "B"));
    db.insert_stream(&stream("1", "C"));
    let kept = db.stored_streams();
    let pairs: Vec<(&str, &str)> = kept.iter().map(|x| (x.id.as_str(), x.name.as_str())).collect();
    assert_eq!(pairs, vec![("0-inbox", "Inbox"), ("1", "C"), ("2", "B")]);
    assert!(db.get_stream(&s("3")).is_none());
    assert_eq!(db.get_stream(&s("2")).unwrap().name, "B");
}

#[test]
fn updating_an_entry_keeps_identifier_time_and_place() {
    let mut db = DB::new();
    db.insert_entry(&entry("1-a", 11, "first", "b1", "{A}"));
    db.insert_entry(&entry("2-b", 22, "second", "b2", ""));
    let back = update_entry(&mut db, entry("1-a", 999, "changed", "b3", "{B} now"));
    assert_eq!(back.id, "1-a");
    assert_eq!(back.created, 11);
    assert_eq!(back.title, "changed");
    assert_eq!(back.body, "b3");
    assert_eq!(back.meta, "{B} now");
    let all = db.list_entries(&s(""), 0, 10);
    assert_eq!(all.0, 2);
    assert_eq!(titles(&all.1), vec!["second", "changed"]);
    let got = db.get_entry(&s("1-a")).unwrap();
    assert_eq!(got.created, 11);
    assert_eq!(got.meta, "{B} now");
    assert_eq!(names(&db.list_streams()), vec!["Inbox", "A", "B"]);
}

#[test]
fn updating_a_missing_entry_creates_one_under_a_new_identifier() {
    let mut db = DB::new();
    let back = update_entry(&mut db, entry("stale", 5, "title", "body", "{A}"));
    assert_ne!(back.id, "stale");
    assert!(is_minted_id(&back.id, back.created), "{}", back.id);
    assert_eq!(back.title, "title");
    assert_eq!(back.body, "body");
    assert_eq!(back.meta, "{A}");
    assert!(db.get_entry(&s("stale")).is_none());
    let got = db.get_entry(&back.id).unwrap();
    assert_eq!(got.title, "title");
    assert_eq!(got.meta, "{A}");
    assert_eq!(db.stored_entries().len(), 1);
}

#[test]
fn deleting_entries() {
    let mut db = DB::new();
    db.insert_entry(&entry("1-a", 1, "a", "", "{A}"));
    db.insert_entry(&entry("2-b", 2, "b", "", ""));
    let back = delete_entry(&mut db, entry("1-a", 0, "", "", ""));
    assert_eq!(back.id, "1-a");
    assert!(db.get_entry(&s("1-a")).is_none());
    assert_eq!(titles(&db.list_entries(&s(""), 0, 10).1), vec!["b"]);
    db.delete_entry(&s("never"));
    assert_eq!(db.stored_entries().len(), 1);
    assert_eq!(names(&db.list_streams()), vec!["Inbox", "A"]);
}

#[test]
fn deleting_a_stream_takes_its_token_out_of_entries() {
    let mut db = DB::new();
    db.insert_stream(&stream("1-a", "A"));
    db.insert_stream(&stream("2-b", "B"));
    db.insert_entry(&entry("1-x", 1, "only", "", "{A}"));
    db.insert_entry(&entry("2-y", 2, "both", "", "{A} {B}"));
    db.insert_entry(&entry("3-z", 3, "other", "", "{B}"));
    db.insert_entry(&entry("4-w", 4, "middle", "", "see {B} {A} {B}  end"));
    let other_before = raw_meta(&db, "3-z");

    let back = delete_stream(&mut db, stream("1-a", "ignored"));
    assert_eq!(back.id, "1-a");

    assert!(db.get_stream(&s("1-a")).is_none());
    assert_eq!(names(&db.list_streams()), vec!["Inbox", "B"]);
    assert_eq!(raw_meta(&db, "1-x"), "");
    assert_eq!(db.get_entry(&s("1-x")).unwrap().meta, "");
    assert_eq!(raw_meta(&db, "2-y"), "_stream_id_[2-b]__");
    assert_eq!(db.get_entry(&s("2-y")).unwrap().meta, "{B}");
    assert_eq!(raw_meta(&db, "3-z"), other_before);
    assert_eq!(db.get_entry(&s("4-w")).unwrap().meta, "see {B} {B} end");
    assert_eq!(titles(&db.list_entries(&s(""), 0, 10).1), vec!["middle", "other", "both", "only"]);
    for e in db.stored_entries() {
        assert!(!e.meta.contains("_stream_id_[1-a]__"));
    }
}

#[test]
fn deleting_an_ancestor_leaves_entries_of_descendants_alone() {
    let mut db = DB::new();
    db.insert_stream(&stream("1-foo", "Foo"));
    db.insert_stream(&stream("2-bar", "Foo/Bar"));
    db.insert_entry(&entry("1-x", 1, "deep", "", "{Foo/Bar}"));
    assert_eq!(list_entries(&db, options("{Foo}", 0, 10)).total, 1);
    db.delete_stream(&s("1-foo"));
    assert_eq!(raw_meta(&db, "1-x"), "_stream_id_[2-bar]__");
    assert_eq!(db.get_entry(&s("1-x")).unwrap().meta, "{Foo/Bar}");
    assert_eq!(names(&db.list_streams()), vec!["Inbox", "Foo/Bar"]);
}

#[test]
fn deleting_a_missing_stream_changes_nothing() {
    let mut db = DB::new();
    db.insert_entry(&entry("1-x", 1, "t", "", "{A} _stream_id_[ghost]__"));
    let before = raw_meta(&db, "1-x");
    db.delete_stream(&s("ghost"));
    assert_eq!(raw_meta(&db, "1-x"), before);
    assert_eq!(db.stored_streams().len(), 2);
}

#[test]
fn untagging_collapses_at_most_two_double_blanks() {
    let mut db = DB::new();
    db.insert_stream(&stream("1-a", "A"));
    db.insert_stream(&stream("2-b", "B"));
    let token = "_stream_id_[1-a]__";
    let untag = |db: &DB, meta: String| db.untag(&meta, &s("1-a"));
    assert_eq!(untag(&db, format!("x {} y", token)), "x y");
    assert_eq!(untag(&db, format!(" {} ", token)), "");
    assert_eq!(untag(&db, format!("a {t} b {t} c {t} d", t = token)), "a b c  d");
    assert_eq!(untag(&db, format!("{} _stream_id_[2-b]__", token)), "{B}");
    assert_eq!(untag(&db, s("nothing here")), "nothing here");
}

#[test]
fn opening_a_store_over_what_was_kept() {
    let kept_streams = vec![stream("5-w", "Work"), stream("0-inbox", "Renamed"), stream("5-w", "Job")];
    let records = vec![
        Some(entry("1-a", 1, "a", "", "_stream_id_[5-w]__")),
        None,
        Some(entry("2-b", 2, "b", "", "{Fresh} _stream_id_[0-inbox]__")),
        None,
    ];
    let db = DB::init(&kept_streams, &records, Some(42));
    assert_eq!(db.get_sync_id(), 42);
    let streams = db.stored_streams();
    assert_eq!(streams[0].id, "5-w");
    assert_eq!(streams[0].name, "Job");
    assert_eq!(streams[1].id, "0-inbox");
    assert_eq!(streams[1].name, "Inbox");
    assert_eq!(streams[2].name, "Fresh");
    assert_eq!(streams.len(), 3);
    let entries = db.stored_entries();
    assert_eq!(entries.len(), 2);
    assert_eq!(entries[0].meta, "_stream_id_[5-w]__");
    assert_eq!(entries[1].meta, format!("_stream_id_[{}]__ _stream_id_[0-inbox]__", streams[2].id));
    assert_eq!(db.get_entry(&s("2-b")).unwrap().meta, "{Fresh} {Inbox}");

    let empty = DB::init(&vec![], &vec![], None);
    assert_eq!(empty.get_sync_id(), 0);
    assert_eq!(names(&empty.stored_streams()), vec!["Inbox"]);
}

#[test]
fn display_text_survives_the_way_to_stored_form_and_back() {
    let mut db = DB::new();
    db.insert_stream(&stream("7-work", "Work"));
    for text in [
        "",
        "plain words",
        "{Work}",
        "{Work}{Work}",
        "a {Work} b {New/Stream} c {Inbox}",
        "{{Work}}",
        "} {Work} {",
        "{ spaced name } and {Ünï/cödé}",
        "[brackets] {Work} _stream_id_ ]__",
        "_stream_id_[ {Work} ]__",
        "_stream_id_[x]{Work}",
        "_stream_id_[x] _{Work}",
        "_stream_id_[]_{Work}",
        "{a[b]c}",
        "line\n{Work}\nline",
    ] {
        let kept = db.preprocess_meta(&s(text));
        assert!(!kept.contains('{') || text.contains("{{") || text.contains("} {Work} {"),
            "{:?} -> {:?}", text, kept);
        assert_eq!(db.postprocess_meta(&kept), text, "{:?}", text);
    }
}

#[test]
fn text_that_holds_a_token_does_not_survive() {
    let mut db = DB::new();
    let text = "_stream_id_[0-inbox]__";
    let kept = db.preprocess_meta(&s(text));
    assert_eq!(kept, text);
    assert_eq!(db.postprocess_meta(&kept), "{Inbox}");
}

#[test]
fn match_meta_wants_every_stream() {
    let mut db = DB::new();
    db.insert_stream(&stream("1-a", "A"));
    db.insert_stream(&stream("2-b", "B"));
    let e = entry("x", 0, "", "", "_stream_id_[1-a]__");
    let a = stream("1-a", "whatever");
    let b = stream("2-b", "B");
    assert!(db.match_meta(&vec![], &e, true));
    assert!(db.match_meta(&vec![], &e, false));
    assert!(db.match_meta(&vec![stream("1-a", "A")], &e, false));
    assert!(db.match_meta(&vec![a, stream("1-a", "A")], &e, true));
    assert!(!db.match_meta(&vec![stream("1-a", "A"), b], &e, true));
    assert!(!db.match_meta(&vec![stream("2-b", "B")], &e, false));
}

#[test]
fn text_next_to_a_reference_can_read_as_a_token() {
    let mut db = DB::new();
    db.insert_stream(&stream("a", "A"));
    let text = "_stream_id_[x]_{A}";
    let kept = db.preprocess_meta(&s(text));
    assert_eq!(kept, "_stream_id_[x]__stream_id_[a]__");
    assert_eq!(db.postprocess_meta(&kept), kept);
}

#[test]
fn an_identifier_with_a_bracket_does_not_come_back() {
    let mut db = DB::new();
    db.insert_stream(&stream("a]b", "A"));
    let kept = db.preprocess_meta(&s("{A}"));
    assert_eq!(kept, "_stream_id_[a]b]__");
    assert_eq!(db.postprocess_meta(&kept), kept);
}

#[test]
fn streams_of_one_name_confuse_the_cascade() {
    let mut db = DB::new();
    db.insert_stream(&stream("1", "X"));
    db.insert_stream(&stream("2", "Y"));
    db.insert_entry(&entry("1-e", 1, "t", "", "{X} {Y}"));
    assert_eq!(raw_meta(&db, "1-e"), "_stream_id_[1]__ _stream_id_[2]__");
    update_stream(&mut db, stream("2", "X"));
    assert_eq!(db.get_entry(&s("1-e")).unwrap().meta, "{X} {X}");

    db.delete_stream(&s("1"));

    assert_eq!(raw_meta(&db, "1-e"), "_stream_id_[1]__");
    assert_eq!(db.get_entry(&s("1-e")).unwrap().meta, "_stream_id_[1]__");
    assert_eq!(names(&db.stored_streams()), vec!["Inbox", "X"]);
}

#[test]
fn the_cascade_can_make_streams() {
    let mut db = DB::new();
    db.insert_stream(&stream("a", "A"));
    db.insert_entry(&entry("1-e", 1, "t", "", "{B{A}C}"));
    assert_eq!(raw_meta(&db, "1-e"), "{B_stream_id_[a]__C}");
    assert_eq!(db.get_entry(&s("1-e")).unwrap().meta, "{B{A}C}");
    db.delete_stream(&s("a"));
    assert_eq!(names(&db.list_streams()), vec!["Inbox", "BC"]);
    let made = id_of(&db, "BC");
    assert_eq!(raw_meta(&db, "1-e"), format!("_stream_id_[{}]__", made));
    assert_eq!(db.get_entry(&s("1-e")).unwrap().meta, "{BC}");
}

#[test]
fn opening_a_store_writes_every_entry_again() {
    let kept = vec![stream("a", "A")];
    let records = vec![Some(entry("1-e", 1, "t", "", "{B_stream_id_[a]__C} {A}"))];
    let db = DB::init(&kept, &records, None);
    assert_eq!(names(&db.list_streams()), vec!["Inbox", "A", "B_stream_id_[a]__C"]);
    let made = id_of(&db, "B_stream_id_[a]__C");
    assert_eq!(raw_meta(&db, "1-e"), format!("_stream_id_[{}]__ _stream_id_[a]__", made));
}

#[test]
fn the_time_of_creation_comes_from_the_clock() {
    let mut db = DB::new();
    let first = db.create_entry(&creation("a", "", ""));
    let second = db.create_entry(&creation("b", "", ""));
    assert!(first.created > 0);
    assert!(second.created >= first.created);
    assert!(second.created - first.created < 60);
    assert!(first.id.starts_with(&format!("{}-", first.created)));
}

#[test]
fn sorting_and_membership_helpers() {
    let sorted = srv::db::sort_streams(&vec![stream("1", "b"), stream("2", "Inbox"), stream("3", "a")]);
    assert_eq!(names(&sorted), vec!["Inbox", "a", "b"]);
    assert!(srv::db::sort_streams(&vec![]).is_empty());
    let list = vec![s("a"), s("b")];
    assert!(srv::db::contains_string(&list, &s("b")));
    assert!(!srv::db::contains_string(&list, &s("c")));
    assert!(!srv::db::contains_string(&vec![], &s("")));
}

#[test]
fn removing_a_stream_leaves_its_tokens() {
    let mut db = DB::new();
    db.insert_stream(&stream("a", "A"));
    db.insert_entry(&entry("1-e", 1, "t", "", "{A}"));
    db.remove_stream(&s("a"));
    assert!(db.get_stream(&s("a")).is_none());
    assert_eq!(raw_meta(&db, "1-e"), "_stream_id_[a]__");
    assert_eq!(db.get_entry(&s("1-e")).unwrap().meta, "_stream_id_[a]__");
    db.remove_stream(&s("a"));
    assert_eq!(db.stored_streams().len(), 1);
}

#[test]
fn braces_around_a_reference_bring_the_token_back() {
    let mut db = DB::new();
    db.insert_stream(&stream("x", "X"));
    db.insert_entry(&entry("1-e", 1, "t", "", "{X{X}}"));
    assert_eq!(raw_meta(&db, "1-e"), "{X_stream_id_[x]__}");
    db.delete_stream(&s("x"));
    assert_eq!(raw_meta(&db, "1-e"), "_stream_id_[x]__");
    assert!(db.get_stream(&s("x")).is_none());
}

#[test]
fn an_entry_with_nothing_but_the_token_is_left_empty() {
    let mut db = DB::new();
    db.insert_stream(&stream("x", "X"));
    db.insert_entry(&entry("1-e", 1, "t", "b", "{X}"));
    db.insert_entry(&entry("2-f", 2, "t", "b", "  {X}  {X} "));
    db.delete_stream(&s("x"));
    assert_eq!(raw_meta(&db, "1-e"), "");
    assert_eq!(raw_meta(&db, "2-f"), "");
    let e = db.get_entry(&s("1-e")).unwrap();
    assert_eq!((e.title.as_str(), e.body.as_str(), e.created), ("t", "b", 1));
}
