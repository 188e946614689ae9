use regex::Regex;
use srv::db::{clean_stream_names, extract_stream_names, DB};
use srv::models::Stream;
use srv::tags::{decode, encode, ids_of, name_span_at, token_span_at};
use srv::text::{chars_of, string_of};

fn sequences(pieces: &[&str], max: usize) -> Vec<String> {
    let mut all = vec![String::new()];
    let mut last = vec![String::new()];
    for _ in 0..max {
        let mut next = Vec::new();
        for head in &last {
            for piece in pieces {
                next.push(format!("{}{}", head, piece));
            }
        }
        all.extend(next.iter().cloned());
        last = next;
    }
    all
}

fn name_pattern() -> Regex {
    Regex::new(r"\{[^\{\}]+\}").unwrap()
}

fn token_pattern() -> Regex {
    Regex::new(r"_stream_id_\[[^\{\[\]\}]+\]__").unwrap()
}

fn open_tail_pattern() -> Regex {
    Regex::new(r"\{[^\{\}]*$").unwrap()
}

fn names_by_pattern(re: &Regex, text: &str) -> Vec<String> {
    re.find_iter(text).map(|m| m.as_str()[1..m.as_str().len() - 1].to_string()).collect()
}

fn ids_by_pattern(re: &Regex, text: &str) -> Vec<String> {
    re.find_iter(text).map(|m| m.as_str()[12..m.as_str().len() - 3].to_string()).collect()
}

fn words_by_pattern(spans: &Regex, tail: &Regex, query: &str) -> String {
    let first = spans.replace_all(query, "").trim().to_string();
    tail.replace_all(&first, "").trim().to_string()
}

fn stream(id: &str, name: &str) -> Stream {
    Stream { id: String::from(id), meta: String::new(), name: String::from(name) }
}

#[test]
fn names_agree_with_the_pattern_on_every_short_text() {
    let re = name_pattern();
    for text in sequences(&["{", "}", "a", " ", "é"], 5) {
        assert_eq!(extract_stream_names(&text), names_by_pattern(&re, &text), "{:?}", text);
    }
}

#[test]
fn names_agree_with_the_pattern_on_longer_texts() {
    let re = name_pattern();
    for text in sequences(&["{A}", "{", "}", "b c", "{Foo/Bar}", "\n"], 4) {
        assert_eq!(extract_stream_names(&text), names_by_pattern(&re, &text), "{:?}", text);
    }
}

#[test]
fn query_words_agree_with_the_patterns_on_every_short_text() {
    let (spans, tail) = (name_pattern(), open_tail_pattern());
    for text in sequences(&["{", "}", "a", " ", "\t"], 5) {
        assert_eq!(clean_stream_names(&text), words_by_pattern(&spans, &tail, &text), "{:?}", text);
    }
}

#[test]
fn query_words_agree_with_the_patterns_on_longer_texts() {
    let (spans, tail) = (name_pattern(), open_tail_pattern());
    for text in sequences(&["{A}", "{", "}", "milk", " ", "{A b", "\u{a0}"], 4) {
        assert_eq!(clean_stream_names(&text), words_by_pattern(&spans, &tail, &text), "{:?}", text);
    }
}

#[test]
fn token_identifiers_agree_with_the_pattern() {
    let pieces = ["_stream_id_[", "]__", "x", "[", "]", "{", "}", "_", "_stream_id_"];
    let re = token_pattern();
    for text in sequences(&pieces, 4) {
        let found: Vec<String> = ids_of(&chars_of(&text));
        assert_eq!(found, ids_by_pattern(&re, &text), "{:?}", text);
    }
}

#[test]
fn spans_are_found_where_the_pattern_matches_at_that_place() {
    let names = Regex::new(r"^\{[^\{\}]+\}").unwrap();
    let tokens = Regex::new(r"^_stream_id_\[[^\{\[\]\}]+\]__").unwrap();
    for text in ["{A}{B}", "x{A b}", "{{A}", "_stream_id_[a]__", "__stream_id_[a-1]___", "_stream_id_[]__", "{}"] {
        let chars: Vec<char> = text.chars().collect();
        for i in 0..=chars.len() + 1 {
            let rest: String = chars.iter().skip(i).collect();
            let name_end = names.find(&rest).map(|m| i + m.as_str().chars().count());
            let token_end = tokens.find(&rest).map(|m| i + m.as_str().chars().count());
            assert_eq!(name_span_at(&chars, i), name_end, "{:?} at {}", text, i);
            assert_eq!(token_span_at(&chars, i), token_end, "{:?} at {}", text, i);
        }
    }
}

fn encode_by_replacing(re: &Regex, streams: &Vec<Stream>, text: &str) -> String {
    let mut m = text.to_string();
    for name in names_by_pattern(re, text) {
        if let Some(s) = streams.iter().find(|s| s.name == name) {
            m = m.replace(&format!("{{{}}}", s.name), &format!("_stream_id_[{}]__", s.id));
        }
    }
    m
}

fn decode_by_replacing(re: &Regex, streams: &Vec<Stream>, text: &str) -> String {
    let ids = ids_by_pattern(re, text);
    let mut m = text.to_string();
    for s in streams.iter().filter(|s| ids.iter().any(|id| *id == s.id)) {
        m = m.replace(&format!("_stream_id_[{}]__", s.id), &format!("{{{}}}", s.name));
    }
    m
}

#[test]
fn both_forms_agree_with_replacing_name_by_name() {
    let streams = vec![
        stream("0-inbox", "Inbox"),
        stream("17-aB_9", "Work"),
        stream("18-x-y", "Work/Reports"),
        stream("19-q", "a b"),
    ];
    let (names, tokens) = (name_pattern(), token_pattern());
    let pieces = ["{Inbox}", "{Work}", "{Work/Reports}", "{a b}", "{Unknown}", " and ", "[x]", "}"];
    for text in sequences(&pieces, 3) {
        let kept = string_of(&encode(&streams, &chars_of(&text)));
        assert_eq!(kept, encode_by_replacing(&names, &streams, &text), "{:?}", text);
        let shown = string_of(&decode(&streams, &chars_of(&kept)));
        assert_eq!(shown, decode_by_replacing(&tokens, &streams, &kept), "{:?}", kept);
        assert_eq!(shown, text);
    }
    let stored = ["_stream_id_[17-aB_9]__", "_stream_id_[gone]__", "_stream_id_[0-inbox]__", " ", "]__"];
    for text in sequences(&stored, 4) {
        let shown = string_of(&decode(&streams, &chars_of(&text)));
        assert_eq!(shown, decode_by_replacing(&tokens, &streams, &text), "{:?}", text);
    }
}

#[test]
fn the_store_reads_tokens_as_the_pattern_does() {
    let mut db = DB::new();
    db.insert_stream(&stream("a", "A"));
    db.insert_stream(&stream("b", "B"));
    let re = token_pattern();
    for text in sequences(&["_stream_id_[a]__", "_stream_id_[b]__", "_", "[", "]__", "x"], 4) {
        let ids = ids_by_pattern(&re, &text);
        let expected: Vec<&str> =
            ["0-inbox", "a", "b"].into_iter().filter(|id| ids.iter().any(|x| x == id)).collect();
        let found = db.extract_streams_from_meta(&text, false);
        let found: Vec<&str> = found.iter().map(|s| s.id.as_str()).collect();
        assert_eq!(found, expected, "{:?}", text);
    }
}
