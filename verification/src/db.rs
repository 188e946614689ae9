//! The store: streams and entries, the write path that turns references to
//! names into tokens, the read path that turns them back, and search.

use crate::codec::{
    lemma_drop_stream_keeps, lemma_inbox_is_token_safe, lemma_minted_is_token_safe,
    lemma_put_stream_keeps,
};
use crate::ids::{all_minted, is_minted, lemma_spare_id, mint, minted_at, spare_id};
use crate::laws::{closure_names_each_stream_once, round_trip};
use crate::models::{
    Entry, EntryCreation, EntryView, Stream, StreamView, entry_views, record_views, stream_views,
    texts,
};
use crate::order::{
    lemma_filter_none, lemma_filter_step, lemma_inserted_at, lemma_listed_in_order,
    lemma_listed_same_streams,
};
use crate::state::{
    DbView, ancestor_names, answering, carries_all, closure, distinct_stream_ids, drop_entry,
    drop_stream, first_entry_with_id, found, has_id, id_among, in_listing_order, inbox, inserted,
    known_streams, lemma_drop_entry_distinct, lemma_drop_stream_distinct,
    lemma_put_entry_distinct, lemma_put_stream_distinct, lemma_spare_supplies, listed, name_among,
    opened, page, put_entry, put_stream, put_streams, readable, resolved, resolved_all, showing,
    shown, spare_supplies, stored, stored_all, supplies, tagged_with, token_safe_ids, untagged,
    untagged_entries, untagging, without_stream,
};
use crate::tags::{
    decode, decoded, encode, encoded, first_named, first_with_id, ids_of, lemma_first_named,
    lemma_first_with_id, names_in, names_of, no_near_token, position_by_id, position_by_name,
    search_term, search_term_of, token_chars,
};
use crate::text::{
    chars_of, contains, contains_ignoring_case, lowercase_of, replace_all, replace_first,
    string_of, trim,
};
use vstd::math::{max, min};
use vstd::prelude::*;

verus! {

/// A store of entries and streams.
pub struct DB {
    streams: Vec<Stream>,
    entries: Vec<Entry>,
    sync_id: u64,
}

impl View for DB {
    type V = DbView;

    closed spec fn view(&self) -> DbView {
        DbView {
            streams: stream_views(self.streams@),
            entries: entry_views(self.entries@),
            sync_id: self.sync_id,
        }
    }
}

/// Puts `x` into `out`, which is in listing order, behind the streams that
/// are not listed after it.
fn insert_listed(out: &mut Vec<Stream>, x: Stream)
    ensures
        stream_views(final(out)@) == inserted(stream_views(old(out)@), x@),
{
    let mut p: usize = out.len();
    while p > 0 && x.sorts_before(&out[p - 1])
        invariant
            p <= out.len(),
            out@ == old(out)@,
            forall|j: int| p <= j < out.len() ==> x@.sorts_before(#[trigger] out@[j]@),
        decreases p,
    {
        p -= 1;
    }
    proof {
        let sorted = stream_views(out@);
        assert forall|j: int| p <= j < sorted.len() implies x@.sorts_before(
            #[trigger] sorted[j],
        ) by {
            assert(x@.sorts_before(out@[j]@));
        }
        lemma_inserted_at(sorted, x@, p as int);
    }
    out.insert(p, x);
    assert(stream_views(out@) =~= stream_views(old(out)@).insert(p as int, x@));
}

/// The streams given, in listing order: the inbox first, the others by
/// name, streams of equal rank in the order they came in.
pub fn sort_streams(streams: &Vec<Stream>) -> (r: Vec<Stream>)
    ensures
        stream_views(r@) == listed(stream_views(streams@)),
{
    let ghost all = stream_views(streams@);
    let mut out: Vec<Stream> = Vec::new();
    let mut k: usize = 0;
    assert(all.take(0) =~= Seq::<StreamView>::empty());
    assert(stream_views(out@) =~= Seq::<StreamView>::empty());
    while k < streams.len()
        invariant
            k <= streams.len(),
            all == stream_views(streams@),
            stream_views(out@) == listed(all.take(k as int)),
        decreases streams.len() - k,
    {
        insert_listed(&mut out, streams[k].clone());
        assert(all.take(k + 1).drop_last() =~= all.take(k as int));
        assert(all.take(k + 1).last() == streams@[k as int]@);
        k += 1;
    }
    assert(all.take(streams.len() as int) =~= all);
    out
}

/// Tells whether `x` is one of `list`.
pub fn contains_string(list: &Vec<String>, x: &String) -> (r: bool)
    ensures
        r == texts(list@).contains(x@),
{
    let mut k: usize = 0;
    while k < list.len()
        invariant
            k <= list.len(),
            forall|j: int| 0 <= j < k ==> texts(list@)[j] != x@,
        decreases list.len() - k,
    {
        if list[k] == *x {
            assert(texts(list@)[k as int] == x@);
            return true;
        }
        k += 1;
    }
    false
}

/// The streams among `streams` whose identifier is one of `ids`.
fn streams_with_ids(streams: &Vec<Stream>, ids: &Vec<String>) -> (r: Vec<Stream>)
    ensures
        stream_views(r@) == stream_views(streams@).filter(id_among(texts(ids@))),
{
    let ghost all = stream_views(streams@);
    let ghost pred = id_among(texts(ids@));
    let mut out: Vec<Stream> = Vec::new();
    let mut k: usize = 0;
    proof {
        lemma_filter_none(pred);
        assert(all.take(0) =~= Seq::<StreamView>::empty());
        assert(stream_views(out@) =~= Seq::<StreamView>::empty());
    }
    while k < streams.len()
        invariant
            k <= streams.len(),
            all == stream_views(streams@),
            pred == id_among(texts(ids@)),
            stream_views(out@) == all.take(k as int).filter(pred),
        decreases streams.len() - k,
    {
        let ghost before = stream_views(out@);
        proof {
            lemma_filter_step(all, k as int, pred);
        }
        if contains_string(ids, &streams[k].id) {
            out.push(streams[k].clone());
            assert(stream_views(out@) =~= before.push(streams@[k as int]@));
        }
        k += 1;
    }
    assert(all.take(streams.len() as int) =~= all);
    out
}

/// The streams among `streams` whose name is one of `names`.
fn streams_with_names(streams: &Vec<Stream>, names: &Vec<String>) -> (r: Vec<Stream>)
    ensures
        stream_views(r@) == stream_views(streams@).filter(name_among(texts(names@))),
{
    let ghost all = stream_views(streams@);
    let ghost pred = name_among(texts(names@));
    let mut out: Vec<Stream> = Vec::new();
    let mut k: usize = 0;
    proof {
        lemma_filter_none(pred);
        assert(all.take(0) =~= Seq::<StreamView>::empty());
        assert(stream_views(out@) =~= Seq::<StreamView>::empty());
    }
    while k < streams.len()
        invariant
            k <= streams.len(),
            all == stream_views(streams@),
            pred == name_among(texts(names@)),
            stream_views(out@) == all.take(k as int).filter(pred),
        decreases streams.len() - k,
    {
        let ghost before = stream_views(out@);
        proof {
            lemma_filter_step(all, k as int, pred);
        }
        if contains_string(names, &streams[k].name) {
            out.push(streams[k].clone());
            assert(stream_views(out@) =~= before.push(streams@[k as int]@));
        }
        k += 1;
    }
    assert(all.take(streams.len() as int) =~= all);
    out
}

/// The names of `streams` and of all their ancestors, stream by stream.
fn names_with_ancestors(streams: &Vec<Stream>) -> (r: Vec<String>)
    ensures
        texts(r@) == ancestor_names(stream_views(streams@)),
{
    let ghost all = stream_views(streams@);
    let mut out: Vec<String> = Vec::new();
    let mut k: usize = 0;
    assert(all.take(0) =~= Seq::<StreamView>::empty());
    assert(texts(out@) =~= Seq::<Seq<char>>::empty());
    while k < streams.len()
        invariant
            k <= streams.len(),
            all == stream_views(streams@),
            texts(out@) == ancestor_names(all.take(k as int)),
        decreases streams.len() - k,
    {
        let ghost before = texts(out@);
        let mut names = streams[k].parent_names();
        let ghost added = texts(names@);
        out.append(&mut names);
        assert(texts(out@) =~= before + added);
        assert(all.take(k + 1).drop_last() =~= all.take(k as int));
        assert(all.take(k + 1).last() == streams@[k as int]@);
        k += 1;
    }
    assert(all.take(streams.len() as int) =~= all);
    out
}

impl DB {
    /// The streams that an entry with the stored text `s` belongs to: those
    /// whose tokens it holds, in the order of the store; or, if
    /// `parent_streams` is set, those and all streams that carry the name of
    /// one of their ancestors, in listing order.
    pub fn extract_streams_from_meta(&self, s: &String, parent_streams: bool) -> (r: Vec<Stream>)
        ensures
            stream_views(r@) == closure(self@.streams, s@, parent_streams),
            self@.wf() ==> distinct_stream_ids(stream_views(r@)),
    {
        proof {
            if self@.wf() {
                closure_names_each_stream_once(self@.streams, s@, parent_streams);
            }
        }
        let text = chars_of(s.as_str());
        let ids = ids_of(&text);
        let direct = streams_with_ids(&self.streams, &ids);
        if parent_streams {
            let names = names_with_ancestors(&direct);
            let related = streams_with_names(&self.streams, &names);
            sort_streams(&related)
        } else {
            direct
        }
    }

    /// All streams in listing order: the inbox first, the others by name,
    /// letter case counting; streams of one name in the order of the store.
    pub fn list_streams(&self) -> (r: Vec<Stream>)
        ensures
            stream_views(r@) == listed(self@.streams),
            in_listing_order(stream_views(r@)),
            stream_views(r@).to_multiset() == self@.streams.to_multiset(),
    {
        proof {
            lemma_listed_in_order(self@.streams);
            lemma_listed_same_streams(self@.streams);
        }
        sort_streams(&self.streams)
    }

    /// Writes `update` under its identifier: in place of the stream that has
    /// it, or behind all others.
    pub fn insert_stream(&mut self, update: &Stream)
        ensures
            old(self)@.wf() ==> final(self)@.wf(),
            final(self)@.streams == put_stream(old(self)@.streams, update@),
            final(self)@.entries == old(self)@.entries,
            final(self)@.sync_id == old(self)@.sync_id,
    {
        proof {
            if self@.wf() {
                lemma_put_stream_distinct(self@.streams, update@);
            }
        }
        match position_by_id(&self.streams, &update.id) {
            Some(k) => {
                self.streams.set(k, update.clone());
                assert(stream_views(self.streams@) =~= put_stream(
                    stream_views(old(self).streams@),
                    update@,
                ));
            },
            None => {
                self.streams.push(update.clone());
                assert(stream_views(self.streams@) =~= put_stream(
                    stream_views(old(self).streams@),
                    update@,
                ));
            },
        }
    }

    /// The stream whose identifier is `id`, if the store has one.
    pub fn get_stream(&self, id: &String) -> (r: Option<Stream>)
        ensures
            r is Some <==> first_with_id(self@.streams, id@, 0) < self@.streams.len(),
            r matches Some(s) ==> s@ == self@.streams[first_with_id(self@.streams, id@, 0)],
    {
        match position_by_id(&self.streams, id) {
            Some(k) => Some(self.streams[k].clone()),
            None => None,
        }
    }
}

/// The position of the entry whose identifier is `id`, if there is one.
fn entry_position(entries: &Vec<Entry>, id: &String) -> (r: Option<usize>)
    ensures
        r matches Some(k) ==> k < entries.len() && first_entry_with_id(
            entry_views(entries@),
            id@,
            0,
        ) == k,
        r is None ==> first_entry_with_id(entry_views(entries@), id@, 0) == entries.len(),
{
    let mut k: usize = 0;
    while k < entries.len()
        invariant
            k <= entries.len(),
            first_entry_with_id(entry_views(entries@), id@, k as int) == first_entry_with_id(
                entry_views(entries@),
                id@,
                0,
            ),
        decreases entries.len() - k,
    {
        if entries[k].id == *id {
            return Some(k);
        }
        k += 1;
    }
    None
}

impl DB {
    /// Finds the first stream called `name`. If there is none and `create`
    /// is set, makes one under a new identifier and writes it.
    pub fn stream_by_name(&mut self, name: &String, create: bool) -> (r: Option<Stream>)
        ensures
            old(self)@.wf() ==> final(self)@.wf(),
            token_safe_ids(old(self)@.streams) ==> token_safe_ids(final(self)@.streams),
            final(self)@.entries == old(self)@.entries,
            final(self)@.sync_id == old(self)@.sync_id,
            ({
                let reg = old(self)@.streams;
                let k = first_named(reg, name@, 0);
                if 0 <= k < reg.len() {
                    final(self)@.streams == reg && r is Some && r->0@ == reg[k]
                } else if !create {
                    final(self)@.streams == reg && r is None
                } else {
                    &&& r is Some
                    &&& r->0@.name == name@
                    &&& r->0@.meta == Seq::<char>::empty()
                    &&& is_minted(r->0@.id)
                    &&& final(self)@.streams == put_stream(reg, r->0@)
                }
            }),
    {
        match position_by_name(&self.streams, name) {
            Some(k) => Some(self.streams[k].clone()),
            None => {
                if create {
                    let (id, _) = mint();
                    let s = Stream { id, meta: String::new(), name: name.clone() };
                    proof {
                        lemma_minted_is_token_safe(s@.id);
                        if token_safe_ids(self@.streams) {
                            lemma_put_stream_keeps(self@.streams, s@);
                        }
                    }
                    self.insert_stream(&s);
                    Some(s)
                } else {
                    None
                }
            },
        }
    }

    /// Writes `meta` in stored form: makes sure that a stream exists for
    /// each name it refers to, and puts that stream's token in place of each
    /// reference.
    pub fn preprocess_meta(&mut self, meta: &String) -> (r: String)
        ensures
            old(self)@.wf() ==> final(self)@.wf(),
            token_safe_ids(old(self)@.streams) ==> token_safe_ids(final(self)@.streams),
            final(self)@.entries == old(self)@.entries,
            final(self)@.sync_id == old(self)@.sync_id,
            exists|ids: Seq<Seq<char>>|
                #![trigger resolved_all(old(self)@.streams, names_in(meta@), ids)]
                ids.len() == names_in(meta@).len() && all_minted(ids) && final(self)@.streams
                    == resolved_all(old(self)@.streams, names_in(meta@), ids),
            r@ == encoded(final(self)@.streams, meta@),
    {
        let text = chars_of(meta.as_str());
        let names = names_of(&text);
        let ghost wanted = names_in(meta@);
        let ghost mut ids: Seq<Seq<char>> = Seq::empty();
        let mut k: usize = 0;
        assert(wanted.take(0) =~= Seq::<Seq<char>>::empty());
        while k < names.len()
            invariant
                k <= names.len(),
                wanted == texts(names@),
                old(self)@.wf() ==> self@.wf(),
                token_safe_ids(old(self)@.streams) ==> token_safe_ids(self@.streams),
                self@.entries == old(self)@.entries,
                self@.sync_id == old(self)@.sync_id,
                ids.len() == k,
                all_minted(ids),
                self@.streams == resolved_all(old(self)@.streams, wanted.take(k as int), ids),
            decreases names.len() - k,
        {
            let ghost reg = self@.streams;
            let found = self.stream_by_name(&names[k], true);
            proof {
                lemma_spare_id();
                lemma_first_named(reg, wanted[k as int], 0);
                assert(wanted[k as int] == names@[k as int]@);
                let id = if first_named(reg, wanted[k as int], 0) < reg.len() {
                    spare_id()
                } else {
                    found->0@.id
                };
                assert(self@.streams == resolved(reg, wanted[k as int], id)) by {
                    if first_named(reg, wanted[k as int], 0) >= reg.len() {
                        assert(found->0@ == (StreamView {
                            id,
                            meta: Seq::empty(),
                            name: wanted[k as int],
                        }));
                    }
                }
                let longer = ids.push(id);
                assert(longer.drop_last() =~= ids);
                assert(wanted.take(k + 1).drop_last() =~= wanted.take(k as int));
                assert(all_minted(longer));
                ids = longer;
            }
            k += 1;
        }
        assert(wanted.take(names.len() as int) =~= wanted);
        string_of(&encode(&self.streams, &text))
    }

    /// Writes `meta` in display form: each token of a stream that exists
    /// becomes a reference to the stream's name.
    pub fn postprocess_meta(&self, meta: &String) -> (r: String)
        ensures
            r@ == decoded(self@.streams, meta@),
    {
        let text = chars_of(meta.as_str());
        string_of(&decode(&self.streams, &text))
    }

    /// Writes `update` and returns `meta` in the form in which it was kept.
    fn store(&mut self, update: &Entry) -> (kept: String)
        ensures
            old(self)@.wf() ==> final(self)@.wf(),
            token_safe_ids(old(self)@.streams) ==> token_safe_ids(final(self)@.streams),
            exists|ids: Seq<Seq<char>>|
                #![trigger stored(old(self)@, update@, ids)]
                ids.len() == names_in(update@.meta).len() && all_minted(ids) && final(self)@
                    == stored(old(self)@, update@, ids),
            kept@ == encoded(final(self)@.streams, update@.meta),
    {
        let meta = self.preprocess_meta(&update.meta);
        let ghost ids = choose|ids: Seq<Seq<char>>|
            #![trigger resolved_all(old(self)@.streams, names_in(update@.meta), ids)]
            ids.len() == names_in(update@.meta).len() && all_minted(ids) && self@.streams
                == resolved_all(old(self)@.streams, names_in(update@.meta), ids);
        let entry = Entry {
            id: update.id.clone(),
            created: update.created,
            meta: meta.clone(),
            title: update.title.clone(),
            body: update.body.clone(),
        };
        proof {
            if self@.wf() {
                lemma_put_entry_distinct(self@.entries, entry@);
            }
        }
        let ghost before = entry_views(self.entries@);
        match entry_position(&self.entries, &entry.id) {
            Some(k) => {
                self.entries.set(k, entry);
                assert(entry_views(self.entries@) =~= put_entry(before, entry@));
            },
            None => {
                self.entries.push(entry);
                assert(entry_views(self.entries@) =~= put_entry(before, entry@));
            },
        }
        assert(self@ == stored(old(self)@, update@, ids));
        meta
    }

    /// Writes `update`, whose `meta` is in display form, under its
    /// identifier: in place of the entry that has it, or behind all others.
    /// Streams are made for the names that `meta` refers to and that no
    /// stream carries.
    pub fn insert_entry(&mut self, update: &Entry)
        ensures
            old(self)@.wf() ==> final(self)@.wf(),
            token_safe_ids(old(self)@.streams) ==> token_safe_ids(final(self)@.streams),
            exists|ids: Seq<Seq<char>>|
                #![trigger stored(old(self)@, update@, ids)]
                ids.len() == names_in(update@.meta).len() && all_minted(ids) && final(self)@
                    == stored(old(self)@, update@, ids),
    {
        let _ = self.store(update);
    }

    /// Makes an entry of the fields given, under a new identifier and with
    /// the present time, writes it, and returns it as a reader sees it.
    pub fn create_entry(&mut self, create: &EntryCreation) -> (r: Entry)
        ensures
            old(self)@.wf() ==> final(self)@.wf(),
            token_safe_ids(old(self)@.streams) ==> token_safe_ids(final(self)@.streams),
            minted_at(r@.id, r@.created),
            r@.title == create.title@,
            r@.body == create.body@,
            r@.meta == decoded(final(self)@.streams, encoded(final(self)@.streams, create.meta@)),
            old(self)@.wf() && token_safe_ids(old(self)@.streams) && no_near_token(
                create.meta@,
            ) ==> r@.meta == create.meta@,
            exists|ids: Seq<Seq<char>>|
                #![trigger stored(old(self)@, r@.with_meta(create.meta@), ids)]
                ids.len() == names_in(create.meta@).len() && all_minted(ids) && final(self)@
                    == stored(old(self)@, r@.with_meta(create.meta@), ids),
    {
        let (id, now) = mint();
        let entry = Entry {
            id,
            created: now,
            meta: create.meta.clone(),
            title: create.title.clone(),
            body: create.body.clone(),
        };
        let kept = self.store(&entry);
        let meta = self.postprocess_meta(&kept);
        let r = Entry { id: entry.id, created: now, meta, title: entry.title, body: entry.body };
        assert(r@.with_meta(create.meta@) == entry@);
        proof {
            if old(self)@.wf() && token_safe_ids(old(self)@.streams) && no_near_token(
                create.meta@,
            ) {
                round_trip(self@.streams, create.meta@);
            }
        }
        r
    }

    /// The entry whose identifier is `id`, as a reader sees it, if the store
    /// has one.
    pub fn get_entry(&self, id: &String) -> (r: Option<Entry>)
        ensures
            r is Some <==> first_entry_with_id(self@.entries, id@, 0) < self@.entries.len(),
            r matches Some(e) ==> e@ == shown(
                self@.streams,
                self@.entries[first_entry_with_id(self@.entries, id@, 0)],
            ),
    {
        match entry_position(&self.entries, id) {
            Some(k) => {
                let e = &self.entries[k];
                Some(
                    Entry {
                        id: e.id.clone(),
                        created: e.created,
                        meta: self.postprocess_meta(&e.meta),
                        title: e.title.clone(),
                        body: e.body.clone(),
                    },
                )
            },
            None => None,
        }
    }

    /// Removes the entry whose identifier is `id`, if the store has one.
    pub fn delete_entry(&mut self, id: &String)
        ensures
            old(self)@.wf() ==> final(self)@.wf(),
            final(self)@.entries == drop_entry(old(self)@.entries, id@),
            final(self)@.streams == old(self)@.streams,
            final(self)@.sync_id == old(self)@.sync_id,
    {
        proof {
            if self@.wf() {
                lemma_drop_entry_distinct(self@.entries, id@);
            }
        }
        let ghost before = entry_views(self.entries@);
        match entry_position(&self.entries, id) {
            Some(k) => {
                let _ = self.entries.remove(k);
                assert(entry_views(self.entries@) =~= before.remove(k as int));
            },
            None => {},
        }
    }
}

/// The names of the streams that `s` refers to, left to right.
pub fn extract_stream_names(s: &String) -> (r: Vec<String>)
    ensures
        texts(r@) == names_in(s@),
{
    names_of(&chars_of(s.as_str()))
}

/// The words that `query` looks for in titles and bodies: the query without
/// its references to streams, without a reference left open at its end, and
/// without surrounding white space.
pub fn clean_stream_names(query: &String) -> (r: String)
    ensures
        r@ == search_term(query@),
{
    string_of(&search_term_of(&chars_of(query.as_str())))
}

/// Tells whether `text` holds `term`, letter case put aside.
fn holds_term(text: &String, term: &String) -> (r: bool)
    ensures
        r == contains_ignoring_case(text@, term@),
{
    let hay = lowercase_of(text.as_str());
    let needle = lowercase_of(term.as_str());
    contains(&chars_of(hay.as_str()), &chars_of(needle.as_str()))
}

/// Tells whether the title of `entry` holds the words of `query`, letter
/// case put aside. A query without words is held by every title.
pub fn match_title(query: &String, entry: &Entry) -> (r: bool)
    ensures
        r == contains_ignoring_case(entry@.title, search_term(query@)),
{
    holds_term(&entry.title, &clean_stream_names(query))
}

/// Tells whether the body of `entry` holds the words of `query`, letter
/// case put aside. A query without words is held by every body.
pub fn match_body(query: &String, entry: &Entry) -> (r: bool)
    ensures
        r == contains_ignoring_case(entry@.body, search_term(query@)),
{
    holds_term(&entry.body, &clean_stream_names(query))
}

/// Tells whether one of `streams` has the identifier `id`.
fn has_stream(streams: &Vec<Stream>, id: &String) -> (r: bool)
    ensures
        r == has_id(stream_views(streams@), id@),
{
    proof {
        lemma_first_with_id(stream_views(streams@), id@, 0);
    }
    match position_by_id(streams, id) {
        Some(k) => {
            assert(stream_views(streams@)[k as int].id == id@);
            true
        },
        None => false,
    }
}

/// The part of `all` that starts at `offset` and holds at most `limit`
/// entries.
fn page_of(all: &Vec<Entry>, offset: usize, limit: usize) -> (r: Vec<Entry>)
    ensures
        entry_views(r@) == page(entry_views(all@), offset as nat, limit as nat),
{
    let from: usize = if offset < all.len() {
        offset
    } else {
        all.len()
    };
    let to: usize = if limit < all.len() - from {
        from + limit
    } else {
        all.len()
    };
    let mut out: Vec<Entry> = Vec::new();
    let mut k: usize = from;
    while k < to
        invariant
            from <= k <= to <= all.len(),
            entry_views(out@) == entry_views(all@).subrange(from as int, k as int),
        decreases to - k,
    {
        let ghost before = entry_views(out@);
        out.push(all[k].clone());
        assert(entry_views(out@) =~= before.push(all@[k as int]@));
        assert(entry_views(out@) =~= entry_views(all@).subrange(from as int, k + 1));
        k += 1;
    }
    out
}

impl DB {
    /// The streams that `query` names and the store knows: for each name,
    /// in the order written, the first stream called so. Names that no
    /// stream carries are passed over.
    pub fn streams_from_query(&self, query: &String) -> (r: Vec<Stream>)
        ensures
            stream_views(r@) == known_streams(self@.streams, names_in(query@)),
    {
        let names = extract_stream_names(query);
        let ghost wanted = names_in(query@);
        let ghost reg = self@.streams;
        let mut out: Vec<Stream> = Vec::new();
        let mut k: usize = 0;
        assert(wanted.take(0) =~= Seq::<Seq<char>>::empty());
        assert(stream_views(out@) =~= Seq::<StreamView>::empty());
        while k < names.len()
            invariant
                k <= names.len(),
                wanted == texts(names@),
                reg == self@.streams,
                stream_views(out@) == known_streams(reg, wanted.take(k as int)),
            decreases names.len() - k,
        {
            let ghost before = stream_views(out@);
            assert(wanted.take(k + 1).drop_last() =~= wanted.take(k as int));
            assert(wanted.take(k + 1).last() == names@[k as int]@);
            match position_by_name(&self.streams, &names[k]) {
                Some(p) => {
                    out.push(self.streams[p].clone());
                    assert(stream_views(out@) =~= before.push(reg[p as int]));
                },
                None => {},
            }
            k += 1;
        }
        assert(wanted.take(names.len() as int) =~= wanted);
        out
    }

    /// Tells whether `entry`, in stored form, belongs to each of
    /// `query_streams`: to the streams whose tokens it holds and, if
    /// `parent_streams` is set, to those that carry an ancestor's name.
    pub fn match_meta(&self, query_streams: &Vec<Stream>, entry: &Entry, parent_streams: bool) -> (r:
        bool)
        ensures
            r == carries_all(
                closure(self@.streams, entry@.meta, parent_streams),
                stream_views(query_streams@),
            ),
    {
        let streams = self.extract_streams_from_meta(&entry.meta, parent_streams);
        let ghost wanted = stream_views(query_streams@);
        let mut q: usize = 0;
        while q < query_streams.len()
            invariant
                q <= query_streams.len(),
                wanted == stream_views(query_streams@),
                stream_views(streams@) == closure(self@.streams, entry@.meta, parent_streams),
                forall|j: int| 0 <= j < q ==> has_id(stream_views(streams@), (#[trigger] wanted[j]).id),
            decreases query_streams.len() - q,
        {
            if !has_stream(&streams, &query_streams[q].id) {
                assert(!has_id(stream_views(streams@), wanted[q as int].id));
                return false;
            }
            q += 1;
        }
        true
    }

    /// The entries that answer `query`, newest first: their number, and of
    /// them those from `offset` on, `limit` at most, as a reader sees them.
    ///
    /// An entry answers a query if it belongs to every stream that the
    /// query names and the store knows, its ancestors counted in, and if
    /// its title or body holds the words of the query.
    pub fn list_entries(&self, query: &String, offset: usize, limit: usize) -> (r: (
        usize,
        Vec<Entry>,
    ))
        ensures
            r.0 == found(self@, query@).len(),
            entry_views(r.1@) == page(found(self@, query@), offset as nat, limit as nat),
            r.1@.len() == min(limit as int, max(0, r.0 - offset)),
    {
        let wanted = self.streams_from_query(query);
        let ghost rev = self@.entries.reverse();
        let ghost pred = answering(self@.streams, query@);
        let ghost show = showing(self@.streams);
        let n: usize = self.entries.len();
        let mut all: Vec<Entry> = Vec::new();
        let mut j: usize = 0;
        proof {
            lemma_filter_none(pred);
            assert(rev.take(0) =~= Seq::<EntryView>::empty());
            assert(entry_views(all@) =~= Seq::<EntryView>::empty().map_values(show));
        }
        while j < n
            invariant
                j <= n,
                n == self.entries.len(),
                rev == self@.entries.reverse(),
                pred == answering(self@.streams, query@),
                show == showing(self@.streams),
                stream_views(wanted@) == known_streams(self@.streams, names_in(query@)),
                entry_views(all@) == rev.take(j as int).filter(pred).map_values(show),
            decreases n - j,
        {
            let e = &self.entries[n - 1 - j];
            let ghost before = entry_views(all@);
            let ghost kept = rev.take(j as int).filter(pred);
            proof {
                assert(rev[j as int] == e@);
                lemma_filter_step(rev, j as int, pred);
            }
            if self.match_meta(&wanted, e, true) && (match_title(query, e) || match_body(query, e)) {
                let seen = Entry {
                    id: e.id.clone(),
                    created: e.created,
                    meta: self.postprocess_meta(&e.meta),
                    title: e.title.clone(),
                    body: e.body.clone(),
                };
                all.push(seen);
                assert(entry_views(all@) =~= before.push(show(e@)));
                assert(kept.push(e@).map_values(show) =~= before.push(show(e@)));
            }
            j += 1;
        }
        assert(rev.take(n as int) =~= rev);
        let total = all.len();
        let part = page_of(&all, offset, limit);
        assert(part@.len() == entry_views(part@).len());
        (total, part)
    }
}

/// Two blanks, and one.
fn blanks() -> (r: (Vec<char>, Vec<char>))
    ensures
        r.0@ == seq![' ', ' '],
        r.1@ == seq![' '],
{
    let mut two: Vec<char> = Vec::new();
    two.push(' ');
    two.push(' ');
    let mut one: Vec<char> = Vec::new();
    one.push(' ');
    assert(two@ =~= seq![' ', ' ']);
    assert(one@ =~= seq![' ']);
    (two, one)
}

impl DB {
    /// The stored text `meta` with the token of stream `id` taken out, in
    /// display form: every occurrence of the token is removed, the first
    /// two double blanks are made single, and the ends are trimmed.
    pub fn untag(&self, meta: &String, id: &String) -> (r: String)
        ensures
            r@ == untagged(self@.streams, meta@, id@),
    {
        let text = chars_of(meta.as_str());
        let token = token_chars(&chars_of(id.as_str()));
        let nothing: Vec<char> = Vec::new();
        let (two, one) = blanks();
        let cut = replace_all(&text, &token, &nothing);
        let tidy = trim(&replace_first(&cut, &two, &one, 2));
        string_of(&decode(&self.streams, &tidy))
    }

    /// The entries that hold the token of stream `id`, newest first, each
    /// in display form and with that token taken out.
    pub fn untagged_entries(&self, id: &String) -> (r: Vec<Entry>)
        ensures
            entry_views(r@) == untagged_entries(self@, id@),
    {
        let ghost rev = self@.entries.reverse();
        let ghost pred = tagged_with(self@.streams, id@);
        let ghost step = untagging(self@.streams, id@);
        let n: usize = self.entries.len();
        let mut out: Vec<Entry> = Vec::new();
        let mut j: usize = 0;
        proof {
            lemma_filter_none(pred);
            assert(rev.take(0) =~= Seq::<EntryView>::empty());
            assert(entry_views(out@) =~= Seq::<EntryView>::empty().map_values(step));
        }
        while j < n
            invariant
                j <= n,
                n == self.entries.len(),
                rev == self@.entries.reverse(),
                pred == tagged_with(self@.streams, id@),
                step == untagging(self@.streams, id@),
                entry_views(out@) == rev.take(j as int).filter(pred).map_values(step),
            decreases n - j,
        {
            let e = &self.entries[n - 1 - j];
            let ghost before = entry_views(out@);
            let ghost kept = rev.take(j as int).filter(pred);
            proof {
                assert(rev[j as int] == e@);
                lemma_filter_step(rev, j as int, pred);
            }
            let direct = self.extract_streams_from_meta(&e.meta, false);
            if has_stream(&direct, id) {
                let loose = Entry {
                    id: e.id.clone(),
                    created: e.created,
                    meta: self.untag(&e.meta, id),
                    title: e.title.clone(),
                    body: e.body.clone(),
                };
                out.push(loose);
                assert(entry_views(out@) =~= before.push(step(e@)));
                assert(kept.push(e@).map_values(step) =~= before.push(step(e@)));
            }
            j += 1;
        }
        assert(rev.take(n as int) =~= rev);
        out
    }

    /// Writes each of `entries` in turn, as `insert_entry` does.
    pub fn insert_entries(&mut self, entries: &Vec<Entry>)
        ensures
            old(self)@.wf() ==> final(self)@.wf(),
            token_safe_ids(old(self)@.streams) ==> token_safe_ids(final(self)@.streams),
            exists|idss: Seq<Seq<Seq<char>>>|
                #![trigger stored_all(old(self)@, entry_views(entries@), idss)]
                supplies(entry_views(entries@), idss) && final(self)@ == stored_all(
                    old(self)@,
                    entry_views(entries@),
                    idss,
                ),
    {
        let ghost es = entry_views(entries@);
        let ghost mut idss: Seq<Seq<Seq<char>>> = Seq::empty();
        let mut k: usize = 0;
        assert(es.take(0) =~= Seq::<EntryView>::empty());
        while k < entries.len()
            invariant
                k <= entries.len(),
                es == entry_views(entries@),
                old(self)@.wf() ==> self@.wf(),
                token_safe_ids(old(self)@.streams) ==> token_safe_ids(self@.streams),
                supplies(es.take(k as int), idss),
                self@ == stored_all(old(self)@, es.take(k as int), idss),
            decreases entries.len() - k,
        {
            let ghost prev = self@;
            self.insert_entry(&entries[k]);
            proof {
                let e = entries@[k as int]@;
                let ids = choose|ids: Seq<Seq<char>>|
                    #![trigger stored(prev, e, ids)]
                    ids.len() == names_in(e.meta).len() && all_minted(ids) && self@ == stored(
                        prev,
                        e,
                        ids,
                    );
                let longer = idss.push(ids);
                assert(longer.drop_last() =~= idss);
                assert(es.take(k + 1).drop_last() =~= es.take(k as int));
                assert(es.take(k + 1).last() == e);
                assert(supplies(es.take(k + 1), longer)) by {
                    assert forall|i: int| 0 <= i < es.take(k + 1).len() implies (
                    #[trigger] longer[i]).len() == names_in(es.take(k + 1)[i].meta).len()
                        && all_minted(longer[i]) by {
                        if i < k {
                            assert(longer[i] == idss[i]);
                            assert(es.take(k + 1)[i] == es.take(k as int)[i]);
                        }
                    }
                }
                idss = longer;
            }
            k += 1;
        }
        assert(es.take(entries.len() as int) =~= es);
    }

    /// Removes the stream whose identifier is `id`, if the store has one.
    /// No entry is touched: tokens of the stream stay where they stand.
    pub fn remove_stream(&mut self, id: &String)
        ensures
            old(self)@.wf() ==> final(self)@.wf(),
            token_safe_ids(old(self)@.streams) ==> token_safe_ids(final(self)@.streams),
            final(self)@.streams == drop_stream(old(self)@.streams, id@),
            final(self)@.entries == old(self)@.entries,
            final(self)@.sync_id == old(self)@.sync_id,
    {
        proof {
            if self@.wf() {
                lemma_drop_stream_distinct(self@.streams, id@);
            }
            if token_safe_ids(self@.streams) {
                lemma_drop_stream_keeps(self@.streams, id@);
            }
        }
        let ghost before = stream_views(self.streams@);
        match position_by_id(&self.streams, id) {
            Some(k) => {
                let _ = self.streams.remove(k);
                assert(stream_views(self.streams@) =~= before.remove(k as int));
            },
            None => {},
        }
    }

    /// Deletes the stream whose identifier is `id`, if the store has one:
    /// first every entry that holds its token is written again without it,
    /// then the stream is removed. Entries that belong to the stream only
    /// through a descendant are left as they are.
    pub fn delete_stream(&mut self, id: &String)
        ensures
            old(self)@.wf() ==> final(self)@.wf(),
            token_safe_ids(old(self)@.streams) ==> token_safe_ids(final(self)@.streams),
            exists|idss: Seq<Seq<Seq<char>>>|
                #![trigger without_stream(old(self)@, id@, idss)]
                supplies(untagged_entries(old(self)@, id@), idss) && final(self)@
                    == without_stream(old(self)@, id@, idss),
    {
        proof {
            lemma_first_with_id(self@.streams, id@, 0);
        }
        if position_by_id(&self.streams, id).is_none() {
            proof {
                lemma_spare_supplies(untagged_entries(self@, id@));
                assert(self@ == without_stream(
                    old(self)@,
                    id@,
                    spare_supplies(untagged_entries(self@, id@)),
                ));
            }
            return;
        }
        let pending = self.untagged_entries(id);
        self.insert_entries(&pending);
        let ghost es = untagged_entries(old(self)@, id@);
        let ghost idss = choose|idss: Seq<Seq<Seq<char>>>|
            #![trigger stored_all(old(self)@, es, idss)]
            supplies(es, idss) && self@ == stored_all(old(self)@, es, idss);
        self.remove_stream(id);
        assert(self@ == without_stream(old(self)@, id@, idss));
    }

    /// The store that is opened over what was kept: `streams` and `records`
    /// in the order in which they were kept, a record that could not be
    /// read being `None`, and the synchronisation mark if there was one.
    ///
    /// The inbox is written over whatever stood under its identifier, every
    /// record that could be read is written again as `insert_entry` does,
    /// and the others are left out.
    pub fn init(streams: &Vec<Stream>, records: &Vec<Option<Entry>>, sync_id: Option<u64>) -> (db:
        DB)
        ensures
            db@.wf(),
            exists|idss: Seq<Seq<Seq<char>>>|
                #![trigger opened(stream_views(streams@), record_views(records@), sync_id, idss)]
                supplies(readable(record_views(records@)), idss) && db@ == opened(
                    stream_views(streams@),
                    record_views(records@),
                    sync_id,
                    idss,
                ),
    {
        let mut db = DB {
            streams: Vec::new(),
            entries: Vec::new(),
            sync_id: match sync_id {
                Some(n) => n,
                None => 0,
            },
        };
        let ghost kept = stream_views(streams@);
        let mut k: usize = 0;
        assert(kept.take(0) =~= Seq::<StreamView>::empty());
        assert(db@.streams =~= Seq::<StreamView>::empty());
        assert(db@.entries =~= Seq::<EntryView>::empty());
        while k < streams.len()
            invariant
                k <= streams.len(),
                kept == stream_views(streams@),
                db@.wf(),
                db@.entries == Seq::<EntryView>::empty(),
                db@.sync_id == match sync_id {
                    Some(n) => n,
                    None => 0,
                },
                db@.streams == put_streams(Seq::empty(), kept.take(k as int)),
            decreases streams.len() - k,
        {
            db.insert_stream(&streams[k]);
            assert(kept.take(k + 1).drop_last() =~= kept.take(k as int));
            assert(kept.take(k + 1).last() == streams@[k as int]@);
            k += 1;
        }
        assert(kept.take(streams.len() as int) =~= kept);
        db.insert_stream(&Stream::inbox());
        let ghost all = record_views(records@);
        let mut good: Vec<Entry> = Vec::new();
        let mut j: usize = 0;
        assert(all.take(0) =~= Seq::<Option<EntryView>>::empty());
        assert(entry_views(good@) =~= Seq::<EntryView>::empty());
        while j < records.len()
            invariant
                j <= records.len(),
                all == record_views(records@),
                entry_views(good@) == readable(all.take(j as int)),
            decreases records.len() - j,
        {
            let ghost before = entry_views(good@);
            assert(all.take(j + 1).drop_last() =~= all.take(j as int));
            assert(all.take(j + 1).last() == all[j as int]);
            match &records[j] {
                Some(e) => {
                    good.push(e.clone());
                    assert(entry_views(good@) =~= before.push(e@));
                },
                None => {},
            }
            j += 1;
        }
        assert(all.take(records.len() as int) =~= all);
        let ghost base = db@;
        db.insert_entries(&good);
        proof {
            let idss = choose|idss: Seq<Seq<Seq<char>>>|
                #![trigger stored_all(base, entry_views(good@), idss)]
                supplies(entry_views(good@), idss) && db@ == stored_all(
                    base,
                    entry_views(good@),
                    idss,
                );
            assert(base == (DbView {
                streams: put_stream(put_streams(Seq::empty(), kept), inbox()),
                entries: Seq::empty(),
                sync_id: match sync_id {
                    Some(n) => n,
                    None => 0,
                },
            }));
            assert(db@ == opened(kept, all, sync_id, idss));
        }
        db
    }

    /// A store that holds the inbox and nothing else.
    pub fn new() -> (db: DB)
        ensures
            db@.wf(),
            token_safe_ids(db@.streams),
            db@ == (DbView { streams: seq![inbox()], entries: Seq::empty(), sync_id: 0 }),
    {
        let mut db = DB { streams: Vec::new(), entries: Vec::new(), sync_id: 0 };
        assert(db@.streams =~= Seq::<StreamView>::empty());
        assert(db@.entries =~= Seq::<EntryView>::empty());
        db.insert_stream(&Stream::inbox());
        assert(db@.streams =~= seq![inbox()]);
        proof {
            lemma_inbox_is_token_safe();
        }
        db
    }

    /// The synchronisation mark of the store.
    pub fn get_sync_id(&self) -> (r: u64)
        ensures
            r == self@.sync_id,
    {
        self.sync_id
    }

    /// The streams in the order and form in which the store keeps them.
    pub fn stored_streams(&self) -> (r: Vec<Stream>)
        ensures
            stream_views(r@) == self@.streams,
    {
        let mut out: Vec<Stream> = Vec::new();
        let mut k: usize = 0;
        while k < self.streams.len()
            invariant
                k <= self.streams.len(),
                stream_views(out@) == self@.streams.take(k as int),
            decreases self.streams.len() - k,
        {
            let ghost before = stream_views(out@);
            out.push(self.streams[k].clone());
            assert(stream_views(out@) =~= before.push(self.streams@[k as int]@));
            assert(stream_views(out@) =~= self@.streams.take(k + 1));
            k += 1;
        }
        assert(self@.streams.take(self.streams.len() as int) =~= self@.streams);
        out
    }

    /// The entries in the order and form in which the store keeps them:
    /// `meta` holds tokens, not names.
    pub fn stored_entries(&self) -> (r: Vec<Entry>)
        ensures
            entry_views(r@) == self@.entries,
    {
        let mut out: Vec<Entry> = Vec::new();
        let mut k: usize = 0;
        while k < self.entries.len()
            invariant
                k <= self.entries.len(),
                entry_views(out@) == self@.entries.take(k as int),
            decreases self.entries.len() - k,
        {
            let ghost before = entry_views(out@);
            out.push(self.entries[k].clone());
            assert(entry_views(out@) =~= before.push(self.entries@[k as int]@));
            assert(entry_views(out@) =~= self@.entries.take(k + 1));
            k += 1;
        }
        assert(self@.entries.take(self.entries.len() as int) =~= self@.entries);
        out
    }
}

} // verus!
