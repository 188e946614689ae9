//! A store for personal notes. Entries carry a title, a body and free text
//! that refers to streams: tags with names like `Work/Reports`, which can be
//! renamed at any time because entries keep a stream's identifier, not its
//! name.
//!
//! The functions of this file are what a server or a host application calls:
//! each takes the store and one request and gives the answer. The store
//! lives in memory; keeping it on disk is the caller's part.
//!
//! `models` holds the records, `tags` the two notations for a reference to
//! a stream, `db` the store, and `state` what the store is in mathematical
//! terms. `laws` states what holds of every store; `order`, `codec`,
//! `ancestry` and `cascade` hold the proofs that the laws rest on. `text`,
//! `ids` and `clock` are the ground under all of it.

use crate::db::DB;
use crate::ids::{all_minted, minted_at};
use crate::models::{Entry, EntryCreation, Stream, StreamView, entry_views, stream_views};
use crate::order::lemma_listed_len;
use crate::state::{
    drop_entry, first_entry_with_id, found, in_listing_order, lemma_first_entry_with_id, listed,
    page, stored, supplies, token_safe_ids, untagged_entries, without_stream,
};
use crate::tags::{decoded, encoded, first_with_id, lemma_first_with_id, names_in, no_near_token};
use vstd::math::{max, min};
use vstd::prelude::*;

pub mod ancestry;
pub mod cascade;
pub mod clock;
pub mod codec;
pub mod db;
pub mod ids;
pub mod laws;
pub mod models;
pub mod order;
pub mod state;
pub mod tags;
pub mod text;

verus! {

/// One page of the entries that answer a query, with the number of all that
/// answer it.
#[derive(Debug)]
pub struct EntryList {
    pub total: usize,
    pub offset: usize,
    pub entries: Vec<Entry>,
}

/// All streams, and their number.
#[derive(Debug)]
pub struct StreamList {
    pub total: usize,
    pub streams: Vec<Stream>,
}

/// What to list: a query, and which part of the answer.
#[derive(Debug)]
pub struct ListOptions {
    pub query: String,
    pub offset: usize,
    pub limit: usize,
}

/// What a caller is told when a request could not be read.
#[derive(Debug)]
pub struct ErrorResponse {
    pub error: String,
}

/// Lists the entries that answer `options.query`, newest first: `total` is
/// their number, and `entries` holds those from `options.offset` on,
/// `options.limit` at most.
pub fn list_entries(db: &DB, options: ListOptions) -> (r: EntryList)
    ensures
        r.total == found(db@, options.query@).len(),
        r.offset == options.offset,
        entry_views(r.entries@) == page(
            found(db@, options.query@),
            options.offset as nat,
            options.limit as nat,
        ),
        r.entries@.len() == min(options.limit as int, max(0, r.total - options.offset)),
{
    let (total, entries) = db.list_entries(&options.query, options.offset, options.limit);
    EntryList { total, offset: options.offset, entries }
}

/// Creates an entry of the fields given and returns it as a reader sees it.
pub fn create_entry(db: &mut DB, create: EntryCreation) -> (r: Entry)
    ensures
        old(db)@.wf() ==> final(db)@.wf(),
        token_safe_ids(old(db)@.streams) ==> token_safe_ids(final(db)@.streams),
        minted_at(r@.id, r@.created),
        r@.title == create.title@,
        r@.body == create.body@,
        r@.meta == decoded(final(db)@.streams, encoded(final(db)@.streams, create.meta@)),
        old(db)@.wf() && token_safe_ids(old(db)@.streams) && no_near_token(
            create.meta@,
        ) ==> r@.meta == create.meta@,
        exists|ids: Seq<Seq<char>>|
            #![trigger stored(old(db)@, r@.with_meta(create.meta@), ids)]
            ids.len() == names_in(create.meta@).len() && all_minted(ids) && final(db)@ == stored(
                old(db)@,
                r@.with_meta(create.meta@),
                ids,
            ),
{
    db.create_entry(&create)
}

/// Replaces title, body and `meta` of the entry that has the identifier of
/// `update`, and returns the entry as it now is, `meta` as given.
///
/// If the store has no such entry, a new one is created from the three
/// fields, under a new identifier and with the present time: the answer
/// tells which.
pub fn update_entry(db: &mut DB, update: Entry) -> (r: Entry)
    ensures
        old(db)@.wf() ==> final(db)@.wf(),
        token_safe_ids(old(db)@.streams) ==> token_safe_ids(final(db)@.streams),
        r@.title == update@.title,
        r@.body == update@.body,
        r@.meta == update@.meta,
        ({
            let before = old(db)@.entries;
            let k = first_entry_with_id(before, update@.id, 0);
            if 0 <= k < before.len() {
                &&& r@.id == update@.id
                &&& r@.created == before[k].created
                &&& exists|ids: Seq<Seq<char>>|
                    #![trigger stored(old(db)@, r@, ids)]
                    ids.len() == names_in(r@.meta).len() && all_minted(ids) && final(db)@
                        == stored(old(db)@, r@, ids)
            } else {
                &&& minted_at(r@.id, r@.created)
                &&& exists|first: Seq<Seq<char>>, second: Seq<Seq<char>>|
                    #![trigger stored(stored(old(db)@, r@, first), r@, second)]
                    first.len() == names_in(r@.meta).len() && all_minted(first) && second.len()
                        == names_in(r@.meta).len() && all_minted(second) && final(db)@ == stored(
                        stored(old(db)@, r@, first),
                        r@,
                        second,
                    )
            }
        }),
{
    let ghost start = db@;
    match db.get_entry(&update.id) {
        Some(e) => {
            let entry = Entry {
                id: e.id,
                created: e.created,
                meta: update.meta,
                title: update.title,
                body: update.body,
            };
            proof {
                lemma_first_entry_with_id(start.entries, update@.id, 0);
            }
            db.insert_entry(&entry);
            entry
        },
        None => {
            let create = EntryCreation {
                meta: update.meta.clone(),
                title: update.title.clone(),
                body: update.body.clone(),
            };
            let made = db.create_entry(&create);
            let ghost mid = db@;
            let entry = Entry {
                id: made.id,
                created: made.created,
                meta: update.meta,
                title: update.title,
                body: update.body,
            };
            assert(made@.with_meta(create.meta@) == entry@);
            db.insert_entry(&entry);
            proof {
                let first = choose|ids: Seq<Seq<char>>|
                    #![trigger stored(start, entry@, ids)]
                    ids.len() == names_in(entry@.meta).len() && all_minted(ids) && mid == stored(
                        start,
                        entry@,
                        ids,
                    );
                let second = choose|ids: Seq<Seq<char>>|
                    #![trigger stored(mid, entry@, ids)]
                    ids.len() == names_in(entry@.meta).len() && all_minted(ids) && db@ == stored(
                        mid,
                        entry@,
                        ids,
                    );
                assert(db@ == stored(stored(start, entry@, first), entry@, second));
            }
            entry
        },
    }
}

/// Deletes the entry that has the identifier of `delete`, if there is one,
/// and hands `delete` back.
pub fn delete_entry(db: &mut DB, delete: Entry) -> (r: Entry)
    ensures
        old(db)@.wf() ==> final(db)@.wf(),
        r == delete,
        final(db)@.entries == drop_entry(old(db)@.entries, delete@.id),
        final(db)@.streams == old(db)@.streams,
        final(db)@.sync_id == old(db)@.sync_id,
{
    db.delete_entry(&delete.id);
    delete
}

/// Lists all streams: the inbox first, the others by name.
pub fn list_streams(db: &DB, _options: ListOptions) -> (r: StreamList)
    ensures
        stream_views(r.streams@) == listed(db@.streams),
        in_listing_order(stream_views(r.streams@)),
        stream_views(r.streams@).to_multiset() == db@.streams.to_multiset(),
        r.total == db@.streams.len(),
{
    let streams = db.list_streams();
    proof {
        lemma_listed_len(db@.streams);
    }
    let total = streams.len();
    assert(streams@.len() == stream_views(streams@).len());
    StreamList { streams, total }
}

/// Deletes the stream that has the identifier of `delete`, if there is one,
/// takes its token out of every entry that holds it, and hands `delete`
/// back.
pub fn delete_stream(db: &mut DB, delete: Stream) -> (r: Stream)
    ensures
        old(db)@.wf() ==> final(db)@.wf(),
        token_safe_ids(old(db)@.streams) ==> token_safe_ids(final(db)@.streams),
        r == delete,
        exists|idss: Seq<Seq<Seq<char>>>|
            #![trigger without_stream(old(db)@, delete@.id, idss)]
            supplies(untagged_entries(old(db)@, delete@.id), idss) && final(db)@
                == without_stream(old(db)@, delete@.id, idss),
{
    let ghost start = db@;
    db.delete_stream(&delete.id);
    proof {
        let idss = choose|idss: Seq<Seq<Seq<char>>>|
            #![trigger without_stream(start, delete.id@, idss)]
            supplies(untagged_entries(start, delete.id@), idss) && db@ == without_stream(
                start,
                delete.id@,
                idss,
            );
        assert(db@ == without_stream(start, delete@.id, idss));
    }
    delete
}

/// Gives the stream that has the identifier of `update` the name of
/// `update`, and returns the stream as it now is. No entry is touched. If
/// the store has no such stream, nothing changes and `update` comes back.
pub fn update_stream(db: &mut DB, update: Stream) -> (r: Stream)
    ensures
        old(db)@.wf() ==> final(db)@.wf(),
        final(db)@.entries == old(db)@.entries,
        final(db)@.sync_id == old(db)@.sync_id,
        ({
            let reg = old(db)@.streams;
            let k = first_with_id(reg, update@.id, 0);
            if 0 <= k < reg.len() {
                r@ == (StreamView { name: update@.name, ..reg[k] }) && final(db)@.streams
                    == reg.update(k, r@)
            } else {
                r == update && final(db)@.streams == reg
            }
        }),
{
    proof {
        lemma_first_with_id(db@.streams, update@.id, 0);
    }
    match db.get_stream(&update.id) {
        None => update,
        Some(found) => {
            let stream = Stream { id: found.id, meta: found.meta, name: update.name };
            db.insert_stream(&stream);
            stream
        },
    }
}

} // verus!
