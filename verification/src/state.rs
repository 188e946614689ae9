//! The store as a mathematical object: two keyed lists, one of streams and
//! one of entries, and what each operation makes of them.
//!
//! Both lists keep the order in which their keys were first written. Writing
//! under a key that is present replaces the record where it stands.

use crate::ids::{all_minted, lemma_spare_id, spare_id};
use crate::models::{EntryView, StreamView, inbox_id, inbox_name, parent_names};
use crate::tags::{
    decoded, encoded, first_named, first_with_id, ids_in, is_bracket, lemma_first_with_id,
    names_in, search_term, token_for,
};
use crate::text::{contains_ignoring_case, replaced_all, replaced_first, trimmed};
use vstd::prelude::*;

verus! {

/// What a store holds.
pub struct DbView {
    pub streams: Seq<StreamView>,
    pub entries: Seq<EntryView>,
    pub sync_id: u64,
}

/// The index of the first entry at or after `i` whose identifier is `id`, or
/// the number of entries.
pub open spec fn first_entry_with_id(entries: Seq<EntryView>, id: Seq<char>, i: int) -> int
    decreases entries.len() - i,
{
    if i < 0 || i >= entries.len() {
        entries.len() as int
    } else if entries[i].id == id {
        i
    } else {
        first_entry_with_id(entries, id, i + 1)
    }
}

/// The first entry with an identifier has that identifier, and no entry
/// before it has.
pub proof fn lemma_first_entry_with_id(entries: Seq<EntryView>, id: Seq<char>, i: int)
    requires
        0 <= i <= entries.len(),
    ensures
        i <= first_entry_with_id(entries, id, i) <= entries.len(),
        first_entry_with_id(entries, id, i) < entries.len() ==> entries[first_entry_with_id(
            entries,
            id,
            i,
        )].id == id,
        forall|j: int|
            i <= j < first_entry_with_id(entries, id, i) ==> (#[trigger] entries[j]).id != id,
    decreases entries.len() - i,
{
    if i < entries.len() && entries[i].id != id {
        lemma_first_entry_with_id(entries, id, i + 1);
    }
}

/// No two streams share an identifier.
pub open spec fn distinct_stream_ids(reg: Seq<StreamView>) -> bool {
    forall|i: int, j: int| 0 <= i < j < reg.len() ==> (#[trigger] reg[i]).id != (#[trigger] reg[j]).id
}

/// No two entries share an identifier.
pub open spec fn distinct_entry_ids(entries: Seq<EntryView>) -> bool {
    forall|i: int, j: int|
        0 <= i < j < entries.len() ==> (#[trigger] entries[i]).id != (#[trigger] entries[j]).id
}

/// `id` can stand inside a token: it is not empty and holds no bracket.
pub open spec fn token_safe(id: Seq<char>) -> bool {
    id.len() > 0 && forall|j: int| 0 <= j < id.len() ==> !is_bracket(#[trigger] id[j])
}

/// Every stream of `reg` has an identifier that can stand inside a token.
pub open spec fn token_safe_ids(reg: Seq<StreamView>) -> bool {
    forall|k: int| 0 <= k < reg.len() ==> token_safe((#[trigger] reg[k]).id)
}

impl DbView {
    /// Identifiers are keys: each occurs once among the streams and once
    /// among the entries.
    pub open spec fn wf(self) -> bool {
        distinct_stream_ids(self.streams) && distinct_entry_ids(self.entries)
    }
}

/// The streams after `s` is written under its identifier.
pub open spec fn put_stream(reg: Seq<StreamView>, s: StreamView) -> Seq<StreamView> {
    let k = first_with_id(reg, s.id, 0);
    if 0 <= k < reg.len() {
        reg.update(k, s)
    } else {
        reg.push(s)
    }
}

/// The entries after `e` is written under its identifier.
pub open spec fn put_entry(entries: Seq<EntryView>, e: EntryView) -> Seq<EntryView> {
    let k = first_entry_with_id(entries, e.id, 0);
    if 0 <= k < entries.len() {
        entries.update(k, e)
    } else {
        entries.push(e)
    }
}

/// The streams without the one whose identifier is `id`.
pub open spec fn drop_stream(reg: Seq<StreamView>, id: Seq<char>) -> Seq<StreamView> {
    let k = first_with_id(reg, id, 0);
    if 0 <= k < reg.len() {
        reg.remove(k)
    } else {
        reg
    }
}

/// The entries without the one whose identifier is `id`.
pub open spec fn drop_entry(entries: Seq<EntryView>, id: Seq<char>) -> Seq<EntryView> {
    let k = first_entry_with_id(entries, id, 0);
    if 0 <= k < entries.len() {
        entries.remove(k)
    } else {
        entries
    }
}

/// The streams after `name` is looked up with permission to create it under
/// `id`: unchanged if a stream of that name exists.
pub open spec fn resolved(reg: Seq<StreamView>, name: Seq<char>, id: Seq<char>) -> Seq<
    StreamView,
> {
    if first_named(reg, name, 0) < reg.len() {
        reg
    } else {
        put_stream(reg, StreamView { id, meta: Seq::empty(), name })
    }
}

/// The streams after each of `names` is looked up in turn, `ids[k]` being
/// the identifier held ready for `names[k]`.
pub open spec fn resolved_all(reg: Seq<StreamView>, names: Seq<Seq<char>>, ids: Seq<Seq<char>>) -> Seq<
    StreamView,
>
    decreases names.len(),
{
    if names.len() == 0 {
        reg
    } else {
        resolved(resolved_all(reg, names.drop_last(), ids.drop_last()), names.last(), ids.last())
    }
}

/// The store after `e`, with `meta` in display form, is written: the names
/// it refers to are resolved, creating streams where needed, and the entry
/// is kept in stored form.
pub open spec fn stored(db: DbView, e: EntryView, ids: Seq<Seq<char>>) -> DbView {
    let reg = resolved_all(db.streams, names_in(e.meta), ids);
    DbView {
        streams: reg,
        entries: put_entry(db.entries, e.with_meta(encoded(reg, e.meta))),
        sync_id: db.sync_id,
    }
}

/// The store after each of `es` is written in turn, `idss[k]` holding the
/// identifiers held ready for `es[k]`.
pub open spec fn stored_all(db: DbView, es: Seq<EntryView>, idss: Seq<Seq<Seq<char>>>) -> DbView
    decreases es.len(),
{
    if es.len() == 0 {
        db
    } else {
        stored(stored_all(db, es.drop_last(), idss.drop_last()), es.last(), idss.last())
    }
}

/// `idss` holds, for each of `es`, one identifier of the store's making for
/// each name that the entry refers to.
pub open spec fn supplies(es: Seq<EntryView>, idss: Seq<Seq<Seq<char>>>) -> bool {
    idss.len() == es.len() && forall|k: int|
        0 <= k < es.len() ==> (#[trigger] idss[k]).len() == names_in(es[k].meta).len()
            && all_minted(idss[k])
}

/// `e` as a reader sees it: `meta` in display form.
pub open spec fn shown(reg: Seq<StreamView>, e: EntryView) -> EntryView {
    e.with_meta(decoded(reg, e.meta))
}

/// Some stream in `streams` has the identifier `id`.
pub open spec fn has_id(streams: Seq<StreamView>, id: Seq<char>) -> bool {
    exists|k: int| 0 <= k < streams.len() && (#[trigger] streams[k]).id == id
}

/// The test for a stream's identifier being one of `ids`.
pub open spec fn id_among(ids: Seq<Seq<char>>) -> spec_fn(StreamView) -> bool {
    |s: StreamView| ids.contains(s.id)
}

/// The test for a stream's name being one of `names`.
pub open spec fn name_among(names: Seq<Seq<char>>) -> spec_fn(StreamView) -> bool {
    |s: StreamView| names.contains(s.name)
}

/// The streams whose tokens stand in `meta`, in the order of the store.
pub open spec fn direct_streams(reg: Seq<StreamView>, meta: Seq<char>) -> Seq<StreamView> {
    reg.filter(id_among(ids_in(meta)))
}

/// The names of `streams` and of all their ancestors, stream by stream.
pub open spec fn ancestor_names(streams: Seq<StreamView>) -> Seq<Seq<char>>
    decreases streams.len(),
{
    if streams.len() == 0 {
        Seq::empty()
    } else {
        ancestor_names(streams.drop_last()) + parent_names(streams.last().name)
    }
}

/// The streams that carry the name of one of `direct` or of one of their
/// ancestors, in the order of the store.
pub open spec fn ancestor_streams(reg: Seq<StreamView>, direct: Seq<StreamView>) -> Seq<
    StreamView,
> {
    reg.filter(name_among(ancestor_names(direct)))
}

/// `sorted` with `x` put behind the last stream that is not listed after it.
pub open spec fn inserted(sorted: Seq<StreamView>, x: StreamView) -> Seq<StreamView>
    decreases sorted.len(),
{
    if sorted.len() > 0 && x.sorts_before(sorted.last()) {
        inserted(sorted.drop_last(), x).push(sorted.last())
    } else {
        sorted.push(x)
    }
}

/// `streams` in listing order: the inbox first, the others by name, streams
/// of equal rank in the order they had.
pub open spec fn listed(streams: Seq<StreamView>) -> Seq<StreamView>
    decreases streams.len(),
{
    if streams.len() == 0 {
        streams
    } else {
        inserted(listed(streams.drop_last()), streams.last())
    }
}

/// No stream of `s` stands behind one that is listed after it: the inbox
/// comes before every other stream, and the others stand by name.
pub open spec fn in_listing_order(s: Seq<StreamView>) -> bool {
    forall|i: int, j: int| 0 <= i < j < s.len() ==> !(#[trigger] s[j]).sorts_before(#[trigger] s[i])
}

/// The streams that an entry with the stored text `meta` belongs to: those
/// whose tokens it holds and, if `ancestors` is set, all that carry an
/// ancestor's name as well, in listing order.
pub open spec fn closure(reg: Seq<StreamView>, meta: Seq<char>, ancestors: bool) -> Seq<
    StreamView,
> {
    if ancestors {
        listed(ancestor_streams(reg, direct_streams(reg, meta)))
    } else {
        direct_streams(reg, meta)
    }
}

/// Each of `wanted` is, by its identifier, among `among`.
pub open spec fn carries_all(among: Seq<StreamView>, wanted: Seq<StreamView>) -> bool {
    forall|q: int| 0 <= q < wanted.len() ==> has_id(among, (#[trigger] wanted[q]).id)
}

/// For each of `names` that some stream carries, the first such stream.
pub open spec fn known_streams(reg: Seq<StreamView>, names: Seq<Seq<char>>) -> Seq<StreamView>
    decreases names.len(),
{
    if names.len() == 0 {
        Seq::empty()
    } else {
        let rest = known_streams(reg, names.drop_last());
        let k = first_named(reg, names.last(), 0);
        if 0 <= k < reg.len() {
            rest.push(reg[k])
        } else {
            rest
        }
    }
}

/// The entry `e`, in stored form, answers `query`: it belongs to every
/// stream the query names and knows, and its title or body holds the
/// query's words.
pub open spec fn selects(reg: Seq<StreamView>, query: Seq<char>, e: EntryView) -> bool {
    carries_all(closure(reg, e.meta, true), known_streams(reg, names_in(query))) && (
    contains_ignoring_case(e.title, search_term(query)) || contains_ignoring_case(
        e.body,
        search_term(query),
    ))
}

/// The test for an entry answering `query`.
pub open spec fn answering(reg: Seq<StreamView>, query: Seq<char>) -> spec_fn(EntryView) -> bool {
    |e: EntryView| selects(reg, query, e)
}

/// The step from an entry in stored form to what a reader sees.
pub open spec fn showing(reg: Seq<StreamView>) -> spec_fn(EntryView) -> EntryView {
    |e: EntryView| shown(reg, e)
}

/// All entries that answer `query`, newest first, as a reader sees them.
pub open spec fn found(db: DbView, query: Seq<char>) -> Seq<EntryView> {
    db.entries.reverse().filter(answering(db.streams, query)).map_values(showing(db.streams))
}

/// The part of `all` that starts at `offset` and holds at most `limit`
/// items.
pub open spec fn page(all: Seq<EntryView>, offset: nat, limit: nat) -> Seq<EntryView> {
    let from = if offset < all.len() {
        offset
    } else {
        all.len()
    };
    let to = if from + limit < all.len() {
        from + limit
    } else {
        all.len()
    };
    all.subrange(from as int, to as int)
}

/// The stored text `meta` once the token of stream `id` is cut out: every
/// occurrence of the token removed, the first two double blanks made
/// single, and the ends trimmed.
pub open spec fn tidied(meta: Seq<char>, id: Seq<char>) -> Seq<char> {
    trimmed(
        replaced_first(
            replaced_all(meta, token_for(id), Seq::empty()),
            seq![' ', ' '],
            seq![' '],
            2,
        ),
    )
}

/// The stored text `meta` once the token of stream `id` is cut out, in
/// display form.
pub open spec fn untagged(reg: Seq<StreamView>, meta: Seq<char>, id: Seq<char>) -> Seq<char> {
    decoded(reg, tidied(meta, id))
}

/// The test for an entry, in stored form, holding the token of stream `id`.
pub open spec fn tagged_with(reg: Seq<StreamView>, id: Seq<char>) -> spec_fn(EntryView) -> bool {
    |e: EntryView| has_id(direct_streams(reg, e.meta), id)
}

/// The step from an entry in stored form to the same entry in display form
/// with the token of stream `id` taken out.
pub open spec fn untagging(reg: Seq<StreamView>, id: Seq<char>) -> spec_fn(EntryView) -> EntryView {
    |e: EntryView| e.with_meta(untagged(reg, e.meta, id))
}

/// The entries that hold the token of stream `id`, newest first, each with
/// that token taken out of `meta`.
pub open spec fn untagged_entries(db: DbView, id: Seq<char>) -> Seq<EntryView> {
    db.entries.reverse().filter(tagged_with(db.streams, id)).map_values(untagging(db.streams, id))
}

/// The store after stream `id` is deleted: nothing changes if there is no
/// such stream; otherwise the entries that hold its token are written again
/// without it, and then the stream goes.
pub open spec fn without_stream(db: DbView, id: Seq<char>, idss: Seq<Seq<Seq<char>>>) -> DbView {
    if first_with_id(db.streams, id, 0) >= db.streams.len() {
        db
    } else {
        let d = stored_all(db, untagged_entries(db, id), idss);
        DbView { streams: drop_stream(d.streams, id), ..d }
    }
}

/// The streams after each of `more` is written in turn.
pub open spec fn put_streams(reg: Seq<StreamView>, more: Seq<StreamView>) -> Seq<StreamView>
    decreases more.len(),
{
    if more.len() == 0 {
        reg
    } else {
        put_stream(put_streams(reg, more.drop_last()), more.last())
    }
}

/// The records that could be read, in the order given.
pub open spec fn readable(records: Seq<Option<EntryView>>) -> Seq<EntryView>
    decreases records.len(),
{
    if records.len() == 0 {
        Seq::empty()
    } else {
        match records.last() {
            Some(e) => readable(records.drop_last()).push(e),
            None => readable(records.drop_last()),
        }
    }
}

/// The inbox as every store holds it.
pub open spec fn inbox() -> StreamView {
    StreamView { id: inbox_id(), meta: Seq::empty(), name: inbox_name() }
}

/// The store that is opened over what was kept: the streams kept, the inbox
/// written over whatever stood under its identifier, and each record that
/// could be read written again. Records that could not be read are left
/// out. A missing synchronisation mark counts as 0.
pub open spec fn opened(
    streams: Seq<StreamView>,
    records: Seq<Option<EntryView>>,
    sync_id: Option<u64>,
    idss: Seq<Seq<Seq<char>>>,
) -> DbView {
    let base = DbView {
        streams: put_stream(put_streams(Seq::empty(), streams), inbox()),
        entries: Seq::empty(),
        sync_id: match sync_id {
            Some(n) => n,
            None => 0,
        },
    };
    stored_all(base, readable(records), idss)
}

/// Writing a stream keeps the identifiers of the streams distinct.
pub proof fn lemma_put_stream_distinct(reg: Seq<StreamView>, s: StreamView)
    requires
        distinct_stream_ids(reg),
    ensures
        distinct_stream_ids(put_stream(reg, s)),
{
    lemma_first_with_id(reg, s.id, 0);
}

/// Writing an entry keeps the identifiers of the entries distinct.
pub proof fn lemma_put_entry_distinct(entries: Seq<EntryView>, e: EntryView)
    requires
        distinct_entry_ids(entries),
    ensures
        distinct_entry_ids(put_entry(entries, e)),
{
    lemma_first_entry_with_id(entries, e.id, 0);
}

/// Taking an entry away keeps the identifiers of the entries distinct.
pub proof fn lemma_drop_entry_distinct(entries: Seq<EntryView>, id: Seq<char>)
    requires
        distinct_entry_ids(entries),
    ensures
        distinct_entry_ids(drop_entry(entries, id)),
{
    lemma_first_entry_with_id(entries, id, 0);
    let k = first_entry_with_id(entries, id, 0);
    if k < entries.len() {
        let after = entries.remove(k);
        assert forall|i: int, j: int| 0 <= i < j < after.len() implies (#[trigger] after[i]).id != (
        #[trigger] after[j]).id by {
            let a = if i < k { i } else { i + 1 };
            let b = if j < k { j } else { j + 1 };
            assert(after[i] == entries[a] && after[j] == entries[b]);
        }
    }
}

/// Taking a stream away keeps the identifiers of the streams distinct.
pub proof fn lemma_drop_stream_distinct(reg: Seq<StreamView>, id: Seq<char>)
    requires
        distinct_stream_ids(reg),
    ensures
        distinct_stream_ids(drop_stream(reg, id)),
{
    lemma_first_with_id(reg, id, 0);
    let k = first_with_id(reg, id, 0);
    if k < reg.len() {
        let after = reg.remove(k);
        assert forall|i: int, j: int| 0 <= i < j < after.len() implies (#[trigger] after[i]).id != (
        #[trigger] after[j]).id by {
            let a = if i < k { i } else { i + 1 };
            let b = if j < k { j } else { j + 1 };
            assert(after[i] == reg[a] && after[j] == reg[b]);
        }
    }
}

/// For every entry of `es`, identifiers that will do where none is used.
pub open spec fn spare_supplies(es: Seq<EntryView>) -> Seq<Seq<Seq<char>>> {
    Seq::new(es.len(), |k: int| Seq::new(names_in(es[k].meta).len(), |i: int| spare_id()))
}

/// The spare identifiers are a supply.
pub proof fn lemma_spare_supplies(es: Seq<EntryView>)
    ensures
        supplies(es, spare_supplies(es)),
{
    lemma_spare_id();
}

} // verus!
