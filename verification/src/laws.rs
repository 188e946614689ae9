//! What holds of the store whatever it contains: display text survives the
//! way into stored form and back, renaming a stream changes what is shown
//! and nothing that is kept, an entry belongs to the ancestors of its
//! streams, and deleting a stream spares what does not carry it.

use crate::ancestry::{lemma_ancestor_names, lemma_ancestors_upto};
use crate::cascade::{
    brace_free, is_untagged_clean, lemma_back_trip_from, lemma_stored_all_clean,
    lemma_stored_all_in_place, lemma_tagged_is_rewritten, lemma_untagged_entries, plain_names,
    same_but_meta,
};
use crate::codec::{
    lemma_resolved_all_distinct, lemma_resolved_all_keeps, lemma_round_trip_from,
    lemma_same_ids_same_index, lemma_stored_all_wf,
};
use crate::ids::all_minted;
use crate::models::{EntryView, StreamView, ancestors_upto, inbox_name, parent_names, text_before};
use crate::order::{
    lemma_filter_distinct, lemma_filter_members, lemma_listed_distinct, lemma_listed_members,
    lemma_text_order_total,
};
use crate::state::{
    DbView, ancestor_names, ancestor_streams, closure, direct_streams, distinct_stream_ids,
    drop_stream, first_entry_with_id, has_id, id_among, in_listing_order,
    lemma_drop_stream_distinct, lemma_first_entry_with_id, name_among, shown, stored, stored_all,
    tidied, token_safe_ids, untagged, untagged_entries, without_stream,
};
use crate::tags::{
    braced, decoded, decoded_from, encoded, first_with_id, ids_in, lemma_first_with_id,
    lemma_id_run_end, names_in, no_near_token, token_for, token_span_end,
};
use crate::text::{
    cut_marked, matches_at, replaced_all, replaced_first, replaced_from, skip_marked, white,
};
use vstd::prelude::*;

verus! {

/// Display text survives the way into stored form and back: if no two
/// streams share an identifier, every identifier can stand inside a token,
/// and the text holds neither a token nor all of one but its last
/// character, then reading the stored form of the text gives the text.
///
/// The streams are the same on the way in and on the way back: none was
/// renamed or deleted in between.
pub proof fn round_trip(reg: Seq<StreamView>, text: Seq<char>)
    requires
        distinct_stream_ids(reg),
        token_safe_ids(reg),
        no_near_token(text),
    ensures
        decoded(reg, encoded(reg, text)) == text,
{
    lemma_round_trip_from(reg, text, 0);
    assert(text.skip(0) =~= text);
}

/// What is written is what is read: after an entry is written, the store
/// shows it as it was given, `meta` included, provided that the identifiers
/// of the streams can stand inside tokens and that `meta` holds neither a
/// token nor all of one but its last character.
pub proof fn written_entry_reads_back(db: DbView, e: EntryView, ids: Seq<Seq<char>>)
    requires
        db.wf(),
        token_safe_ids(db.streams),
        ids.len() == names_in(e.meta).len(),
        all_minted(ids),
        no_near_token(e.meta),
    ensures
        ({
            let after = stored(db, e, ids);
            let k = first_entry_with_id(after.entries, e.id, 0);
            0 <= k < after.entries.len() && shown(after.streams, after.entries[k]) == e
        }),
{
    let after = stored(db, e, ids);
    lemma_resolved_all_keeps(db.streams, names_in(e.meta), ids);
    lemma_resolved_all_distinct(db.streams, names_in(e.meta), ids);
    round_trip(after.streams, e.meta);
    let kept = e.with_meta(encoded(after.streams, e.meta));
    lemma_first_entry_with_id(db.entries, e.id, 0);
    lemma_first_entry_with_id(after.entries, e.id, 0);
    let at = first_entry_with_id(db.entries, e.id, 0);
    if at < db.entries.len() {
        assert(after.entries[at] == kept);
    } else {
        assert(after.entries[db.entries.len() as int] == kept);
    }
    let k = first_entry_with_id(after.entries, e.id, 0);
    if k != at {
        assert(after.entries[k].id == e.id);
        assert(k < at);
        assert(after.entries[k] == db.entries[k]);
    }
}

/// The streams after the one at index `k` is given the name `name`.
pub open spec fn renamed(reg: Seq<StreamView>, k: int, name: Seq<char>) -> Seq<StreamView> {
    reg.update(k, StreamView { name, ..reg[k] })
}

/// Renaming a stream changes what is shown in place of its tokens and of no
/// others: where a token stands in a stored text, the text reads, after the
/// stream at `k` is renamed, with the new name if the token is that
/// stream's, and as before if it is not.
pub proof fn rename_is_shown(
    reg: Seq<StreamView>,
    k: int,
    name: Seq<char>,
    s: Seq<char>,
    i: int,
)
    requires
        distinct_stream_ids(reg),
        0 <= k < reg.len(),
        0 <= i < s.len(),
        token_span_end(s, i) is Some,
    ensures
        ({
            let e = token_span_end(s, i)->0;
            let id = s.subrange(i + 12, e - 3);
            let at = first_with_id(reg, id, 0);
            let after = renamed(reg, k, name);
            let piece = if id == reg[k].id {
                braced(name)
            } else if 0 <= at < reg.len() {
                braced(reg[at].name)
            } else {
                s.subrange(i, e)
            };
            decoded_from(after, s, i) == piece + decoded_from(after, s, e)
        }),
{
    let e = token_span_end(s, i)->0;
    let id = s.subrange(i + 12, e - 3);
    let after = renamed(reg, k, name);
    lemma_id_run_end(s, i + 12);
    lemma_same_ids_same_index(reg, after, id, 0);
    lemma_first_with_id(reg, id, 0);
}

/// The names under which the ancestors of a stream are found are the stream's
/// own name and the texts that stand before each `/` of it.
pub proof fn parent_names_are(name: Seq<char>, p: Seq<char>)
    ensures
        parent_names(name).contains(p) <==> p == name || (p.len() < name.len() && name[p.len() as int]
            == '/' && p == name.take(p.len() as int)),
{
    let up = ancestors_upto(name, name.len() as int);
    let all = parent_names(name);
    lemma_ancestors_upto(name, name.len() as int, p);
    if all.contains(p) {
        let i = choose|i: int| 0 <= i < all.len() && all[i] == p;
        if i < up.len() {
            assert(up[i] == p);
        }
    }
    if p == name {
        assert(all[up.len() as int] == p);
    }
    if up.contains(p) {
        let i = choose|i: int| 0 <= i < up.len() && up[i] == p;
        assert(all[i] == p);
    }
}

/// An entry belongs to a stream, ancestors counted in, exactly if it holds
/// the token of a stream that has the stream's name among its parent names:
/// the token of the stream itself or of one of its descendants. An entry in
/// `Foo/Bar` thus belongs to `Foo`, and an entry in `Foo` does not belong to
/// `Foo/Bar`.
pub proof fn belongs_through_descendants(reg: Seq<StreamView>, meta: Seq<char>, a: int)
    requires
        distinct_stream_ids(reg),
        0 <= a < reg.len(),
    ensures
        has_id(closure(reg, meta, true), reg[a].id) <==> exists|d: int|
            0 <= d < reg.len() && ids_in(meta).contains((#[trigger] reg[d]).id) && parent_names(
                reg[d].name,
            ).contains(reg[a].name),
{
    let direct = direct_streams(reg, meta);
    let names = ancestor_names(direct);
    let related = ancestor_streams(reg, direct);
    let all = closure(reg, meta, true);
    lemma_ancestor_names(direct, reg[a].name);
    lemma_filter_members(reg, name_among(names), reg[a]);
    lemma_listed_members(related, reg[a]);
    assert(reg.contains(reg[a]));
    if has_id(all, reg[a].id) {
        let k = choose|k: int| 0 <= k < all.len() && (#[trigger] all[k]).id == reg[a].id;
        lemma_listed_members(related, all[k]);
        assert(all.contains(all[k]));
        lemma_filter_members(reg, name_among(names), all[k]);
        let m = choose|m: int| 0 <= m < reg.len() && reg[m] == all[k];
        assert(m == a);
        let j = choose|j: int|
            0 <= j < direct.len() && parent_names((#[trigger] direct[j]).name).contains(reg[a].name);
        assert(direct.contains(direct[j]));
        lemma_filter_members(reg, id_among(ids_in(meta)), direct[j]);
        let d = choose|d: int| 0 <= d < reg.len() && reg[d] == direct[j];
        assert(ids_in(meta).contains(reg[d].id) && parent_names(reg[d].name).contains(
            reg[a].name,
        ));
    }
    if exists|d: int|
        0 <= d < reg.len() && ids_in(meta).contains((#[trigger] reg[d]).id) && parent_names(
            reg[d].name,
        ).contains(reg[a].name) {
        let d = choose|d: int|
            0 <= d < reg.len() && ids_in(meta).contains((#[trigger] reg[d]).id) && parent_names(
                reg[d].name,
            ).contains(reg[a].name);
        assert(reg.contains(reg[d]));
        lemma_filter_members(reg, id_among(ids_in(meta)), reg[d]);
        let j = choose|j: int| 0 <= j < direct.len() && direct[j] == reg[d];
        assert(parent_names(direct[j].name).contains(reg[a].name));
        assert(names.contains(reg[a].name));
        assert(all.contains(reg[a]));
        let k = choose|k: int| 0 <= k < all.len() && all[k] == reg[a];
        assert(all[k].id == reg[a].id);
    }
}

/// The streams that an entry belongs to are given once each: if no two
/// streams of the store share an identifier, no two of them do.
pub proof fn closure_names_each_stream_once(reg: Seq<StreamView>, meta: Seq<char>, ancestors: bool)
    requires
        distinct_stream_ids(reg),
    ensures
        distinct_stream_ids(closure(reg, meta, ancestors)),
{
    let direct = direct_streams(reg, meta);
    lemma_filter_distinct(reg, id_among(ids_in(meta)));
    lemma_filter_distinct(reg, name_among(ancestor_names(direct)));
    lemma_listed_distinct(ancestor_streams(reg, direct));
}

/// Deleting a stream takes it out of the store, keeps every entry in its
/// place with its identifier, time, title and body, and leaves alone every
/// entry that did not hold the stream's token.
pub proof fn delete_stream_spares_the_rest(
    db: DbView,
    id: Seq<char>,
    idss: Seq<Seq<Seq<char>>>,
    k: int,
)
    requires
        db.wf(),
        0 <= k < db.entries.len(),
    ensures
        ({
            let after = without_stream(db, id, idss);
            &&& after.wf()
            &&& !has_id(after.streams, id)
            &&& after.entries.len() == db.entries.len()
            &&& same_but_meta(after.entries[k], db.entries[k])
            &&& !has_id(direct_streams(db.streams, db.entries[k].meta), id) ==> after.entries[k]
                == db.entries[k]
        }),
{
    let after = without_stream(db, id, idss);
    lemma_first_with_id(db.streams, id, 0);
    if first_with_id(db.streams, id, 0) >= db.streams.len() {
        if has_id(db.streams, id) {
            let at = choose|at: int| 0 <= at < db.streams.len() && (#[trigger] db.streams[at]).id == id;
            assert(false);
        }
    } else {
        let es = untagged_entries(db, id);
        assert forall|j: int| 0 <= j < es.len() implies exists|m: int|
            0 <= m < db.entries.len() && same_but_meta(#[trigger] es[j], db.entries[m]) by {
            lemma_untagged_entries(db, id, j);
            let m = choose|m: int|
                0 <= m < db.entries.len() && has_id(
                    direct_streams(db.streams, (#[trigger] db.entries[m]).meta),
                    id,
                ) && es[j] == db.entries[m].with_meta(untagged(db.streams, db.entries[m].meta, id));
            assert(same_but_meta(es[j], db.entries[m]));
        }
        lemma_stored_all_in_place(db, es, idss);
        lemma_stored_all_wf(db, es, idss);
        let mid = stored_all(db, es, idss);
        lemma_drop_stream_distinct(mid.streams, id);
        lemma_first_with_id(mid.streams, id, 0);
        let at = first_with_id(mid.streams, id, 0);
        if has_id(after.streams, id) {
            let p = choose|p: int| 0 <= p < after.streams.len() && (#[trigger] after.streams[p]).id == id;
            if at < mid.streams.len() {
                let q = if p < at { p } else { p + 1 };
                assert(after.streams[p] == mid.streams[q]);
                assert(mid.streams[q].id == mid.streams[at].id);
                assert(false);
            } else {
                assert(mid.streams[p].id == id);
                assert(false);
            }
        }
        if !has_id(direct_streams(db.streams, db.entries[k].meta), id) {
            assert forall|j: int| 0 <= j < es.len() implies (#[trigger] es[j]).id
                != db.entries[k].id by {
                lemma_untagged_entries(db, id, j);
                let m = choose|m: int|
                    0 <= m < db.entries.len() && has_id(
                        direct_streams(db.streams, (#[trigger] db.entries[m]).meta),
                        id,
                    ) && es[j] == db.entries[m].with_meta(
                        untagged(db.streams, db.entries[m].meta, id),
                    );
                if es[j].id == db.entries[k].id {
                    assert(db.entries[m].id == db.entries[k].id);
                    assert(m == k);
                }
            }
        }
    }
}

/// In a list that is in listing order, a stream called like the inbox is
/// preceded by such streams only, and two other streams stand with the
/// earlier name first.
pub proof fn listing_order_means(s: Seq<StreamView>, i: int, j: int)
    requires
        in_listing_order(s),
        0 <= i < j < s.len(),
    ensures
        s[j].name == inbox_name() ==> s[i].name == inbox_name(),
        s[i].name != inbox_name() && s[j].name != inbox_name() ==> s[i].name == s[j].name
            || text_before(s[i].name, s[j].name),
{
    assert(!s[j].sorts_before(s[i]));
    assert(s[i].name.take(0) =~= s[j].name.take(0));
    lemma_text_order_total(s[i].name, s[j].name, 0);
}

/// Stored text survives the way into display form and back: if names are
/// not empty, hold no brace and are not shared, and the stored text holds
/// no brace, then writing what is read gives the stored text.
pub proof fn back_trip(reg: Seq<StreamView>, kept: Seq<char>)
    requires
        plain_names(reg),
        brace_free(kept),
    ensures
        encoded(reg, decoded(reg, kept)) == kept,
{
    lemma_back_trip_from(reg, kept, 0);
    assert(kept.skip(0) =~= kept);
}

/// Deleting a stream cuts its token out of every entry that holds it. In a
/// store whose names are not empty, hold no brace and are not shared, and
/// whose entries with the token hold no brace in their stored text, each
/// such entry is left with its stored text less every occurrence of the
/// token, the first two double blanks made single and the ends trimmed.
/// Whatever else the text holds stays, and no stream is made.
pub proof fn delete_stream_cuts_the_token(
    db: DbView,
    id: Seq<char>,
    idss: Seq<Seq<Seq<char>>>,
    k: int,
)
    requires
        db.wf(),
        plain_names(db.streams),
        forall|m: int|
            0 <= m < db.entries.len() && has_id(
                direct_streams(db.streams, (#[trigger] db.entries[m]).meta),
                id,
            ) ==> brace_free(db.entries[m].meta),
        0 <= k < db.entries.len(),
        has_id(direct_streams(db.streams, db.entries[k].meta), id),
    ensures
        ({
            let after = without_stream(db, id, idss);
            &&& after.streams == drop_stream(db.streams, id)
            &&& after.entries[k] == db.entries[k].with_meta(tidied(db.entries[k].meta, id))
        }),
{
    let es = untagged_entries(db, id);
    let direct = direct_streams(db.streams, db.entries[k].meta);
    let at = choose|at: int| 0 <= at < direct.len() && (#[trigger] direct[at]).id == id;
    assert(direct.contains(direct[at]));
    lemma_filter_members(db.streams, id_among(ids_in(db.entries[k].meta)), direct[at]);
    let p = choose|p: int| 0 <= p < db.streams.len() && db.streams[p] == direct[at];
    lemma_first_with_id(db.streams, id, 0);
    assert(first_with_id(db.streams, id, 0) <= p);
    assert forall|j: int| 0 <= j < es.len() implies is_untagged_clean(db, id, #[trigger] es[j]) by {
        lemma_untagged_entries(db, id, j);
    }
    lemma_tagged_is_rewritten(db, id, k);
    let j = choose|j: int|
        0 <= j < es.len() && (#[trigger] es[j]) == db.entries[k].with_meta(
            untagged(db.streams, db.entries[k].meta, id),
        );
    assert(es[j].id == db.entries[k].id);
    lemma_stored_all_clean(db, es, idss, id, k);
}

/// An entry that holds nothing but the token of a stream is left with an
/// empty text when the token is cut out.
pub proof fn lone_token_leaves_nothing(id: Seq<char>)
    ensures
        tidied(token_for(id), id) == Seq::<char>::empty(),
{
    reveal(token_for);
    let token = token_for(id);
    let nothing = Seq::<char>::empty();
    assert(token.subrange(0, token.len() as int) =~= token);
    assert(matches_at(token, 0, token));
    assert(replaced_from(token, token, nothing, (token.len() - 1) as nat, token.len() as int)
        == nothing);
    assert(replaced_all(token, token, nothing) =~= nothing);
    assert(replaced_first(nothing, seq![' ', ' '], seq![' '], 2) == nothing);
    assert(white(nothing) =~= Seq::<bool>::empty());
    assert(skip_marked(white(nothing), 0) == 0);
    assert(cut_marked(white(nothing), 0, 0) == 0);
    assert(tidied(token, id) =~= nothing);
}

} // verus!
