//! Why deleting a stream does what it should. Entries that are written
//! again stay in their places, and the others are not touched. Stored text
//! without braces, read in display form and written again, is the stored
//! text it was, and no stream is made on the way.

use crate::codec::{lemma_encoded_plain, lemma_stored_all_wf};
use crate::models::{EntryView, StreamView};
use crate::order::lemma_filter_members;
use crate::state::{
    DbView, direct_streams, first_entry_with_id, has_id, lemma_first_entry_with_id, put_entry,
    resolved_all, stored, stored_all, tagged_with, tidied, untagged, untagged_entries, untagging,
};
use crate::tags::{
    braced, decoded, decoded_from, encoded, encoded_from, first_named, first_with_id, is_brace,
    lemma_first_named, lemma_first_with_id, lemma_id_run_end, lemma_name_run_end, name_run_end,
    name_span_end, names_from, names_in, token_for, token_span_end,
};
use crate::text::{
    cut_marked, matches_at, replaced_all, replaced_first, replaced_from, skip_marked, white,
};
use vstd::prelude::*;

verus! {

/// `s` holds no brace.
pub open spec fn brace_free(s: Seq<char>) -> bool {
    forall|i: int| 0 <= i < s.len() ==> !is_brace(#[trigger] s[i])
}

/// Every stream of `reg` has a name that can be referred to, and no two
/// streams share a name: names are not empty and hold no brace.
pub open spec fn plain_names(reg: Seq<StreamView>) -> bool {
    &&& forall|k: int|
        0 <= k < reg.len() ==> (#[trigger] reg[k]).name.len() > 0 && brace_free(reg[k].name)
    &&& forall|i: int, j: int|
        0 <= i < j < reg.len() ==> (#[trigger] reg[i]).name != (#[trigger] reg[j]).name
}

/// Some stream carries each of `names`.
pub open spec fn all_known(reg: Seq<StreamView>, names: Seq<Seq<char>>) -> bool {
    forall|j: int| 0 <= j < names.len() ==> first_named(reg, #[trigger] names[j], 0) < reg.len()
}

/// A run of characters that are not braces ends at the brace behind it.
pub proof fn lemma_name_run_stops(s: Seq<char>, a: int, b: int)
    requires
        0 <= a <= b < s.len(),
        forall|j: int| a <= j < b ==> !is_brace(#[trigger] s[j]),
        is_brace(s[b]),
    ensures
        name_run_end(s, a) == b,
    decreases b - a,
{
    if a < b {
        lemma_name_run_stops(s, a + 1, b);
    }
}

/// A text that starts with a reference to `name` has a reference at its
/// start, which ends where that reference ends and holds `name`.
pub proof fn lemma_name_at_front(name: Seq<char>, rest: Seq<char>)
    requires
        name.len() > 0,
        brace_free(name),
    ensures
        name_span_end(braced(name) + rest, 0) == Some(name.len() as int + 2),
        (braced(name) + rest).subrange(1, name.len() as int + 1) == name,
{
    let x = braced(name) + rest;
    let n = name.len() as int;
    assert forall|j: int| 1 <= j < 1 + n implies !is_brace(#[trigger] x[j]) by {
        assert(x[j] == name[j - 1]);
    }
    assert(x[1 + n] == '}');
    lemma_name_run_stops(x, 1, 1 + n);
    assert(x.subrange(1, n + 1) =~= name);
}

/// Where a run of characters that are not braces ends does not depend on
/// what stands before the text.
pub proof fn lemma_name_run_shift(a: Seq<char>, b: Seq<char>, j: int)
    requires
        0 <= j,
    ensures
        j <= b.len() ==> name_run_end(a + b, a.len() + j) == a.len() + name_run_end(b, j),
    decreases b.len() - j,
{
    if j < b.len() {
        assert((a + b)[a.len() + j] == b[j]);
        if !is_brace(b[j]) {
            lemma_name_run_shift(a, b, j + 1);
        }
    }
}

/// Whether a reference starts at an index behind `a` does not depend on
/// `a`.
pub proof fn lemma_name_span_shift(a: Seq<char>, b: Seq<char>, j: int)
    requires
        0 <= j <= b.len(),
    ensures
        name_span_end(a + b, a.len() + j) == match name_span_end(b, j) {
            Some(e) => Some(a.len() + e),
            None => None,
        },
{
    let x = a + b;
    let n = a.len() as int;
    if j < b.len() {
        assert(x[n + j] == b[j]);
        lemma_name_run_shift(a, b, j + 1);
        lemma_name_run_end(b, j + 1);
        let e = name_run_end(b, j + 1);
        if e < b.len() {
            assert(x[n + e] == b[e]);
        }
    }
}

/// What stands before a text has no part in the stored form of the text.
pub proof fn lemma_encoded_shift(reg: Seq<StreamView>, a: Seq<char>, b: Seq<char>, j: int)
    requires
        0 <= j <= b.len(),
    ensures
        encoded_from(reg, a + b, a.len() + j) == encoded_from(reg, b, j),
    decreases b.len() - j,
{
    let x = a + b;
    let n = a.len() as int;
    if j < b.len() {
        lemma_name_span_shift(a, b, j);
        assert(x[n + j] == b[j]);
        match name_span_end(b, j) {
            Some(e) => {
                lemma_name_run_end(b, j + 1);
                assert(x.subrange(n + j + 1, n + e - 1) =~= b.subrange(j + 1, e - 1));
                assert(x.subrange(n + j, n + e) =~= b.subrange(j, e));
                lemma_encoded_shift(reg, a, b, e);
            },
            None => {
                lemma_encoded_shift(reg, a, b, j + 1);
            },
        }
    }
}

/// What stands before a text has no part in the names that the text refers
/// to.
pub proof fn lemma_names_shift(a: Seq<char>, b: Seq<char>, j: int)
    requires
        0 <= j <= b.len(),
    ensures
        names_from(a + b, a.len() + j) == names_from(b, j),
    decreases b.len() - j,
{
    let x = a + b;
    let n = a.len() as int;
    if j < b.len() {
        lemma_name_span_shift(a, b, j);
        match name_span_end(b, j) {
            Some(e) => {
                lemma_name_run_end(b, j + 1);
                assert(x.subrange(n + j + 1, n + e - 1) =~= b.subrange(j + 1, e - 1));
                lemma_names_shift(a, b, e);
            },
            None => {
                lemma_names_shift(a, b, j + 1);
            },
        }
    }
}

/// Where no `{` stands, no name is referred to.
pub proof fn lemma_names_plain(s: Seq<char>, a: int, b: int)
    requires
        0 <= a <= b <= s.len(),
        forall|p: int| a <= p < b ==> #[trigger] s[p] != '{',
    ensures
        names_from(s, a) == names_from(s, b),
    decreases b - a,
{
    if a < b {
        lemma_names_plain(s, a + 1, b);
    }
}

/// The text of a token is the token of the identifier it holds.
pub proof fn lemma_token_text(s: Seq<char>, i: int)
    requires
        token_span_end(s, i) is Some,
    ensures
        ({
            let e = token_span_end(s, i)->0;
            i + 15 < e <= s.len() && s.subrange(i, e) == token_for(s.subrange(i + 12, e - 3))
        }),
{
    reveal(token_for);
    let e = token_span_end(s, i)->0;
    lemma_id_run_end(s, i + 12);
    assert(s.subrange(i, e) =~= s.subrange(i, i + 12) + s.subrange(i + 12, e - 3) + s.subrange(
        e - 3,
        e,
    ));
}

/// Where a token of a known stream stands, the display form is written back
/// as the stored text that it was read from, if it is so behind the token.
pub proof fn lemma_back_trip_known(reg: Seq<StreamView>, t: Seq<char>, i: int)
    requires
        plain_names(reg),
        0 <= i < t.len(),
        token_span_end(t, i) is Some,
        first_with_id(reg, t.subrange(i + 12, token_span_end(t, i)->0 - 3), 0) < reg.len(),
        encoded_from(reg, decoded_from(reg, t, token_span_end(t, i)->0), 0) == t.skip(
            token_span_end(t, i)->0,
        ),
    ensures
        encoded_from(reg, decoded_from(reg, t, i), 0) == t.skip(i),
{
    let e = token_span_end(t, i)->0;
    let id = t.subrange(i + 12, e - 3);
    lemma_token_text(t, i);
    lemma_first_with_id(reg, id, 0);
    let k = first_with_id(reg, id, 0);
    let name = reg[k].name;
    let rest = decoded_from(reg, t, e);
    let y = decoded_from(reg, t, i);
    let n = name.len() as int;
    assert(y == braced(name) + rest);
    assert(name_span_end(y, 0) == Some(n + 2) && y.subrange(1, n + 1) == name) by {
        lemma_name_at_front(name, rest);
    }
    assert(first_named(reg, name, 0) == k) by {
        lemma_first_named(reg, name, 0);
        let r = first_named(reg, name, 0);
        if r < k {
            assert(reg[r].name == reg[k].name);
        }
    }
    assert(encoded_from(reg, y, n + 2) == encoded_from(reg, rest, 0)) by {
        lemma_encoded_shift(reg, braced(name), rest, 0);
    }
    assert(encoded_from(reg, y, 0) == token_for(id) + encoded_from(reg, y, n + 2));
    assert(t.subrange(i, e) + t.skip(e) =~= t.skip(i));
}

/// Where a token of an unknown stream stands in a text without braces, the
/// display form is written back as the stored text that it was read from,
/// if it is so behind the token.
pub proof fn lemma_back_trip_unknown(reg: Seq<StreamView>, t: Seq<char>, i: int)
    requires
        brace_free(t),
        0 <= i < t.len(),
        token_span_end(t, i) is Some,
        first_with_id(reg, t.subrange(i + 12, token_span_end(t, i)->0 - 3), 0) >= reg.len(),
        encoded_from(reg, decoded_from(reg, t, token_span_end(t, i)->0), 0) == t.skip(
            token_span_end(t, i)->0,
        ),
    ensures
        encoded_from(reg, decoded_from(reg, t, i), 0) == t.skip(i),
{
    let e = token_span_end(t, i)->0;
    lemma_token_text(t, i);
    let chunk = t.subrange(i, e);
    let rest = decoded_from(reg, t, e);
    let y = decoded_from(reg, t, i);
    assert(y == chunk + rest);
    assert forall|p: int| 0 <= p < e - i implies #[trigger] y[p] != '{' by {
        assert(y[p] == t[i + p]);
        assert(!is_brace(t[i + p]));
    }
    assert(encoded_from(reg, y, 0) == y.subrange(0, e - i) + encoded_from(reg, y, e - i)) by {
        lemma_encoded_plain(reg, y, 0, e - i);
    }
    assert(encoded_from(reg, y, e - i) == encoded_from(reg, rest, 0)) by {
        lemma_encoded_shift(reg, chunk, rest, 0);
    }
    assert(y.subrange(0, e - i) =~= chunk);
    assert(chunk + t.skip(e) =~= t.skip(i));
}

/// Where no token stands in a text without braces, the display form is
/// written back as the stored text that it was read from, if it is so from
/// the next character on.
pub proof fn lemma_back_trip_character(reg: Seq<StreamView>, t: Seq<char>, i: int)
    requires
        brace_free(t),
        0 <= i < t.len(),
        token_span_end(t, i) is None,
        encoded_from(reg, decoded_from(reg, t, i + 1), 0) == t.skip(i + 1),
    ensures
        encoded_from(reg, decoded_from(reg, t, i), 0) == t.skip(i),
{
    let rest = decoded_from(reg, t, i + 1);
    let y = decoded_from(reg, t, i);
    assert(y == seq![t[i]] + rest);
    assert(!is_brace(t[i]));
    assert(y[0] == t[i]);
    assert(name_span_end(y, 0) is None);
    assert(encoded_from(reg, y, 1) == encoded_from(reg, rest, 0)) by {
        lemma_encoded_shift(reg, seq![t[i]], rest, 0);
    }
    assert(encoded_from(reg, y, 0) == seq![y[0]] + encoded_from(reg, y, 1));
    assert(seq![t[i]] + t.skip(i + 1) =~= t.skip(i));
}

/// Stored text without braces, read in display form from `i` on and
/// written again, is the stored text from `i` on.
pub proof fn lemma_back_trip_from(reg: Seq<StreamView>, t: Seq<char>, i: int)
    requires
        plain_names(reg),
        brace_free(t),
        0 <= i <= t.len(),
    ensures
        encoded_from(reg, decoded_from(reg, t, i), 0) == t.skip(i),
    decreases t.len() - i,
{
    if i >= t.len() {
        assert(t.skip(i) =~= Seq::<char>::empty());
    } else {
        match token_span_end(t, i) {
            Some(e) => {
                lemma_token_text(t, i);
                lemma_back_trip_from(reg, t, e);
                if first_with_id(reg, t.subrange(i + 12, e - 3), 0) < reg.len() {
                    lemma_back_trip_known(reg, t, i);
                } else {
                    lemma_back_trip_unknown(reg, t, i);
                }
            },
            None => {
                lemma_back_trip_from(reg, t, i + 1);
                lemma_back_trip_character(reg, t, i);
            },
        }
    }
}

/// The display form of stored text without braces refers to names of
/// streams only.
pub proof fn lemma_decoded_names_known(reg: Seq<StreamView>, t: Seq<char>, i: int)
    requires
        plain_names(reg),
        brace_free(t),
        0 <= i <= t.len(),
    ensures
        all_known(reg, names_from(decoded_from(reg, t, i), 0)),
    decreases t.len() - i,
{
    let y = decoded_from(reg, t, i);
    if i < t.len() {
        match token_span_end(t, i) {
            Some(e) => {
                lemma_token_text(t, i);
                lemma_decoded_names_known(reg, t, e);
                let rest = decoded_from(reg, t, e);
                let id = t.subrange(i + 12, e - 3);
                let k = first_with_id(reg, id, 0);
                lemma_first_with_id(reg, id, 0);
                if k < reg.len() {
                    let name = reg[k].name;
                    lemma_name_at_front(name, rest);
                    lemma_names_shift(braced(name), rest, 0);
                    lemma_first_named(reg, name, 0);
                    let all = names_from(y, 0);
                    assert(all == seq![name] + names_from(rest, 0));
                    assert forall|j: int| 0 <= j < all.len() implies first_named(
                        reg,
                        #[trigger] all[j],
                        0,
                    ) < reg.len() by {
                        if j > 0 {
                            assert(all[j] == names_from(rest, 0)[j - 1]);
                        }
                    }
                } else {
                    let chunk = t.subrange(i, e);
                    assert forall|p: int| 0 <= p < e - i implies #[trigger] y[p] != '{' by {
                        assert(y[p] == t[i + p]);
                        assert(!is_brace(t[i + p]));
                    }
                    lemma_names_plain(y, 0, e - i);
                    lemma_names_shift(chunk, rest, 0);
                }
            },
            None => {
                lemma_decoded_names_known(reg, t, i + 1);
                let rest = decoded_from(reg, t, i + 1);
                assert(!is_brace(t[i]));
                assert(y[0] == t[i]);
                assert(name_span_end(y, 0) is None);
                lemma_names_shift(seq![t[i]], rest, 0);
            },
        }
    }
}

/// Looking up names that streams carry makes no stream.
pub proof fn lemma_resolved_all_known(
    reg: Seq<StreamView>,
    names: Seq<Seq<char>>,
    ids: Seq<Seq<char>>,
)
    requires
        all_known(reg, names),
    ensures
        resolved_all(reg, names, ids) == reg,
    decreases names.len(),
{
    if names.len() > 0 {
        assert forall|j: int| 0 <= j < names.drop_last().len() implies first_named(
            reg,
            #[trigger] names.drop_last()[j],
            0,
        ) < reg.len() by {
            assert(names.drop_last()[j] == names[j]);
        }
        lemma_resolved_all_known(reg, names.drop_last(), ids.drop_last());
        assert(first_named(reg, names[names.len() - 1], 0) < reg.len());
    }
}

/// Replacing in a text without braces, by a text without braces, leaves a
/// text without braces.
pub proof fn lemma_replaced_brace_free(
    s: Seq<char>,
    pat: Seq<char>,
    to: Seq<char>,
    n: nat,
    i: int,
)
    requires
        brace_free(s),
        brace_free(to),
    ensures
        brace_free(replaced_from(s, pat, to, n, i)),
    decreases s.len() - i,
{
    if 0 <= i < s.len() {
        if n > 0 && pat.len() > 0 && matches_at(s, i, pat) {
            lemma_replaced_brace_free(s, pat, to, (n - 1) as nat, i + pat.len());
        } else {
            lemma_replaced_brace_free(s, pat, to, n, i + 1);
            assert(!is_brace(s[i]));
        }
    }
}

/// Marks are skipped within their list.
pub proof fn lemma_skip_marked_bounds(marks: Seq<bool>, i: int)
    requires
        0 <= i <= marks.len(),
    ensures
        i <= skip_marked(marks, i) <= marks.len(),
    decreases marks.len() - i,
{
    if i < marks.len() && marks[i] {
        lemma_skip_marked_bounds(marks, i + 1);
    }
}

/// Marks are cut within their list.
pub proof fn lemma_cut_marked_bounds(marks: Seq<bool>, low: int, j: int)
    requires
        0 <= low <= j <= marks.len(),
    ensures
        low <= cut_marked(marks, low, j) <= j,
    decreases j,
{
    if low < j && marks[j - 1] {
        lemma_cut_marked_bounds(marks, low, j - 1);
    }
}

/// Cutting a token out of stored text without braces leaves stored text
/// without braces.
pub proof fn lemma_tidied_brace_free(meta: Seq<char>, id: Seq<char>)
    requires
        brace_free(meta),
    ensures
        brace_free(tidied(meta, id)),
{
    let cut = replaced_all(meta, token_for(id), Seq::empty());
    lemma_replaced_brace_free(meta, token_for(id), Seq::empty(), meta.len(), 0);
    let tidy = replaced_first(cut, seq![' ', ' '], seq![' '], 2);
    lemma_replaced_brace_free(cut, seq![' ', ' '], seq![' '], 2, 0);
    let marks = white(tidy);
    lemma_skip_marked_bounds(marks, 0);
    let a = skip_marked(marks, 0);
    lemma_cut_marked_bounds(marks, a, marks.len() as int);
    let b = cut_marked(marks, a, marks.len() as int);
    assert forall|i: int| 0 <= i < tidy.subrange(a, b).len() implies !is_brace(
        #[trigger] tidy.subrange(a, b)[i],
    ) by {
        assert(tidy.subrange(a, b)[i] == tidy[a + i]);
    }
}

/// Writing an entry whose `meta` is the display form of stored text without
/// braces keeps that stored text and makes no stream.
pub proof fn lemma_stored_clean(db: DbView, x: EntryView, ids: Seq<Seq<char>>, t: Seq<char>)
    requires
        plain_names(db.streams),
        brace_free(t),
        x.meta == decoded(db.streams, t),
    ensures
        stored(db, x, ids) == (DbView {
            streams: db.streams,
            entries: put_entry(db.entries, x.with_meta(t)),
            sync_id: db.sync_id,
        }),
{
    lemma_decoded_names_known(db.streams, t, 0);
    lemma_resolved_all_known(db.streams, names_in(x.meta), ids);
    lemma_back_trip_from(db.streams, t, 0);
    assert(t.skip(0) =~= t);
}

/// `x` is an entry of `db` that holds no brace in its stored text, with the
/// token of stream `id` cut out and in display form.
pub open spec fn is_untagged_clean(db: DbView, id: Seq<char>, x: EntryView) -> bool {
    exists|m: int|
        0 <= m < db.entries.len() && brace_free((#[trigger] db.entries[m]).meta) && x
            == db.entries[m].with_meta(untagged(db.streams, db.entries[m].meta, id))
}

/// Writing again entries of a well-kept store, each with the token of
/// stream `id` cut out, makes no stream, keeps every entry in its place,
/// and leaves each entry written with its stored text tidied.
pub proof fn lemma_stored_all_clean(
    db: DbView,
    es: Seq<EntryView>,
    idss: Seq<Seq<Seq<char>>>,
    id: Seq<char>,
    k: int,
)
    requires
        db.wf(),
        plain_names(db.streams),
        0 <= k < db.entries.len(),
        forall|j: int| 0 <= j < es.len() ==> is_untagged_clean(db, id, #[trigger] es[j]),
    ensures
        ({
            let after = stored_all(db, es, idss);
            &&& after.streams == db.streams
            &&& after.entries.len() == db.entries.len()
            &&& forall|m: int|
                0 <= m < db.entries.len() ==> (#[trigger] after.entries[m]).id == db.entries[m].id
            &&& (exists|j: int| 0 <= j < es.len() && (#[trigger] es[j]).id == db.entries[k].id)
                ==> after.entries[k] == db.entries[k].with_meta(tidied(db.entries[k].meta, id))
        }),
    decreases es.len(),
{
    if es.len() > 0 {
        let front = es.drop_last();
        let x = es.last();
        assert forall|j: int| 0 <= j < front.len() implies is_untagged_clean(
            db,
            id,
            #[trigger] front[j],
        ) by {
            assert(front[j] == es[j]);
        }
        lemma_stored_all_clean(db, front, idss.drop_last(), id, k);
        lemma_stored_all_wf(db, front, idss.drop_last());
        let prev = stored_all(db, front, idss.drop_last());
        let after = stored(prev, x, idss.last());
        assert(is_untagged_clean(db, id, es[es.len() - 1]));
        let m = choose|m: int|
            0 <= m < db.entries.len() && brace_free((#[trigger] db.entries[m]).meta) && x
                == db.entries[m].with_meta(untagged(db.streams, db.entries[m].meta, id));
        let t = tidied(db.entries[m].meta, id);
        lemma_tidied_brace_free(db.entries[m].meta, id);
        lemma_stored_clean(prev, x, idss.last(), t);
        assert(prev.entries[m].id == x.id);
        lemma_first_entry_with_id(prev.entries, x.id, 0);
        let at = first_entry_with_id(prev.entries, x.id, 0);
        assert(at == m) by {
            if at < m {
                assert(prev.entries[at].id == prev.entries[m].id);
            }
        }
        assert(after.entries == prev.entries.update(m, x.with_meta(t)));
        if exists|j: int| 0 <= j < es.len() && (#[trigger] es[j]).id == db.entries[k].id {
            if m == k {
                assert(after.entries[k] == db.entries[k].with_meta(t));
            } else {
                let j = choose|j: int| 0 <= j < es.len() && (#[trigger] es[j]).id == db.entries[k].id;
                assert(x.id == db.entries[m].id);
                assert(j < front.len());
                assert(front[j] == es[j]);
            }
        }
    }
}

/// `a` and `b` differ in `meta` at most.
pub open spec fn same_but_meta(a: EntryView, b: EntryView) -> bool {
    a.with_meta(Seq::empty()) == b.with_meta(Seq::empty())
}

/// Writing again entries that the store has, each with a `meta` of its own,
/// keeps every entry in its place with all its other fields, and leaves
/// alone the entries that are not written.
pub proof fn lemma_stored_all_in_place(db: DbView, es: Seq<EntryView>, idss: Seq<Seq<Seq<char>>>)
    requires
        db.wf(),
        forall|j: int|
            0 <= j < es.len() ==> exists|m: int|
                0 <= m < db.entries.len() && same_but_meta(#[trigger] es[j], db.entries[m]),
    ensures
        stored_all(db, es, idss).entries.len() == db.entries.len(),
        forall|k: int|
            0 <= k < db.entries.len() ==> same_but_meta(
                #[trigger] stored_all(db, es, idss).entries[k],
                db.entries[k],
            ),
        forall|k: int|
            0 <= k < db.entries.len() && (forall|j: int|
                0 <= j < es.len() ==> (#[trigger] es[j]).id != db.entries[k].id) ==> (
            #[trigger] stored_all(db, es, idss).entries[k]) == db.entries[k],
    decreases es.len(),
{
    if es.len() > 0 {
        let front = es.drop_last();
        let x = es.last();
        assert forall|j: int| 0 <= j < front.len() implies exists|m: int|
            0 <= m < db.entries.len() && same_but_meta(#[trigger] front[j], db.entries[m]) by {
            assert(front[j] == es[j]);
        }
        lemma_stored_all_in_place(db, front, idss.drop_last());
        lemma_stored_all_wf(db, front, idss.drop_last());
        let prev = stored_all(db, front, idss.drop_last());
        let after = stored(prev, x, idss.last());
        let kept = x.with_meta(encoded(after.streams, x.meta));
        assert(same_but_meta(es[es.len() - 1], x));
        let m = choose|m: int| 0 <= m < db.entries.len() && same_but_meta(x, db.entries[m]);
        assert(same_but_meta(prev.entries[m], db.entries[m]));
        assert(prev.entries[m].id == x.id);
        lemma_first_entry_with_id(prev.entries, x.id, 0);
        let at = first_entry_with_id(prev.entries, x.id, 0);
        assert(at == m) by {
            if at < m {
                assert(prev.entries[at].id == prev.entries[m].id);
            }
        }
        assert(after.entries == prev.entries.update(m, kept));
        assert forall|k: int| 0 <= k < db.entries.len() implies same_but_meta(
            #[trigger] after.entries[k],
            db.entries[k],
        ) by {
            assert(same_but_meta(prev.entries[k], db.entries[k]));
        }
        assert forall|k: int|
            0 <= k < db.entries.len() && (forall|j: int|
                0 <= j < es.len() ==> (#[trigger] es[j]).id != db.entries[k].id) implies (
        #[trigger] after.entries[k]) == db.entries[k] by {
            assert(es[es.len() - 1].id != db.entries[k].id);
            assert forall|j: int| 0 <= j < front.len() implies (#[trigger] front[j]).id
                != db.entries[k].id by {
                assert(front[j] == es[j]);
            }
            assert(prev.entries[k] == db.entries[k]);
            assert(k != m);
        }
    }
}

/// Each of the entries that are written again when stream `id` is deleted
/// is an entry of the store that holds the stream's token, with that token
/// cut out of `meta`.
pub proof fn lemma_untagged_entries(db: DbView, id: Seq<char>, j: int)
    requires
        0 <= j < untagged_entries(db, id).len(),
    ensures
        exists|m: int|
            0 <= m < db.entries.len() && has_id(
                direct_streams(db.streams, (#[trigger] db.entries[m]).meta),
                id,
            ) && untagged_entries(db, id)[j] == db.entries[m].with_meta(
                untagged(db.streams, db.entries[m].meta, id),
            ),
{
    let rev = db.entries.reverse();
    let pred = tagged_with(db.streams, id);
    let kept = rev.filter(pred);
    let x = kept[j];
    assert(kept.contains(x));
    lemma_filter_members(rev, pred, x);
    let i = choose|i: int| 0 <= i < rev.len() && rev[i] == x;
    let m = db.entries.len() - 1 - i;
    assert(db.entries[m] == x);
    assert(untagged_entries(db, id)[j] == untagging(db.streams, id)(x));
}

/// Each entry that holds the token of stream `id` is among the entries that
/// are written again when the stream is deleted.
pub proof fn lemma_tagged_is_rewritten(db: DbView, id: Seq<char>, k: int)
    requires
        0 <= k < db.entries.len(),
        has_id(direct_streams(db.streams, db.entries[k].meta), id),
    ensures
        exists|j: int|
            0 <= j < untagged_entries(db, id).len() && (#[trigger] untagged_entries(db, id)[j])
                == db.entries[k].with_meta(untagged(db.streams, db.entries[k].meta, id)),
{
    let rev = db.entries.reverse();
    let pred = tagged_with(db.streams, id);
    let kept = rev.filter(pred);
    let x = db.entries[k];
    assert(rev[db.entries.len() - 1 - k] == x);
    assert(rev.contains(x));
    lemma_filter_members(rev, pred, x);
    let j = choose|j: int| 0 <= j < kept.len() && kept[j] == x;
    assert(untagged_entries(db, id)[j] == untagging(db.streams, id)(x));
}

} // verus!
