//! Why display text survives the way into stored form and back: a token
//! that was written is found again where it stands, and nothing that was
//! copied reads as a token.

use crate::ids::{all_minted, is_minted, is_suffix, is_url_safe, minted_at, record_id};
use crate::models::{EntryView, StreamView, inbox_id};
use crate::state::{
    DbView, distinct_stream_ids, drop_stream, inbox, lemma_put_entry_distinct,
    lemma_put_stream_distinct, put_stream, resolved_all, stored, stored_all, token_safe,
    token_safe_ids,
};
use crate::tags::{
    braced, decoded_from, encoded, encoded_from, first_named, first_with_id, id_run_end,
    is_bracket, lemma_first_named, lemma_first_with_id, lemma_id_run_end, lemma_name_run_end,
    name_span_end, names_in, near_token_at, no_near_token, token_for, token_prefix,
    token_span_end, token_suffix,
};
use crate::text::decimal;
use vstd::prelude::*;

verus! {

/// A run of characters that are not brackets ends at the bracket behind
/// it.
pub proof fn lemma_id_run_stops(s: Seq<char>, a: int, b: int)
    requires
        0 <= a <= b < s.len(),
        forall|j: int| a <= j < b ==> !is_bracket(#[trigger] s[j]),
        is_bracket(s[b]),
    ensures
        id_run_end(s, a) == b,
    decreases b - a,
{
    if a < b {
        lemma_id_run_stops(s, a + 1, b);
    }
}

/// A text that starts with the token of `id` has a token at its start, which
/// ends where that token ends and holds `id`.
pub proof fn lemma_token_at_front(id: Seq<char>, rest: Seq<char>)
    requires
        token_safe(id),
    ensures
        token_span_end(token_for(id) + rest, 0) == Some(15 + id.len() as int),
        (token_for(id) + rest).subrange(12, 12 + id.len() as int) == id,
{
    reveal(token_for);
    let x = token_for(id) + rest;
    let n = id.len() as int;
    assert(x.subrange(0, 12) =~= token_prefix());
    assert forall|j: int| 12 <= j < 12 + n implies !is_bracket(#[trigger] x[j]) by {
        assert(x[j] == id[j - 12]);
    }
    assert(x[12 + n] == ']');
    lemma_id_run_stops(x, 12, 12 + n);
    assert(x.subrange(12 + n, 15 + n) =~= token_suffix());
    assert(x.subrange(12, 12 + n) =~= id);
}

/// Where a run of characters that are not brackets ends does not depend on
/// what stands before the text.
pub proof fn lemma_id_run_shift(a: Seq<char>, b: Seq<char>, j: int)
    requires
        0 <= j,
    ensures
        j <= b.len() ==> id_run_end(a + b, a.len() + j) == a.len() + id_run_end(b, j),
    decreases b.len() - j,
{
    if j < b.len() {
        assert((a + b)[a.len() + j] == b[j]);
        if !is_bracket(b[j]) {
            lemma_id_run_shift(a, b, j + 1);
        }
    }
}

/// Whether a token starts at an index behind `a` does not depend on `a`.
pub proof fn lemma_token_span_shift(a: Seq<char>, b: Seq<char>, j: int)
    requires
        0 <= j <= b.len(),
    ensures
        token_span_end(a + b, a.len() + j) == match token_span_end(b, j) {
            Some(e) => Some(a.len() + e),
            None => None,
        },
{
    let x = a + b;
    let n = a.len() as int;
    lemma_id_run_shift(a, b, j + 12);
    if j + 12 <= b.len() {
        assert(x.subrange(n + j, n + j + 12) =~= b.subrange(j, j + 12));
        lemma_id_run_end(b, j + 12);
        let e = id_run_end(b, j + 12);
        if e + 3 <= b.len() {
            assert(x.subrange(n + e, n + e + 3) =~= b.subrange(e, e + 3));
        }
    }
}

/// What stands before a text has no part in how the text reads in display
/// form.
pub proof fn lemma_decoded_shift(reg: Seq<StreamView>, a: Seq<char>, b: Seq<char>, j: int)
    requires
        0 <= j <= b.len(),
    ensures
        decoded_from(reg, a + b, a.len() + j) == decoded_from(reg, b, j),
    decreases b.len() - j,
{
    let x = a + b;
    let n = a.len() as int;
    if j < b.len() {
        lemma_token_span_shift(a, b, j);
        assert(x[n + j] == b[j]);
        match token_span_end(b, j) {
            Some(e) => {
                lemma_id_run_end(b, j + 12);
                if e > j {
                    assert(x.subrange(n + j + 12, n + e - 3) =~= b.subrange(j + 12, e - 3));
                    assert(x.subrange(n + j, n + e) =~= b.subrange(j, e));
                    lemma_decoded_shift(reg, a, b, e);
                } else {
                    lemma_decoded_shift(reg, a, b, j + 1);
                }
            },
            None => {
                lemma_decoded_shift(reg, a, b, j + 1);
            },
        }
    }
}

/// Where no `{` stands, the stored form is the text itself.
pub proof fn lemma_encoded_plain(reg: Seq<StreamView>, s: Seq<char>, a: int, b: int)
    requires
        0 <= a <= b <= s.len(),
        forall|p: int| a <= p < b ==> #[trigger] s[p] != '{',
    ensures
        encoded_from(reg, s, a) == s.subrange(a, b) + encoded_from(reg, s, b),
    decreases b - a,
{
    if a < b {
        lemma_encoded_plain(reg, s, a + 1, b);
        assert(seq![s[a]] + (s.subrange(a + 1, b) + encoded_from(reg, s, b)) =~= s.subrange(a, b)
            + encoded_from(reg, s, b));
    } else {
        assert(s.subrange(a, b) + encoded_from(reg, s, b) =~= encoded_from(reg, s, b));
    }
}

/// At index `i` of `s` stands a reference to a name that `reg` knows.
pub open spec fn resolved_span_at(reg: Seq<StreamView>, s: Seq<char>, i: int) -> bool {
    match name_span_end(s, i) {
        Some(e) => 0 <= first_named(reg, s.subrange(i + 1, e - 1), 0) < reg.len(),
        None => false,
    }
}

/// Where no reference to a known name starts, the stored form starts with
/// the character that stands there.
pub proof fn lemma_encoded_step(reg: Seq<StreamView>, s: Seq<char>, i: int)
    requires
        0 <= i < s.len(),
        !resolved_span_at(reg, s, i),
    ensures
        encoded_from(reg, s, i) == seq![s[i]] + encoded_from(reg, s, i + 1),
{
    match name_span_end(s, i) {
        Some(e) => {
            lemma_name_run_end(s, i + 1);
            lemma_first_named(reg, s.subrange(i + 1, e - 1), 0);
            lemma_encoded_plain(reg, s, i + 1, e);
            assert(s.subrange(i, e) + encoded_from(reg, s, e) =~= seq![s[i]] + (s.subrange(
                i + 1,
                e,
            ) + encoded_from(reg, s, e)));
        },
        None => {},
    }
}

/// If the first square bracket of a stored form is a `]`, or a `[` among
/// the first eleven characters, the stored form is, up to there, the text
/// itself.
pub proof fn lemma_encoded_copied(reg: Seq<StreamView>, s: Seq<char>, j: int, r: int)
    requires
        0 <= j <= s.len(),
        0 <= r < encoded_from(reg, s, j).len(),
        forall|q: int|
            0 <= q < r ==> (#[trigger] encoded_from(reg, s, j)[q]) != '[' && encoded_from(
                reg,
                s,
                j,
            )[q] != ']',
        encoded_from(reg, s, j)[r] == ']' || (encoded_from(reg, s, j)[r] == '[' && r <= 10),
    ensures
        j + r < s.len(),
        encoded_from(reg, s, j) == s.subrange(j, j + r + 1) + encoded_from(reg, s, j + r + 1),
    decreases r,
{
    let y = encoded_from(reg, s, j);
    if resolved_span_at(reg, s, j) {
        lemma_encoded_reference(reg, s, j);
        let e = name_span_end(s, j)->0;
        let k = first_named(reg, s.subrange(j + 1, e - 1), 0);
        reveal(token_for);
        assert(y[11] == token_prefix()[11]);
        if r < 11 {
            assert(y[r] == token_prefix()[r]);
        }
    } else {
        lemma_encoded_step(reg, s, j);
        let rest = encoded_from(reg, s, j + 1);
        if r == 0 {
            assert(s.subrange(j, j + 1) =~= seq![s[j]]);
        } else {
            assert(y[r] == rest[r - 1]);
            assert forall|q: int| 0 <= q < r - 1 implies (#[trigger] rest[q]) != '[' && rest[q]
                != ']' by {
                assert(rest[q] == y[q + 1]);
            }
            lemma_encoded_copied(reg, s, j + 1, r - 1);
            assert(seq![s[j]] + (s.subrange(j + 1, j + r + 1) + encoded_from(reg, s, j + r + 1))
                =~= s.subrange(j, j + r + 1) + encoded_from(reg, s, j + r + 1));
        }
    }
}

/// Where a stored form starts with two `_`, the text does.
pub proof fn lemma_encoded_underscores(reg: Seq<StreamView>, s: Seq<char>, j: int)
    requires
        0 <= j <= s.len(),
        encoded_from(reg, s, j).len() >= 2,
        encoded_from(reg, s, j)[0] == '_',
        encoded_from(reg, s, j)[1] == '_',
    ensures
        j < s.len(),
        s[j] == '_',
{
    if resolved_span_at(reg, s, j) {
        lemma_encoded_reference(reg, s, j);
        reveal(token_for);
        let e = name_span_end(s, j)->0;
        let k = first_named(reg, s.subrange(j + 1, e - 1), 0);
        assert(encoded_from(reg, s, j)[1] == token_prefix()[1]);
    } else if j < s.len() {
        lemma_encoded_step(reg, s, j);
    }
}

/// Where the text has neither a reference to a known name nor a token or
/// all of one but its last character, its stored form has no token.
pub proof fn lemma_no_token_at_front(reg: Seq<StreamView>, s: Seq<char>, i: int)
    requires
        0 <= i < s.len(),
        !resolved_span_at(reg, s, i),
        !near_token_at(s, i),
    ensures
        token_span_end(encoded_from(reg, s, i), 0) is None,
{
    let x = encoded_from(reg, s, i);
    if token_span_end(x, 0) is Some {
        lemma_encoded_step(reg, s, i);
        let rest = encoded_from(reg, s, i + 1);
        let head = x.subrange(0, 12);
        assert(head == token_prefix());
        assert(rest[10] == '[') by {
            assert(head[11] == x[11]);
        }
        assert forall|q: int| 0 <= q < 10 implies (#[trigger] rest[q]) != '[' && rest[q]
            != ']' by {
            assert(rest[q] == head[q + 1]);
        }
        lemma_encoded_copied(reg, s, i + 1, 10);
        let y = encoded_from(reg, s, i + 12);
        let copied = s.subrange(i, i + 12);
        assert(x == copied + y) by {
            assert(seq![s[i]] + (s.subrange(i + 1, i + 12) + y) =~= copied + y);
        }
        assert(copied =~= head);
        lemma_id_run_shift(copied, y, 0);
        lemma_id_run_end(y, 0);
        let r = id_run_end(y, 0);
        assert(0 < r < y.len() && y[r] == ']') by {
            assert(x.subrange(12 + r, 15 + r)[0] == x[12 + r]);
        }
        assert forall|q: int| 0 <= q < r implies (#[trigger] y[q]) != '[' && y[q] != ']' by {
            assert(!is_bracket(y[q]));
        }
        lemma_encoded_copied(reg, s, i + 12, r);
        let z = encoded_from(reg, s, i + 13 + r);
        assert(y == s.subrange(i + 12, i + 13 + r) + z);
        assert forall|q: int| i + 12 <= q < i + 12 + r implies !is_bracket(#[trigger] s[q]) by {
            assert(s[q] == y[q - i - 12]);
            assert(!is_bracket(y[q - i - 12]));
        }
        assert(s[i + 12 + r] == y[r]);
        lemma_id_run_stops(s, i + 12, i + 12 + r);
        assert(z.len() >= 2 && z[0] == '_' && z[1] == '_') by {
            let tail = x.subrange(12 + r, 15 + r);
            assert(tail[1] == x[13 + r] && tail[2] == x[14 + r]);
            assert(x[13 + r] == z[0] && x[14 + r] == z[1]);
        }
        lemma_encoded_underscores(reg, s, i + 13 + r);
        assert(s.subrange(i + 12 + r, i + 14 + r) =~= seq![']', '_']);
        assert(near_token_at(s, i));
    }
}

/// Where a reference to a known name stands, the stored form starts with
/// the token of the first stream of that name.
pub proof fn lemma_encoded_reference(reg: Seq<StreamView>, s: Seq<char>, i: int)
    requires
        0 <= i < s.len(),
        resolved_span_at(reg, s, i),
    ensures
        ({
            let e = name_span_end(s, i)->0;
            let k = first_named(reg, s.subrange(i + 1, e - 1), 0);
            &&& i + 2 < e <= s.len()
            &&& 0 <= k < reg.len()
            &&& reg[k].name == s.subrange(i + 1, e - 1)
            &&& encoded_from(reg, s, i) == token_for(reg[k].id) + encoded_from(reg, s, e)
            &&& s.subrange(i, e) == braced(reg[k].name)
        }),
{
    let e = name_span_end(s, i)->0;
    lemma_name_run_end(s, i + 1);
    lemma_first_named(reg, s.subrange(i + 1, e - 1), 0);
    assert(s.subrange(i, e) =~= braced(s.subrange(i + 1, e - 1)));
}

/// Where a token of a known stream stands at the start of a text, the
/// display form starts with a reference to that stream's name.
pub proof fn lemma_decoded_token(reg: Seq<StreamView>, x: Seq<char>, end: int, k: int)
    requires
        token_span_end(x, 0) == Some(end),
        0 < end <= x.len(),
        0 <= k < reg.len(),
        first_with_id(reg, x.subrange(12, end - 3), 0) == k,
    ensures
        decoded_from(reg, x, 0) == braced(reg[k].name) + decoded_from(reg, x, end),
{
}

/// Where a reference to a known name stands, the stored form reads as the
/// text does, if it does so behind the reference.
pub proof fn lemma_round_trip_reference(reg: Seq<StreamView>, s: Seq<char>, i: int)
    requires
        0 <= i < s.len(),
        distinct_stream_ids(reg),
        token_safe_ids(reg),
        resolved_span_at(reg, s, i),
        decoded_from(reg, encoded_from(reg, s, name_span_end(s, i)->0), 0) == s.skip(
            name_span_end(s, i)->0,
        ),
    ensures
        decoded_from(reg, encoded_from(reg, s, i), 0) == s.skip(i),
{
    let x = encoded_from(reg, s, i);
    let e = name_span_end(s, i)->0;
    let k = first_named(reg, s.subrange(i + 1, e - 1), 0);
    lemma_encoded_reference(reg, s, i);
    let id = reg[k].id;
    let rest = encoded_from(reg, s, e);
    let end = 15 + id.len() as int;
    lemma_token_at_front(id, rest);
    assert(token_for(id).len() == end) by {
        reveal(token_for);
    }
    assert(first_with_id(reg, id, 0) == k) by {
        lemma_first_with_id(reg, id, 0);
    }
    lemma_decoded_shift(reg, token_for(id), rest, 0);
    lemma_decoded_token(reg, x, end, k);
    assert(s.subrange(i, e) + s.skip(e) =~= s.skip(i));
}

/// Where no reference to a known name stands, the stored form reads as the
/// text does, if it does so from the next character on.
pub proof fn lemma_round_trip_character(reg: Seq<StreamView>, s: Seq<char>, i: int)
    requires
        0 <= i < s.len(),
        !resolved_span_at(reg, s, i),
        !near_token_at(s, i),
        decoded_from(reg, encoded_from(reg, s, i + 1), 0) == s.skip(i + 1),
    ensures
        decoded_from(reg, encoded_from(reg, s, i), 0) == s.skip(i),
{
    let x = encoded_from(reg, s, i);
    let rest = encoded_from(reg, s, i + 1);
    assert(x == seq![s[i]] + rest) by {
        lemma_encoded_step(reg, s, i);
    }
    assert(token_span_end(x, 0) is None) by {
        lemma_no_token_at_front(reg, s, i);
    }
    assert(decoded_from(reg, x, 1) == decoded_from(reg, rest, 0)) by {
        lemma_decoded_shift(reg, seq![s[i]], rest, 0);
    }
    assert(decoded_from(reg, x, 0) == seq![x[0]] + decoded_from(reg, x, 1));
    assert(seq![s[i]] + s.skip(i + 1) =~= s.skip(i));
}

/// The stored form of `s[i..]` reads `s[i..]` in display form.
pub proof fn lemma_round_trip_from(reg: Seq<StreamView>, s: Seq<char>, i: int)
    requires
        0 <= i <= s.len(),
        distinct_stream_ids(reg),
        token_safe_ids(reg),
        no_near_token(s),
    ensures
        decoded_from(reg, encoded_from(reg, s, i), 0) == s.skip(i),
    decreases s.len() - i,
{
    if i >= s.len() {
        assert(s.skip(i) =~= Seq::<char>::empty());
    } else if resolved_span_at(reg, s, i) {
        let e = name_span_end(s, i)->0;
        lemma_name_run_end(s, i + 1);
        lemma_round_trip_from(reg, s, e);
        lemma_round_trip_reference(reg, s, i);
    } else {
        lemma_round_trip_from(reg, s, i + 1);
        lemma_round_trip_character(reg, s, i);
    }
}

/// Decimal notation is made of digits.
pub proof fn lemma_decimal_digits(n: nat)
    ensures
        decimal(n).len() > 0,
        forall|j: int| 0 <= j < decimal(n).len() ==> '0' <= (#[trigger] decimal(n)[j]) <= '9',
    decreases n,
{
    if n >= 10 {
        lemma_decimal_digits(n / 10);
    }
}

/// Writing a stream whose identifier can stand inside a token keeps the
/// store's identifiers fit for tokens.
pub proof fn lemma_put_stream_keeps(reg: Seq<StreamView>, s: StreamView)
    requires
        token_safe_ids(reg),
        token_safe(s.id),
    ensures
        token_safe_ids(put_stream(reg, s)),
{
    lemma_first_with_id(reg, s.id, 0);
}

/// Resolving names keeps the store's identifiers fit for tokens.
pub proof fn lemma_resolved_all_keeps(
    reg: Seq<StreamView>,
    names: Seq<Seq<char>>,
    ids: Seq<Seq<char>>,
)
    requires
        token_safe_ids(reg),
        ids.len() == names.len(),
        all_minted(ids),
    ensures
        token_safe_ids(resolved_all(reg, names, ids)),
    decreases names.len(),
{
    if names.len() > 0 {
        assert forall|k: int| 0 <= k < ids.drop_last().len() implies is_minted(
            #[trigger] ids.drop_last()[k],
        ) by {
            assert(ids.drop_last()[k] == ids[k]);
        }
        lemma_resolved_all_keeps(reg, names.drop_last(), ids.drop_last());
        let before = resolved_all(reg, names.drop_last(), ids.drop_last());
        assert(is_minted(ids[ids.len() - 1]));
        lemma_minted_is_token_safe(ids.last());
        lemma_put_stream_keeps(
            before,
            StreamView { id: ids.last(), meta: Seq::empty(), name: names.last() },
        );
    }
}

/// Resolving names keeps the identifiers of the streams distinct.
pub proof fn lemma_resolved_all_distinct(
    reg: Seq<StreamView>,
    names: Seq<Seq<char>>,
    ids: Seq<Seq<char>>,
)
    requires
        distinct_stream_ids(reg),
    ensures
        distinct_stream_ids(resolved_all(reg, names, ids)),
    decreases names.len(),
{
    if names.len() > 0 {
        lemma_resolved_all_distinct(reg, names.drop_last(), ids.drop_last());
        lemma_put_stream_distinct(
            resolved_all(reg, names.drop_last(), ids.drop_last()),
            StreamView { id: ids.last(), meta: Seq::empty(), name: names.last() },
        );
    }
}

/// Writing an entry keeps the store's keys distinct.
pub proof fn lemma_stored_wf(db: DbView, e: EntryView, ids: Seq<Seq<char>>)
    requires
        db.wf(),
    ensures
        stored(db, e, ids).wf(),
{
    lemma_resolved_all_distinct(db.streams, names_in(e.meta), ids);
    let reg = resolved_all(db.streams, names_in(e.meta), ids);
    lemma_put_entry_distinct(db.entries, e.with_meta(encoded(reg, e.meta)));
}

/// Writing entries one after another keeps the store's keys distinct.
pub proof fn lemma_stored_all_wf(db: DbView, es: Seq<EntryView>, idss: Seq<Seq<Seq<char>>>)
    requires
        db.wf(),
    ensures
        stored_all(db, es, idss).wf(),
    decreases es.len(),
{
    if es.len() > 0 {
        lemma_stored_all_wf(db, es.drop_last(), idss.drop_last());
        lemma_stored_wf(stored_all(db, es.drop_last(), idss.drop_last()), es.last(), idss.last());
    }
}

/// An identifier of the store's making can stand inside a token.
pub proof fn lemma_minted_is_token_safe(id: Seq<char>)
    requires
        is_minted(id),
    ensures
        token_safe(id),
{
    let now = choose|now: u64| minted_at(id, now);
    let suffix = choose|suffix: Seq<char>| is_suffix(suffix) && id == #[trigger] record_id(now, suffix);
    lemma_decimal_digits(now as nat);
    let d = decimal(now as nat);
    assert forall|j: int| 0 <= j < id.len() implies !is_bracket(#[trigger] id[j]) by {
        if j < d.len() {
            assert(id[j] == d[j]);
        } else if j == d.len() {
            assert(id[j] == '-');
        } else {
            assert(id[j] == suffix[j - d.len() - 1]);
            assert(is_url_safe(suffix[j - d.len() - 1]));
        }
    }
}

/// The identifier of the inbox can stand inside a token.
pub proof fn lemma_inbox_is_token_safe()
    ensures
        token_safe(inbox_id()),
{
    reveal_strlit("0-inbox");
    let id = inbox_id();
    assert(id.len() == 7);
    assert forall|j: int| 0 <= j < id.len() implies !is_bracket(#[trigger] id[j]) by {
        if j == 0 {
        } else if j == 1 {
        } else if j == 2 {
        } else if j == 3 {
        } else if j == 4 {
        } else if j == 5 {
        } else {
        }
    }
}

/// Taking a stream away keeps the store's identifiers fit for tokens.
pub proof fn lemma_drop_stream_keeps(reg: Seq<StreamView>, id: Seq<char>)
    requires
        token_safe_ids(reg),
    ensures
        token_safe_ids(drop_stream(reg, id)),
{
    lemma_first_with_id(reg, id, 0);
    let k = first_with_id(reg, id, 0);
    if k < reg.len() {
        let after = reg.remove(k);
        assert forall|j: int| 0 <= j < after.len() implies token_safe((#[trigger] after[j]).id) by {
            let q = if j < k { j } else { j + 1 };
            assert(after[j] == reg[q]);
        }
    }
}

/// Two lists of streams with the same identifiers, place by place, find an
/// identifier at the same place.
pub proof fn lemma_same_ids_same_index(
    a: Seq<StreamView>,
    b: Seq<StreamView>,
    id: Seq<char>,
    i: int,
)
    requires
        a.len() == b.len(),
        forall|j: int| 0 <= j < a.len() ==> (#[trigger] a[j]).id == b[j].id,
    ensures
        first_with_id(a, id, i) == first_with_id(b, id, i),
    decreases a.len() - i,
{
    if 0 <= i < a.len() {
        assert(a[i].id == b[i].id);
        if a[i].id != id {
            lemma_same_ids_same_index(a, b, id, i + 1);
        }
    }
}

} // verus!
