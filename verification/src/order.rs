//! Why a listing of streams is what it should be: the order of names is a
//! total order, and putting streams in by that order neither loses nor
//! repeats one.

use crate::models::{StreamView, text_before_from};
use crate::state::{distinct_stream_ids, in_listing_order, inserted, listed};
use vstd::prelude::*;

verus! {

/// From index `i` on, two texts that agree before `i` are equal, or one
/// comes before the other, and never both.
pub proof fn lemma_text_order_total(a: Seq<char>, b: Seq<char>, i: int)
    requires
        0 <= i <= a.len(),
        i <= b.len(),
        a.take(i) == b.take(i),
    ensures
        a == b || text_before_from(a, b, i) || text_before_from(b, a, i),
        !(text_before_from(a, b, i) && text_before_from(b, a, i)),
        a == b ==> !text_before_from(a, b, i),
    decreases a.len() - i,
{
    if i >= a.len() || i >= b.len() {
        if a.len() == b.len() {
            assert(a.take(i) == a);
            assert(b.take(i) == b);
        }
    } else if a[i] == b[i] {
        assert(a.take(i + 1) =~= a.take(i).push(a[i]));
        assert(b.take(i + 1) =~= b.take(i).push(b[i]));
        lemma_text_order_total(a, b, i + 1);
    }
}

/// From index `i` on, the order of texts is transitive among texts that
/// agree before `i`.
pub proof fn lemma_text_order_transitive(a: Seq<char>, b: Seq<char>, c: Seq<char>, i: int)
    requires
        0 <= i,
        text_before_from(a, b, i),
        text_before_from(b, c, i),
    ensures
        text_before_from(a, c, i),
    decreases c.len() - i,
{
    if i < a.len() && i < b.len() && i < c.len() {
        if a[i] == b[i] && b[i] == c[i] {
            lemma_text_order_transitive(a, b, c, i + 1);
        }
    }
}

/// If `a` is not listed after `b`, nor `b` after `c`, then `a` is not listed
/// after `c`.
pub proof fn lemma_not_after_transitive(a: StreamView, b: StreamView, c: StreamView)
    requires
        !b.sorts_before(a),
        !c.sorts_before(b),
    ensures
        !c.sorts_before(a),
{
    if c.sorts_before(a) {
        assert(a.name.take(0) =~= b.name.take(0));
        assert(b.name.take(0) =~= c.name.take(0));
        lemma_text_order_total(a.name, b.name, 0);
        lemma_text_order_total(b.name, c.name, 0);
        if !a.is_inbox() && !b.is_inbox() && !c.is_inbox() {
            if a.name == b.name {
            } else if b.name == c.name {
            } else {
                lemma_text_order_transitive(a.name, b.name, c.name, 0);
                assert(a.name.take(0) =~= c.name.take(0));
                lemma_text_order_total(a.name, c.name, 0);
            }
        }
    }
}

/// Putting a stream into a list makes the list one longer.
pub proof fn lemma_inserted_len(sorted: Seq<StreamView>, x: StreamView)
    ensures
        inserted(sorted, x).len() == sorted.len() + 1,
    decreases sorted.len(),
{
    if sorted.len() > 0 && x.sorts_before(sorted.last()) {
        lemma_inserted_len(sorted.drop_last(), x);
    }
}

/// A listing is as long as the list it was made of.
pub proof fn lemma_listed_len(streams: Seq<StreamView>)
    ensures
        listed(streams).len() == streams.len(),
    decreases streams.len(),
{
    if streams.len() > 0 {
        lemma_listed_len(streams.drop_last());
        lemma_inserted_len(listed(streams.drop_last()), streams.last());
    }
}

/// Putting a stream into a list keeps every stream that was there and adds
/// that one.
pub proof fn lemma_inserted_same_streams(sorted: Seq<StreamView>, x: StreamView)
    ensures
        inserted(sorted, x).to_multiset() == sorted.to_multiset().insert(x),
    decreases sorted.len(),
{
    broadcast use vstd::seq_lib::group_to_multiset_ensures;

    if sorted.len() > 0 && x.sorts_before(sorted.last()) {
        lemma_inserted_same_streams(sorted.drop_last(), x);
        assert(sorted.drop_last().push(sorted.last()) =~= sorted);
        assert(inserted(sorted, x).to_multiset() =~= sorted.to_multiset().insert(x));
    }
}

/// Listing streams drops none, adds none and repeats none.
pub proof fn lemma_listed_same_streams(streams: Seq<StreamView>)
    ensures
        listed(streams).to_multiset() == streams.to_multiset(),
    decreases streams.len(),
{
    broadcast use vstd::seq_lib::group_to_multiset_ensures;

    if streams.len() > 0 {
        lemma_listed_same_streams(streams.drop_last());
        lemma_inserted_same_streams(listed(streams.drop_last()), streams.last());
        assert(streams.drop_last().push(streams.last()) =~= streams);
    }
}

/// Every stream of a list into which `x` was put is `x` or was in the list.
pub proof fn lemma_inserted_members(sorted: Seq<StreamView>, x: StreamView)
    ensures
        forall|i: int|
            0 <= i < inserted(sorted, x).len() ==> inserted(sorted, x)[i] == x || exists|j: int|
                0 <= j < sorted.len() && sorted[j] == #[trigger] inserted(sorted, x)[i],
    decreases sorted.len(),
{
    let out = inserted(sorted, x);
    if sorted.len() > 0 && x.sorts_before(sorted.last()) {
        let front = sorted.drop_last();
        lemma_inserted_members(front, x);
        let mid = inserted(front, x);
        assert forall|i: int| 0 <= i < out.len() implies out[i] == x || exists|j: int|
            0 <= j < sorted.len() && sorted[j] == #[trigger] out[i] by {
            if i < mid.len() {
                assert(out[i] == mid[i]);
                if mid[i] != x {
                    let k = choose|k: int| 0 <= k < front.len() && front[k] == mid[i];
                    assert(sorted[k] == out[i]);
                }
            } else {
                assert(sorted[sorted.len() - 1] == out[i]);
            }
        }
    } else {
        assert forall|i: int| 0 <= i < out.len() implies out[i] == x || exists|j: int|
            0 <= j < sorted.len() && sorted[j] == #[trigger] out[i] by {
            if i < sorted.len() {
                assert(sorted[i] == out[i]);
            }
        }
    }
}

/// Putting a stream into a list that is in listing order leaves the list in
/// listing order.
pub proof fn lemma_inserted_in_order(sorted: Seq<StreamView>, x: StreamView)
    requires
        in_listing_order(sorted),
    ensures
        in_listing_order(inserted(sorted, x)),
    decreases sorted.len(),
{
    let out = inserted(sorted, x);
    if sorted.len() > 0 && x.sorts_before(sorted.last()) {
        let front = sorted.drop_last();
        let last = sorted.last();
        assert forall|i: int, j: int| 0 <= i < j < front.len() implies !(#[trigger] front[j]).sorts_before(
            #[trigger] front[i],
        ) by {
            assert(front[i] == sorted[i] && front[j] == sorted[j]);
        }
        lemma_inserted_in_order(front, x);
        lemma_inserted_members(front, x);
        lemma_inserted_len(front, x);
        let mid = inserted(front, x);
        assert forall|i: int, j: int| 0 <= i < j < out.len() implies !(#[trigger] out[j]).sorts_before(
            #[trigger] out[i],
        ) by {
            if j < mid.len() {
                assert(out[i] == mid[i] && out[j] == mid[j]);
            } else {
                assert(out[j] == last);
                assert(out[i] == mid[i]);
                if mid[i] == x {
                    assert(x.name.take(0) =~= last.name.take(0));
                    lemma_text_order_total(x.name, last.name, 0);
                } else {
                    let k = choose|k: int| 0 <= k < front.len() && front[k] == mid[i];
                    assert(front[k] == sorted[k]);
                    assert(!sorted[sorted.len() - 1].sorts_before(sorted[k]));
                }
            }
        }
    } else {
        assert forall|i: int, j: int| 0 <= i < j < out.len() implies !(#[trigger] out[j]).sorts_before(
            #[trigger] out[i],
        ) by {
            if j < sorted.len() {
                assert(out[i] == sorted[i] && out[j] == sorted[j]);
            } else {
                assert(out[j] == x);
                assert(out[i] == sorted[i]);
                assert(!x.sorts_before(sorted.last()));
                if i < sorted.len() - 1 {
                    assert(!sorted[sorted.len() - 1].sorts_before(sorted[i]));
                    lemma_not_after_transitive(sorted[i], sorted.last(), x);
                }
            }
        }
    }
}

/// A listing is in listing order: the inbox stands before every other
/// stream, and the others stand by name, letter case counting.
pub proof fn lemma_listed_in_order(streams: Seq<StreamView>)
    ensures
        in_listing_order(listed(streams)),
    decreases streams.len(),
{
    if streams.len() > 0 {
        lemma_listed_in_order(streams.drop_last());
        lemma_inserted_in_order(listed(streams.drop_last()), streams.last());
    }
}

/// What passes a filter is in the list and meets the test, and the other way
/// round.
pub proof fn lemma_filter_members<A>(s: Seq<A>, pred: spec_fn(A) -> bool, x: A)
    ensures
        s.filter(pred).contains(x) <==> s.contains(x) && pred(x),
    decreases s.len(),
{
    reveal(Seq::filter);
    if s.len() > 0 {
        let front = s.drop_last();
        lemma_filter_members(front, pred, x);
        let kept = front.filter(pred);
        if s.contains(x) && pred(x) {
            let i = choose|i: int| 0 <= i < s.len() && s[i] == x;
            if i < s.len() - 1 {
                assert(front[i] == x);
                let j = choose|j: int| 0 <= j < kept.len() && kept[j] == x;
                assert(s.filter(pred)[j] == x);
            } else {
                assert(s.filter(pred) == kept.push(s.last()));
                assert(s.filter(pred)[kept.len() as int] == x);
            }
        }
        if s.filter(pred).contains(x) {
            let j = choose|j: int| 0 <= j < s.filter(pred).len() && s.filter(pred)[j] == x;
            if j < kept.len() {
                assert(kept[j] == x);
                let i = choose|i: int| 0 <= i < front.len() && front[i] == x;
                assert(s[i] == x);
            } else {
                assert(s[s.len() - 1] == x);
            }
        }
    }
}

/// A listing holds the streams it was made of, and no others.
pub proof fn lemma_listed_members(streams: Seq<StreamView>, x: StreamView)
    ensures
        listed(streams).contains(x) <==> streams.contains(x),
{
    broadcast use vstd::seq_lib::group_to_multiset_ensures;

    lemma_listed_same_streams(streams);
    assert(listed(streams).contains(x) <==> listed(streams).to_multiset().count(x) > 0);
    assert(streams.contains(x) <==> streams.to_multiset().count(x) > 0);
}

/// Streams picked from a list without repeated identifiers have no
/// repeated identifiers.
pub proof fn lemma_filter_distinct(reg: Seq<StreamView>, pred: spec_fn(StreamView) -> bool)
    requires
        distinct_stream_ids(reg),
    ensures
        distinct_stream_ids(reg.filter(pred)),
    decreases reg.len(),
{
    reveal(Seq::filter);
    if reg.len() > 0 {
        let front = reg.drop_last();
        assert forall|i: int, j: int| 0 <= i < j < front.len() implies (#[trigger] front[i]).id != (
        #[trigger] front[j]).id by {
            assert(front[i] == reg[i] && front[j] == reg[j]);
        }
        lemma_filter_distinct(front, pred);
        let kept = front.filter(pred);
        let all = reg.filter(pred);
        assert forall|i: int, j: int| 0 <= i < j < all.len() implies (#[trigger] all[i]).id != (
        #[trigger] all[j]).id by {
            if j < kept.len() {
                assert(all[i] == kept[i] && all[j] == kept[j]);
            } else {
                assert(all[j] == reg[reg.len() - 1]);
                assert(all[i] == kept[i]);
                assert(kept.contains(kept[i]));
                lemma_filter_members(front, pred, kept[i]);
                let m = choose|m: int| 0 <= m < front.len() && front[m] == kept[i];
                assert(front[m] == reg[m]);
            }
        }
    }
}

/// Putting a stream with a new identifier into a list keeps identifiers
/// distinct.
pub proof fn lemma_inserted_distinct(sorted: Seq<StreamView>, x: StreamView)
    requires
        distinct_stream_ids(sorted),
        forall|i: int| 0 <= i < sorted.len() ==> (#[trigger] sorted[i]).id != x.id,
    ensures
        distinct_stream_ids(inserted(sorted, x)),
    decreases sorted.len(),
{
    if sorted.len() > 0 && x.sorts_before(sorted.last()) {
        let front = sorted.drop_last();
        assert forall|i: int, j: int| 0 <= i < j < front.len() implies (#[trigger] front[i]).id != (
        #[trigger] front[j]).id by {
            assert(front[i] == sorted[i] && front[j] == sorted[j]);
        }
        assert forall|i: int| 0 <= i < front.len() implies (#[trigger] front[i]).id != x.id by {
            assert(front[i] == sorted[i]);
        }
        lemma_inserted_distinct(front, x);
        lemma_inserted_members(front, x);
        let mid = inserted(front, x);
        let out = inserted(sorted, x);
        assert forall|i: int, j: int| 0 <= i < j < out.len() implies (#[trigger] out[i]).id != (
        #[trigger] out[j]).id by {
            if j < mid.len() {
                assert(out[i] == mid[i] && out[j] == mid[j]);
            } else {
                assert(out[j] == sorted[sorted.len() - 1]);
                assert(out[i] == mid[i]);
                if mid[i] != x {
                    let k = choose|k: int| 0 <= k < front.len() && front[k] == mid[i];
                    assert(front[k] == sorted[k]);
                }
            }
        }
    } else {
        let out = sorted.push(x);
        assert forall|i: int, j: int| 0 <= i < j < out.len() implies (#[trigger] out[i]).id != (
        #[trigger] out[j]).id by {
            if j < sorted.len() {
                assert(out[i] == sorted[i] && out[j] == sorted[j]);
            } else {
                assert(out[i] == sorted[i]);
            }
        }
    }
}

/// A listing of streams without repeated identifiers has no repeated
/// identifiers.
pub proof fn lemma_listed_distinct(streams: Seq<StreamView>)
    requires
        distinct_stream_ids(streams),
    ensures
        distinct_stream_ids(listed(streams)),
    decreases streams.len(),
{
    if streams.len() > 0 {
        let front = streams.drop_last();
        assert forall|i: int, j: int| 0 <= i < j < front.len() implies (#[trigger] front[i]).id != (
        #[trigger] front[j]).id by {
            assert(front[i] == streams[i] && front[j] == streams[j]);
        }
        lemma_listed_distinct(front);
        let sorted = listed(front);
        assert forall|i: int| 0 <= i < sorted.len() implies (#[trigger] sorted[i]).id
            != streams.last().id by {
            assert(sorted.contains(sorted[i]));
            lemma_listed_members(front, sorted[i]);
            let m = choose|m: int| 0 <= m < front.len() && front[m] == sorted[i];
            assert(front[m] == streams[m]);
        }
        lemma_inserted_distinct(sorted, streams.last());
    }
}

/// `inserted` puts `x` at the index behind which every stream is listed
/// after `x`, and before which the nearest is not.
pub proof fn lemma_inserted_at(sorted: Seq<StreamView>, x: StreamView, p: int)
    requires
        0 <= p <= sorted.len(),
        forall|j: int| p <= j < sorted.len() ==> x.sorts_before(#[trigger] sorted[j]),
        p > 0 ==> !x.sorts_before(sorted[p - 1]),
    ensures
        inserted(sorted, x) == sorted.insert(p, x),
    decreases sorted.len(),
{
    if sorted.len() > p {
        lemma_inserted_at(sorted.drop_last(), x, p);
        assert(sorted.drop_last().insert(p, x).push(sorted.last()) =~= sorted.insert(p, x));
    } else {
        assert(sorted.push(x) =~= sorted.insert(p, x));
    }
}

/// Filtering the first `k + 1` items of `s` is filtering the first `k` and
/// then deciding on `s[k]`.
pub proof fn lemma_filter_step<A>(s: Seq<A>, k: int, pred: spec_fn(A) -> bool)
    requires
        0 <= k < s.len(),
    ensures
        s.take(k + 1).filter(pred) == if pred(s[k]) {
            s.take(k).filter(pred).push(s[k])
        } else {
            s.take(k).filter(pred)
        },
        s.take(0).filter(pred) == Seq::<A>::empty(),
{
    reveal(Seq::filter);
    assert(s.take(k + 1) =~= s.take(k).push(s[k]));
    s.take(k).lemma_filter_push(s[k], pred);
    assert(s.take(0) =~= Seq::<A>::empty());
}

/// Filtering nothing leaves nothing.
pub proof fn lemma_filter_none<A>(pred: spec_fn(A) -> bool)
    ensures
        Seq::<A>::empty().filter(pred) == Seq::<A>::empty(),
{
    reveal(Seq::filter);
}

} // verus!
