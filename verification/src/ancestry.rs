//! Why the names gathered for an entry's streams are the names of their
//! ancestors.

use crate::models::{StreamView, ancestors_upto, parent_names};
use crate::state::ancestor_names;
use vstd::prelude::*;

verus! {

/// The ancestors' names found for `name[..k]` are the texts before each `/`
/// that stands before index `k`.
pub proof fn lemma_ancestors_upto(name: Seq<char>, k: int, p: Seq<char>)
    requires
        0 <= k <= name.len(),
    ensures
        ancestors_upto(name, k).contains(p) <==> p.len() < k && name[p.len() as int] == '/' && p
            == name.take(p.len() as int),
    decreases k,
{
    if k > 0 {
        lemma_ancestors_upto(name, k - 1, p);
        let before = ancestors_upto(name, k - 1);
        if name[k - 1] == '/' {
            let all = before.push(name.take(k - 1));
            assert(name.take(k - 1).len() == k - 1);
            if all.contains(p) {
                let i = choose|i: int| 0 <= i < all.len() && all[i] == p;
                if i < before.len() {
                    assert(before[i] == p);
                }
            }
            if p.len() < k && name[p.len() as int] == '/' && p == name.take(p.len() as int) {
                if p.len() == k - 1 {
                    assert(all[before.len() as int] == p);
                } else {
                    let i = choose|i: int| 0 <= i < before.len() && before[i] == p;
                    assert(all[i] == p);
                }
            }
        }
    }
}

/// A name is among the names gathered for `streams` if it is among the
/// parent names of one of them, and only then.
pub proof fn lemma_ancestor_names(streams: Seq<StreamView>, name: Seq<char>)
    ensures
        ancestor_names(streams).contains(name) <==> exists|j: int|
            0 <= j < streams.len() && parent_names((#[trigger] streams[j]).name).contains(name),
    decreases streams.len(),
{
    if streams.len() > 0 {
        let front = streams.drop_last();
        lemma_ancestor_names(front, name);
        let a = ancestor_names(front);
        let b = parent_names(streams.last().name);
        if (a + b).contains(name) {
            let i = choose|i: int| 0 <= i < (a + b).len() && (a + b)[i] == name;
            if i < a.len() {
                assert(a[i] == name);
                let j = choose|j: int|
                    0 <= j < front.len() && parent_names((#[trigger] front[j]).name).contains(name);
                assert(streams[j] == front[j]);
            } else {
                assert(b[i - a.len()] == name);
                assert(parent_names(streams[streams.len() - 1].name).contains(name));
            }
        }
        if exists|j: int|
            0 <= j < streams.len() && parent_names((#[trigger] streams[j]).name).contains(name) {
            let j = choose|j: int|
                0 <= j < streams.len() && parent_names((#[trigger] streams[j]).name).contains(name);
            if j < front.len() {
                assert(front[j] == streams[j]);
                let i = choose|i: int| 0 <= i < a.len() && a[i] == name;
                assert((a + b)[i] == name);
            } else {
                let i = choose|i: int| 0 <= i < b.len() && b[i] == name;
                assert((a + b)[a.len() + i] == name);
            }
        }
    }
}

} // verus!
