//! Identifiers of entries and streams: the second at which the record was
//! made, a hyphen, and twenty-one characters drawn at random.

use crate::clock::unix_seconds;
use crate::text::{chars_of, decimal, decimal_of, push_range, string_of};
use vstd::prelude::*;

verus! {

/// A character of the alphabet from which the random part of an identifier
/// is drawn: letters, digits, `_` and `-`.
pub open spec fn is_url_safe(c: char) -> bool {
    c == '_' || c == '-' || ('0' <= c && c <= '9') || ('a' <= c && c <= 'z') || ('A' <= c && c
        <= 'Z')
}

/// `s` can be the random part of an identifier.
pub open spec fn is_suffix(s: Seq<char>) -> bool {
    s.len() == 21 && forall|i: int| 0 <= i < s.len() ==> is_url_safe(#[trigger] s[i])
}

/// The identifier made at second `now` with random part `suffix`.
pub open spec fn record_id(now: u64, suffix: Seq<char>) -> Seq<char> {
    decimal(now as nat) + seq!['-'] + suffix
}

/// `id` is an identifier that the store can make at second `now`.
pub open spec fn minted_at(id: Seq<char>, now: u64) -> bool {
    exists|suffix: Seq<char>| is_suffix(suffix) && id == #[trigger] record_id(now, suffix)
}

/// `id` has the form of the identifiers that the store makes.
pub open spec fn is_minted(id: Seq<char>) -> bool {
    exists|now: u64| minted_at(id, now)
}

/// An identifier of the store's making, for use where any one will do.
pub open spec fn spare_id() -> Seq<char> {
    record_id(0, Seq::new(21, |i: int| '_'))
}

/// The spare identifier has the form of the identifiers that the store
/// makes.
pub proof fn lemma_spare_id()
    ensures
        is_minted(spare_id()),
{
    let suffix = Seq::new(21, |i: int| '_');
    assert(is_suffix(suffix));
    assert(minted_at(spare_id(), 0));
}

/// Every identifier in `ids` has the form of those that the store makes.
pub open spec fn all_minted(ids: Seq<Seq<char>>) -> bool {
    forall|k: int| 0 <= k < ids.len() ==> is_minted(#[trigger] ids[k])
}

/// `nanoid::format` with the crate's default generator, its URL-safe
/// alphabet and its default length: 21 characters, each drawn from that
/// alphabet. Which characters is left open.
#[verifier::external_body]
fn random_suffix() -> (s: String)
    ensures
        is_suffix(s@),
{
    nanoid::format(nanoid::rngs::default, &nanoid::alphabet::SAFE, 21)
}

/// The identifier made of a time in seconds and a random part: the time in
/// decimal, a hyphen, the random part.
pub fn make_id(now: u64, suffix: &str) -> (id: String)
    ensures
        id@ == record_id(now, suffix@),
{
    let mut chars = decimal_of(now);
    chars.push('-');
    let tail = chars_of(suffix);
    push_range(&mut chars, &tail, 0, tail.len());
    assert(tail@.subrange(0, tail@.len() as int) == tail@);
    string_of(&chars)
}

/// A new identifier and the second at which it was made.
pub(crate) fn mint() -> (r: (String, u64))
    ensures
        minted_at(r.0@, r.1),
        is_minted(r.0@),
{
    let now = unix_seconds();
    let suffix = random_suffix();
    let id = make_id(now, suffix.as_str());
    assert(is_suffix(suffix@) && id@ == record_id(now, suffix@));
    assert(minted_at(id@, now));
    (id, now)
}

} // verus!
