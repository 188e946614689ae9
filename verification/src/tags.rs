//! How free text refers to streams.
//!
//! Users write `{Name}`. The store keeps `_stream_id_[<id>]__` in its place,
//! so that a stream can be renamed without touching any entry. This module
//! defines both notations, finds them in a text, and converts one into the
//! other against a list of streams.

use crate::models::{Stream, StreamView, stream_views, texts};
use crate::text::{chars_of, matches_at, push_range, starts_with_at, string_of_range, trim, trimmed};
use vstd::prelude::*;

verus! {

/// `{` or `}`: the characters that cannot stand inside a name reference.
pub open spec fn is_brace(c: char) -> bool {
    c == '{' || c == '}'
}

/// A brace or a square bracket: the characters that cannot stand inside the
/// identifier of a token.
pub open spec fn is_bracket(c: char) -> bool {
    c == '{' || c == '}' || c == '[' || c == ']'
}

/// The text that opens a token.
pub open spec fn token_prefix() -> Seq<char> {
    seq!['_', 's', 't', 'r', 'e', 'a', 'm', '_', 'i', 'd', '_', '[']
}

/// The text that closes a token.
pub open spec fn token_suffix() -> Seq<char> {
    seq![']', '_', '_']
}

/// The token that stands for the stream with identifier `id`.
#[verifier::opaque]
pub open spec fn token_for(id: Seq<char>) -> Seq<char> {
    token_prefix() + id + token_suffix()
}

/// The reference to a stream called `name`, as users write it.
pub open spec fn braced(name: Seq<char>) -> Seq<char> {
    seq!['{'] + name + seq!['}']
}

/// The first index at or after `i` that holds a brace, or the length of `s`.
pub open spec fn name_run_end(s: Seq<char>, i: int) -> int
    decreases s.len() - i,
{
    if 0 <= i < s.len() && !is_brace(s[i]) {
        name_run_end(s, i + 1)
    } else {
        i
    }
}

/// The first index at or after `i` that holds a bracket, or the length of `s`.
pub open spec fn id_run_end(s: Seq<char>, i: int) -> int
    decreases s.len() - i,
{
    if 0 <= i < s.len() && !is_bracket(s[i]) {
        id_run_end(s, i + 1)
    } else {
        i
    }
}

/// Where the name reference that starts at `i` ends, if one starts there: a
/// `{`, one or more characters that are not braces, and a `}`.
pub open spec fn name_span_end(s: Seq<char>, i: int) -> Option<int> {
    let e = name_run_end(s, i + 1);
    if 0 <= i < s.len() && s[i] == '{' && i + 1 < e < s.len() && s[e] == '}' {
        Some(e + 1)
    } else {
        None
    }
}

/// Where the token that starts at `i` ends, if one starts there: the prefix,
/// one or more characters that are not brackets, and the suffix.
pub open spec fn token_span_end(s: Seq<char>, i: int) -> Option<int> {
    let e = id_run_end(s, i + 12);
    if matches_at(s, i, token_prefix()) && i + 12 < e && matches_at(s, e, token_suffix()) {
        Some(e + 3)
    } else {
        None
    }
}

/// At `i` stands the opening of a token, one or more characters that are
/// not brackets, and `]_`: a token, or all of one but its last character.
pub open spec fn near_token_at(s: Seq<char>, i: int) -> bool {
    let e = id_run_end(s, i + 12);
    matches_at(s, i, token_prefix()) && i + 12 < e && matches_at(s, e, seq![']', '_'])
}

/// Nowhere in `s` stands a token or all of one but its last character.
pub open spec fn no_near_token(s: Seq<char>) -> bool {
    forall|i: int| 0 <= i < s.len() ==> !near_token_at(s, i)
}

/// A run of characters that are not braces lies within the text, holds no
/// brace, and ends at a brace or at the end of the text.
pub proof fn lemma_name_run_end(s: Seq<char>, i: int)
    requires
        0 <= i <= s.len(),
    ensures
        i <= name_run_end(s, i) <= s.len(),
        forall|j: int| i <= j < name_run_end(s, i) ==> !is_brace(#[trigger] s[j]),
        name_run_end(s, i) < s.len() ==> is_brace(s[name_run_end(s, i)]),
    decreases s.len() - i,
{
    if i < s.len() && !is_brace(s[i]) {
        lemma_name_run_end(s, i + 1);
    }
}

/// A run of characters that are not brackets lies within the text, holds
/// no bracket, and ends at a bracket or at the end of the text.
pub proof fn lemma_id_run_end(s: Seq<char>, i: int)
    requires
        0 <= i <= s.len(),
    ensures
        i <= id_run_end(s, i) <= s.len(),
        forall|j: int| i <= j < id_run_end(s, i) ==> !is_bracket(#[trigger] s[j]),
        id_run_end(s, i) < s.len() ==> is_bracket(s[id_run_end(s, i)]),
    decreases s.len() - i,
{
    if i < s.len() && !is_bracket(s[i]) {
        lemma_id_run_end(s, i + 1);
    }
}

/// The names referred to in `s[i..]`, left to right, repeated as often as
/// they are written. References do not overlap: the search goes on behind
/// each one found.
pub open spec fn names_from(s: Seq<char>, i: int) -> Seq<Seq<char>>
    decreases s.len() - i,
{
    if i < 0 || i >= s.len() {
        Seq::empty()
    } else {
        match name_span_end(s, i) {
            Some(e) if e > i => seq![s.subrange(i + 1, e - 1)] + names_from(s, e),
            _ => names_from(s, i + 1),
        }
    }
}

/// The names referred to in `s`.
pub open spec fn names_in(s: Seq<char>) -> Seq<Seq<char>> {
    names_from(s, 0)
}

/// The identifiers of the tokens in `s[i..]`, left to right.
pub open spec fn ids_from(s: Seq<char>, i: int) -> Seq<Seq<char>>
    decreases s.len() - i,
{
    if i < 0 || i >= s.len() {
        Seq::empty()
    } else {
        match token_span_end(s, i) {
            Some(e) if e > i => seq![s.subrange(i + 12, e - 3)] + ids_from(s, e),
            _ => ids_from(s, i + 1),
        }
    }
}

/// The identifiers of the tokens in `s`.
pub open spec fn ids_in(s: Seq<char>) -> Seq<Seq<char>> {
    ids_from(s, 0)
}

/// `s[i..]` without its name references.
pub open spec fn unreferenced_from(s: Seq<char>, i: int) -> Seq<char>
    decreases s.len() - i,
{
    if i < 0 || i >= s.len() {
        Seq::empty()
    } else {
        match name_span_end(s, i) {
            Some(e) if e > i => unreferenced_from(s, e),
            _ => seq![s[i]] + unreferenced_from(s, i + 1),
        }
    }
}

/// The index of the first stream at or after `i` that is called `name`, or
/// the number of streams.
pub open spec fn first_named(reg: Seq<StreamView>, name: Seq<char>, i: int) -> int
    decreases reg.len() - i,
{
    if i < 0 || i >= reg.len() {
        reg.len() as int
    } else if reg[i].name == name {
        i
    } else {
        first_named(reg, name, i + 1)
    }
}

/// The index of the first stream at or after `i` whose identifier is `id`,
/// or the number of streams.
pub open spec fn first_with_id(reg: Seq<StreamView>, id: Seq<char>, i: int) -> int
    decreases reg.len() - i,
{
    if i < 0 || i >= reg.len() {
        reg.len() as int
    } else if reg[i].id == id {
        i
    } else {
        first_with_id(reg, id, i + 1)
    }
}

/// The first stream of a name has that name, and no stream before it has.
pub proof fn lemma_first_named(reg: Seq<StreamView>, name: Seq<char>, i: int)
    requires
        0 <= i <= reg.len(),
    ensures
        i <= first_named(reg, name, i) <= reg.len(),
        first_named(reg, name, i) < reg.len() ==> reg[first_named(reg, name, i)].name == name,
        forall|j: int| i <= j < first_named(reg, name, i) ==> (#[trigger] reg[j]).name != name,
    decreases reg.len() - i,
{
    if i < reg.len() && reg[i].name != name {
        lemma_first_named(reg, name, i + 1);
    }
}

/// The first stream with an identifier has that identifier, and no stream
/// before it has.
pub proof fn lemma_first_with_id(reg: Seq<StreamView>, id: Seq<char>, i: int)
    requires
        0 <= i <= reg.len(),
    ensures
        i <= first_with_id(reg, id, i) <= reg.len(),
        first_with_id(reg, id, i) < reg.len() ==> reg[first_with_id(reg, id, i)].id == id,
        forall|j: int| i <= j < first_with_id(reg, id, i) ==> (#[trigger] reg[j]).id != id,
    decreases reg.len() - i,
{
    if i < reg.len() && reg[i].id != id {
        lemma_first_with_id(reg, id, i + 1);
    }
}

/// `s[i..]` in stored form: each reference to a name that `reg` knows is
/// replaced by the token of the first stream of that name; a reference to an
/// unknown name stays as written.
pub open spec fn encoded_from(reg: Seq<StreamView>, s: Seq<char>, i: int) -> Seq<char>
    decreases s.len() - i,
{
    if i < 0 || i >= s.len() {
        Seq::empty()
    } else {
        match name_span_end(s, i) {
            Some(e) if e > i => {
                let k = first_named(reg, s.subrange(i + 1, e - 1), 0);
                let piece = if 0 <= k < reg.len() {
                    token_for(reg[k].id)
                } else {
                    s.subrange(i, e)
                };
                piece + encoded_from(reg, s, e)
            },
            _ => seq![s[i]] + encoded_from(reg, s, i + 1),
        }
    }
}

/// `s` in stored form.
pub open spec fn encoded(reg: Seq<StreamView>, s: Seq<char>) -> Seq<char> {
    encoded_from(reg, s, 0)
}

/// `s[i..]` in display form: each token whose identifier `reg` knows is
/// replaced by a reference to that stream's name; a token with an unknown
/// identifier stays as it is.
pub open spec fn decoded_from(reg: Seq<StreamView>, s: Seq<char>, i: int) -> Seq<char>
    decreases s.len() - i,
{
    if i < 0 || i >= s.len() {
        Seq::empty()
    } else {
        match token_span_end(s, i) {
            Some(e) if e > i => {
                let k = first_with_id(reg, s.subrange(i + 12, e - 3), 0);
                let piece = if 0 <= k < reg.len() {
                    braced(reg[k].name)
                } else {
                    s.subrange(i, e)
                };
                piece + decoded_from(reg, s, e)
            },
            _ => seq![s[i]] + decoded_from(reg, s, i + 1),
        }
    }
}

/// `s` in display form.
pub open spec fn decoded(reg: Seq<StreamView>, s: Seq<char>) -> Seq<char> {
    decoded_from(reg, s, 0)
}

/// The characters that open a token.
pub fn token_prefix_chars() -> (r: Vec<char>)
    ensures
        r@ == token_prefix(),
{
    let mut r: Vec<char> = Vec::new();
    r.push('_');
    r.push('s');
    r.push('t');
    r.push('r');
    r.push('e');
    r.push('a');
    r.push('m');
    r.push('_');
    r.push('i');
    r.push('d');
    r.push('_');
    r.push('[');
    assert(r@ =~= token_prefix());
    r
}

/// The characters that close a token.
pub fn token_suffix_chars() -> (r: Vec<char>)
    ensures
        r@ == token_suffix(),
{
    let mut r: Vec<char> = Vec::new();
    r.push(']');
    r.push('_');
    r.push('_');
    assert(r@ =~= token_suffix());
    r
}

/// The token that stands for the stream with identifier `id`.
pub fn token_chars(id: &Vec<char>) -> (r: Vec<char>)
    ensures
        r@ == token_for(id@),
{
    reveal(token_for);
    let mut r = token_prefix_chars();
    push_range(&mut r, id, 0, id.len());
    let suffix = token_suffix_chars();
    push_range(&mut r, &suffix, 0, suffix.len());
    assert(id@.subrange(0, id@.len() as int) == id@);
    assert(suffix@.subrange(0, suffix@.len() as int) == suffix@);
    r
}

/// Looks for a name reference that starts at `i` and returns its end.
pub fn name_span_at(text: &Vec<char>, i: usize) -> (r: Option<usize>)
    ensures
        r matches Some(e) ==> name_span_end(text@, i as int) == Some(e as int) && i + 2 < e
            <= text.len(),
        r is None ==> name_span_end(text@, i as int) is None,
{
    if i >= text.len() || text[i] != '{' {
        return None;
    }
    let mut e: usize = i + 1;
    while e < text.len() && text[e] != '{' && text[e] != '}'
        invariant
            i < e <= text.len(),
            name_run_end(text@, e as int) == name_run_end(text@, i + 1),
        decreases text.len() - e,
    {
        e += 1;
    }
    if e > i + 1 && e < text.len() && text[e] == '}' {
        Some(e + 1)
    } else {
        None
    }
}

/// Looks for a token that starts at `i` and returns its end.
pub fn token_span_at(text: &Vec<char>, i: usize) -> (r: Option<usize>)
    ensures
        r matches Some(e) ==> token_span_end(text@, i as int) == Some(e as int) && i + 15 < e
            <= text.len(),
        r is None ==> token_span_end(text@, i as int) is None,
{
    if i >= text.len() || text[i] != '_' {
        assert(!matches_at(text@, i as int, token_prefix())) by {
            if i < text.len() && i + 12 <= text.len() {
                assert(text@.subrange(i as int, i + 12)[0] == text@[i as int]);
            }
        }
        return None;
    }
    let prefix = token_prefix_chars();
    if !starts_with_at(text, i, &prefix) {
        return None;
    }
    let mut e: usize = i + 12;
    while e < text.len() && text[e] != '{' && text[e] != '}' && text[e] != '[' && text[e] != ']'
        invariant
            i + 12 <= e <= text.len(),
            id_run_end(text@, e as int) == id_run_end(text@, i + 12),
        decreases text.len() - e,
    {
        e += 1;
    }
    let suffix = token_suffix_chars();
    if e > i + 12 && starts_with_at(text, e, &suffix) {
        Some(e + 3)
    } else {
        None
    }
}

/// The names referred to in `text`, left to right, duplicates kept.
pub fn names_of(text: &Vec<char>) -> (r: Vec<String>)
    ensures
        texts(r@) == names_in(text@),
{
    let mut names: Vec<String> = Vec::new();
    let mut i: usize = 0;
    while i < text.len()
        invariant
            i <= text.len(),
            texts(names@) + names_from(text@, i as int) == names_in(text@),
        decreases text.len() - i,
    {
        let ghost before = names@;
        match name_span_at(text, i) {
            Some(e) => {
                names.push(string_of_range(text, i + 1, e - 1));
                assert(texts(names@) =~= texts(before) + seq![
                    text@.subrange(i + 1, e - 1),
                ]);
                assert(texts(names@) + names_from(text@, e as int) =~= texts(before) + (seq![
                    text@.subrange(i + 1, e - 1),
                ] + names_from(text@, e as int)));
                i = e;
            },
            None => {
                i += 1;
            },
        }
    }
    assert(texts(names@) + Seq::<Seq<char>>::empty() =~= texts(names@));
    names
}

/// The identifiers of the tokens in `text`, left to right, duplicates kept.
pub fn ids_of(text: &Vec<char>) -> (r: Vec<String>)
    ensures
        texts(r@) == ids_in(text@),
{
    let mut ids: Vec<String> = Vec::new();
    let mut i: usize = 0;
    while i < text.len()
        invariant
            i <= text.len(),
            texts(ids@) + ids_from(text@, i as int) == ids_in(text@),
        decreases text.len() - i,
    {
        let ghost before = ids@;
        match token_span_at(text, i) {
            Some(e) => {
                ids.push(string_of_range(text, i + 12, e - 3));
                assert(texts(ids@) =~= texts(before) + seq![text@.subrange(i + 12, e - 3)]);
                assert(texts(ids@) + ids_from(text@, e as int) =~= texts(before) + (seq![
                    text@.subrange(i + 12, e - 3),
                ] + ids_from(text@, e as int)));
                i = e;
            },
            None => {
                i += 1;
            },
        }
    }
    assert(texts(ids@) + Seq::<Seq<char>>::empty() =~= texts(ids@));
    ids
}

/// `text` without its name references.
pub fn unreferenced(text: &Vec<char>) -> (r: Vec<char>)
    ensures
        r@ == unreferenced_from(text@, 0),
{
    let mut out: Vec<char> = Vec::new();
    let mut i: usize = 0;
    while i < text.len()
        invariant
            i <= text.len(),
            out@ + unreferenced_from(text@, i as int) == unreferenced_from(text@, 0),
        decreases text.len() - i,
    {
        let ghost before = out@;
        match name_span_at(text, i) {
            Some(e) => {
                i = e;
            },
            None => {
                out.push(text[i]);
                assert(out@ + unreferenced_from(text@, i + 1) =~= before + (seq![text@[i as int]]
                    + unreferenced_from(text@, i + 1)));
                i += 1;
            },
        }
    }
    assert(out@ + Seq::<char>::empty() =~= out@);
    out
}

/// The position of the first stream called `name`, if there is one.
pub fn position_by_name(streams: &Vec<Stream>, name: &String) -> (r: Option<usize>)
    ensures
        r matches Some(k) ==> k < streams.len() && first_named(stream_views(streams@), name@, 0)
            == k,
        r is None ==> first_named(stream_views(streams@), name@, 0) == streams.len(),
{
    let mut k: usize = 0;
    while k < streams.len()
        invariant
            k <= streams.len(),
            first_named(stream_views(streams@), name@, k as int) == first_named(
                stream_views(streams@),
                name@,
                0,
            ),
        decreases streams.len() - k,
    {
        if streams[k].name == *name {
            return Some(k);
        }
        k += 1;
    }
    None
}

/// The position of the first stream whose identifier is `id`, if there is
/// one.
pub fn position_by_id(streams: &Vec<Stream>, id: &String) -> (r: Option<usize>)
    ensures
        r matches Some(k) ==> k < streams.len() && first_with_id(stream_views(streams@), id@, 0)
            == k,
        r is None ==> first_with_id(stream_views(streams@), id@, 0) == streams.len(),
{
    let mut k: usize = 0;
    while k < streams.len()
        invariant
            k <= streams.len(),
            first_with_id(stream_views(streams@), id@, k as int) == first_with_id(
                stream_views(streams@),
                id@,
                0,
            ),
        decreases streams.len() - k,
    {
        if streams[k].id == *id {
            return Some(k);
        }
        k += 1;
    }
    None
}

/// Writes `text` in stored form against the streams given.
pub fn encode(streams: &Vec<Stream>, text: &Vec<char>) -> (r: Vec<char>)
    ensures
        r@ == encoded(stream_views(streams@), text@),
{
    let ghost reg = stream_views(streams@);
    let mut out: Vec<char> = Vec::new();
    let mut i: usize = 0;
    while i < text.len()
        invariant
            i <= text.len(),
            reg == stream_views(streams@),
            out@ + encoded_from(reg, text@, i as int) == encoded(reg, text@),
        decreases text.len() - i,
    {
        let ghost before = out@;
        match name_span_at(text, i) {
            Some(e) => {
                let name = string_of_range(text, i + 1, e - 1);
                let ghost piece;
                match position_by_name(streams, &name) {
                    Some(k) => {
                        let id = chars_of(streams[k].id.as_str());
                        let token = token_chars(&id);
                        push_range(&mut out, &token, 0, token.len());
                        assert(token@.subrange(0, token@.len() as int) == token@);
                        proof {
                            piece = token_for(reg[k as int].id);
                        }
                    },
                    None => {
                        push_range(&mut out, text, i, e);
                        proof {
                            piece = text@.subrange(i as int, e as int);
                        }
                    },
                }
                assert(out@ + encoded_from(reg, text@, e as int) =~= before + (piece
                    + encoded_from(reg, text@, e as int)));
                i = e;
            },
            None => {
                out.push(text[i]);
                assert(out@ + encoded_from(reg, text@, i + 1) =~= before + (seq![text@[i as int]]
                    + encoded_from(reg, text@, i + 1)));
                i += 1;
            },
        }
    }
    assert(out@ + Seq::<char>::empty() =~= out@);
    out
}

/// Writes `text` in display form against the streams given.
pub fn decode(streams: &Vec<Stream>, text: &Vec<char>) -> (r: Vec<char>)
    ensures
        r@ == decoded(stream_views(streams@), text@),
{
    let ghost reg = stream_views(streams@);
    let mut out: Vec<char> = Vec::new();
    let mut i: usize = 0;
    while i < text.len()
        invariant
            i <= text.len(),
            reg == stream_views(streams@),
            out@ + decoded_from(reg, text@, i as int) == decoded(reg, text@),
        decreases text.len() - i,
    {
        let ghost before = out@;
        match token_span_at(text, i) {
            Some(e) => {
                let id = string_of_range(text, i + 12, e - 3);
                let ghost piece;
                match position_by_id(streams, &id) {
                    Some(k) => {
                        let name = chars_of(streams[k].name.as_str());
                        out.push('{');
                        push_range(&mut out, &name, 0, name.len());
                        out.push('}');
                        assert(name@.subrange(0, name@.len() as int) == name@);
                        proof {
                            piece = braced(reg[k as int].name);
                        }
                        assert(out@ =~= before + piece);
                    },
                    None => {
                        push_range(&mut out, text, i, e);
                        proof {
                            piece = text@.subrange(i as int, e as int);
                        }
                    },
                }
                assert(out@ + decoded_from(reg, text@, e as int) =~= before + (piece
                    + decoded_from(reg, text@, e as int)));
                i = e;
            },
            None => {
                out.push(text[i]);
                assert(out@ + decoded_from(reg, text@, i + 1) =~= before + (seq![text@[i as int]]
                    + decoded_from(reg, text@, i + 1)));
                i += 1;
            },
        }
    }
    assert(out@ + Seq::<char>::empty() =~= out@);
    out
}

/// The index of the last brace in `s[..k]`, or -1.
pub open spec fn last_brace(s: Seq<char>, k: int) -> int
    decreases k,
{
    if k <= 0 || k > s.len() {
        -1
    } else if is_brace(s[k - 1]) {
        k - 1
    } else {
        last_brace(s, k - 1)
    }
}

/// `s` without a reference left open at its end: if the last brace of `s`
/// is a `{`, the text before it.
pub open spec fn without_open_tail(s: Seq<char>) -> Seq<char> {
    let j = last_brace(s, s.len() as int);
    if 0 <= j < s.len() && s[j] == '{' {
        s.take(j)
    } else {
        s
    }
}

/// The words that a query looks for in titles and bodies: the query without
/// its name references, without a reference left open at its end, and
/// without surrounding white space.
pub open spec fn search_term(query: Seq<char>) -> Seq<char> {
    trimmed(without_open_tail(trimmed(unreferenced_from(query, 0))))
}

/// `text` without a reference left open at its end.
pub fn cut_open_tail(text: &Vec<char>) -> (r: Vec<char>)
    ensures
        r@ == without_open_tail(text@),
{
    let mut k: usize = text.len();
    while k > 0 && text[k - 1] != '{' && text[k - 1] != '}'
        invariant
            k <= text.len(),
            last_brace(text@, k as int) == last_brace(text@, text@.len() as int),
        decreases k,
    {
        k -= 1;
    }
    let mut r: Vec<char> = Vec::new();
    if k > 0 && text[k - 1] == '{' {
        push_range(&mut r, text, 0, k - 1);
    } else {
        push_range(&mut r, text, 0, text.len());
        assert(text@.subrange(0, text@.len() as int) == text@);
    }
    r
}

/// The words that `query` looks for in titles and bodies.
pub fn search_term_of(query: &Vec<char>) -> (r: Vec<char>)
    ensures
        r@ == search_term(query@),
{
    let bare = trim(&unreferenced(query));
    trim(&cut_open_tail(&bare))
}

} // verus!
