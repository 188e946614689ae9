//! Character-level building blocks: conversion between strings and character
//! vectors, sub-sequence search, replacement, trimming and decimal rendering.
//!
//! Every specification in this module speaks of `Seq<char>`, the view of a
//! string; the executable functions work on `Vec<char>`.

use vstd::prelude::*;

verus! {

/// `String::push` appends one character at the end of the string.
pub assume_specification[ String::push ](s: &mut String, c: char)
    ensures
        final(s)@ == old(s)@.push(c),
;

/// The lower-case form of a text, as `str::to_lowercase` computes it.
pub uninterp spec fn lowercase(s: Seq<char>) -> Seq<char>;

/// Whether a character has the Unicode `White_Space` property, as
/// `char::is_whitespace` reports it.
pub uninterp spec fn is_whitespace(c: char) -> bool;

/// `str::to_lowercase`: the result is the lower-case form of the argument and
/// depends on nothing else.
#[verifier::external_body]
pub(crate) fn lowercase_of(s: &str) -> (r: String)
    ensures
        r@ == lowercase(s@),
{
    s.to_lowercase()
}

/// `char::is_whitespace`: the answer is a property of the character alone.
#[verifier::external_body]
pub(crate) fn whitespace(c: char) -> (r: bool)
    ensures
        r == is_whitespace(c),
{
    c.is_whitespace()
}

/// The characters of `s`, in order.
pub fn chars_of(s: &str) -> (v: Vec<char>)
    ensures
        v@ == s@,
{
    broadcast use vstd::string::group_string_axioms;

    let mut v: Vec<char> = Vec::new();
    for c in it: s.chars()
        invariant
            it.seq() == s@,
            v@ == it.seq().take(it.index()),
    {
        v.push(c);
    }
    v
}

/// The string made of the characters `v[from..to]`.
pub fn string_of_range(v: &Vec<char>, from: usize, to: usize) -> (s: String)
    requires
        from <= to <= v.len(),
    ensures
        s@ == v@.subrange(from as int, to as int),
{
    let mut s = String::new();
    let mut i: usize = from;
    while i < to
        invariant
            from <= i <= to <= v.len(),
            s@ == v@.subrange(from as int, i as int),
        decreases to - i,
    {
        s.push(v[i]);
        i += 1;
    }
    s
}

/// The string made of the characters of `v`.
pub fn string_of(v: &Vec<char>) -> (s: String)
    ensures
        s@ == v@,
{
    let s = string_of_range(v, 0, v.len());
    assert(v@.subrange(0, v.len() as int) == v@);
    s
}

/// Appends the characters `src[from..to]` to `out`.
pub fn push_range(out: &mut Vec<char>, src: &Vec<char>, from: usize, to: usize)
    requires
        from <= to <= src.len(),
    ensures
        final(out)@ == old(out)@ + src@.subrange(from as int, to as int),
{
    let mut i: usize = from;
    while i < to
        invariant
            from <= i <= to <= src.len(),
            out@ == old(out)@ + src@.subrange(from as int, i as int),
        decreases to - i,
    {
        out.push(src[i]);
        i += 1;
    }
}

/// `pat` occurs in `s` at index `i`.
pub open spec fn matches_at(s: Seq<char>, i: int, pat: Seq<char>) -> bool {
    0 <= i && i + pat.len() <= s.len() && s.subrange(i, i + pat.len()) == pat
}

/// `pat` occurs somewhere in `s`.
pub open spec fn contains_text(s: Seq<char>, pat: Seq<char>) -> bool {
    exists|i: int| matches_at(s, i, pat)
}

/// Tells whether `pat` occurs in `text` at index `pos`.
pub fn starts_with_at(text: &Vec<char>, pos: usize, pat: &Vec<char>) -> (r: bool)
    ensures
        r == matches_at(text@, pos as int, pat@),
{
    let n: usize = pat.len();
    if n > text.len() || pos > text.len() - n {
        return false;
    }
    let mut k: usize = 0;
    while k < n
        invariant
            n == pat.len(),
            pos + n <= text.len(),
            k <= n,
            forall|j: int| 0 <= j < k ==> text@[pos + j] == pat@[j],
        decreases n - k,
    {
        if text[pos + k] != pat[k] {
            assert(text@.subrange(pos as int, pos + n)[k as int] != pat@[k as int]);
            return false;
        }
        k += 1;
    }
    assert(text@.subrange(pos as int, pos + n) =~= pat@);
    true
}

/// Tells whether `pat` occurs anywhere in `text`. The empty pattern occurs in
/// every text.
pub fn contains(text: &Vec<char>, pat: &Vec<char>) -> (r: bool)
    ensures
        r == contains_text(text@, pat@),
{
    if pat.len() > text.len() {
        return false;
    }
    let last: usize = text.len() - pat.len();
    let mut i: usize = 0;
    loop
        invariant
            last == text.len() - pat.len(),
            i <= last,
            forall|j: int| 0 <= j < i ==> !matches_at(text@, j, pat@),
        decreases last - i,
    {
        if starts_with_at(text, i, pat) {
            return true;
        }
        if i == last {
            return false;
        }
        i += 1;
    }
}

/// `text` holds `term`, letter case put aside: the lower-case form of
/// `term` occurs in the lower-case form of `text`.
pub open spec fn contains_ignoring_case(text: Seq<char>, term: Seq<char>) -> bool {
    contains_text(lowercase(text), lowercase(term))
}

/// For each character of `s`, whether it is white space.
pub open spec fn white(s: Seq<char>) -> Seq<bool> {
    Seq::new(s.len(), |i: int| is_whitespace(s[i]))
}

/// The first index at or after `i` that `marks` does not mark, or the
/// length of `marks`.
pub open spec fn skip_marked(marks: Seq<bool>, i: int) -> int
    decreases marks.len() - i,
{
    if 0 <= i < marks.len() && marks[i] {
        skip_marked(marks, i + 1)
    } else {
        i
    }
}

/// The index behind the last index before `j` that `marks` does not mark,
/// never below `low`.
pub open spec fn cut_marked(marks: Seq<bool>, low: int, j: int) -> int
    decreases j,
{
    if 0 <= low < j <= marks.len() && marks[j - 1] {
        cut_marked(marks, low, j - 1)
    } else {
        j
    }
}

/// `s` without the marked characters at its start and at its end.
pub open spec fn pared(s: Seq<char>, marks: Seq<bool>) -> Seq<char> {
    let a = skip_marked(marks, 0);
    s.subrange(a, cut_marked(marks, a, marks.len() as int))
}

/// `s` without its leading and trailing white space.
pub open spec fn trimmed(s: Seq<char>) -> Seq<char> {
    pared(s, white(s))
}

/// Tells of each character of `text` whether it is white space.
pub fn white_marks(text: &Vec<char>) -> (r: Vec<bool>)
    ensures
        r@ == white(text@),
{
    let mut marks: Vec<bool> = Vec::new();
    let mut i: usize = 0;
    while i < text.len()
        invariant
            i <= text.len(),
            marks@ == white(text@).take(i as int),
        decreases text.len() - i,
    {
        marks.push(whitespace(text[i]));
        assert(marks@ =~= white(text@).take(i + 1));
        i += 1;
    }
    assert(white(text@).take(text.len() as int) =~= white(text@));
    marks
}

/// Cuts the marked characters off the start and the end of `text`, where
/// `marks` holds one mark for each character.
pub fn pare(text: &Vec<char>, marks: &Vec<bool>) -> (r: Vec<char>)
    requires
        marks.len() == text.len(),
    ensures
        r@ == pared(text@, marks@),
{
    let mut a: usize = 0;
    while a < marks.len() && marks[a]
        invariant
            a <= marks.len(),
            skip_marked(marks@, a as int) == skip_marked(marks@, 0),
        decreases marks.len() - a,
    {
        a += 1;
    }
    let mut b: usize = marks.len();
    while b > a && marks[b - 1]
        invariant
            a <= b <= marks.len(),
            cut_marked(marks@, a as int, b as int) == cut_marked(
                marks@,
                a as int,
                marks@.len() as int,
            ),
        decreases b,
    {
        b -= 1;
    }
    let mut r: Vec<char> = Vec::new();
    push_range(&mut r, text, a, b);
    r
}

/// Removes leading and trailing white space.
pub fn trim(text: &Vec<char>) -> (r: Vec<char>)
    ensures
        r@ == trimmed(text@),
{
    pare(text, &white_marks(text))
}

/// `s[i..]` with the first `n` occurrences of `pat`, found left to right
/// without overlap, replaced by `to`. An empty `pat` occurs nowhere.
pub open spec fn replaced_from(s: Seq<char>, pat: Seq<char>, to: Seq<char>, n: nat, i: int) -> Seq<
    char,
>
    decreases s.len() - i,
{
    if i < 0 || i >= s.len() {
        Seq::empty()
    } else if n > 0 && pat.len() > 0 && matches_at(s, i, pat) {
        to + replaced_from(s, pat, to, (n - 1) as nat, i + pat.len())
    } else {
        seq![s[i]] + replaced_from(s, pat, to, n, i + 1)
    }
}

/// `s` with the first `n` occurrences of `pat` replaced by `to`.
pub open spec fn replaced_first(s: Seq<char>, pat: Seq<char>, to: Seq<char>, n: nat) -> Seq<char> {
    replaced_from(s, pat, to, n, 0)
}

/// `s` with every occurrence of `pat` replaced by `to`.
pub open spec fn replaced_all(s: Seq<char>, pat: Seq<char>, to: Seq<char>) -> Seq<char> {
    replaced_from(s, pat, to, s.len(), 0)
}

/// Replaces the first `n` occurrences of `pat` in `text` by `to`, scanning
/// left to right; occurrences do not overlap and the replacement is not
/// scanned again.
pub fn replace_first(text: &Vec<char>, pat: &Vec<char>, to: &Vec<char>, n: usize) -> (r: Vec<char>)
    ensures
        r@ == replaced_first(text@, pat@, to@, n as nat),
{
    let mut out: Vec<char> = Vec::new();
    let mut left: usize = n;
    let mut i: usize = 0;
    while i < text.len()
        invariant
            i <= text.len(),
            out@ + replaced_from(text@, pat@, to@, left as nat, i as int) == replaced_from(
                text@,
                pat@,
                to@,
                n as nat,
                0,
            ),
        decreases text.len() - i,
    {
        let ghost before = out@;
        if left > 0 && pat.len() > 0 && starts_with_at(text, i, pat) {
            push_range(&mut out, to, 0, to.len());
            assert(to@.subrange(0, to@.len() as int) == to@);
            assert(out@ + replaced_from(text@, pat@, to@, (left - 1) as nat, i + pat@.len())
                == before + (to@ + replaced_from(
                text@,
                pat@,
                to@,
                (left - 1) as nat,
                i + pat@.len(),
            )));
            left -= 1;
            i += pat.len();
        } else {
            out.push(text[i]);
            assert(out@ + replaced_from(text@, pat@, to@, left as nat, i + 1) == before + (
            seq![text@[i as int]] + replaced_from(text@, pat@, to@, left as nat, i + 1)));
            i += 1;
        }
    }
    assert(out@ + Seq::<char>::empty() == out@);
    out
}

/// Replaces every occurrence of `pat` in `text` by `to`.
pub fn replace_all(text: &Vec<char>, pat: &Vec<char>, to: &Vec<char>) -> (r: Vec<char>)
    ensures
        r@ == replaced_all(text@, pat@, to@),
{
    replace_first(text, pat, to, text.len())
}

/// The decimal digit for `d`.
pub open spec fn digit(d: int) -> char {
    if d == 0 {
        '0'
    } else if d == 1 {
        '1'
    } else if d == 2 {
        '2'
    } else if d == 3 {
        '3'
    } else if d == 4 {
        '4'
    } else if d == 5 {
        '5'
    } else if d == 6 {
        '6'
    } else if d == 7 {
        '7'
    } else if d == 8 {
        '8'
    } else {
        '9'
    }
}

/// The decimal notation of `n`, without sign or leading zeros.
pub open spec fn decimal(n: nat) -> Seq<char>
    decreases n,
{
    if n < 10 {
        seq![digit(n as int)]
    } else {
        decimal(n / 10).push(digit((n % 10) as int))
    }
}

/// The decimal digit for `d`.
fn digit_of(d: u64) -> (c: char)
    requires
        d < 10,
    ensures
        c == digit(d as int),
{
    if d == 0 {
        '0'
    } else if d == 1 {
        '1'
    } else if d == 2 {
        '2'
    } else if d == 3 {
        '3'
    } else if d == 4 {
        '4'
    } else if d == 5 {
        '5'
    } else if d == 6 {
        '6'
    } else if d == 7 {
        '7'
    } else if d == 8 {
        '8'
    } else {
        '9'
    }
}

/// Renders `n` in decimal notation.
pub fn decimal_of(n: u64) -> (r: Vec<char>)
    ensures
        r@ == decimal(n as nat),
    decreases n,
{
    if n < 10 {
        let mut r: Vec<char> = Vec::new();
        r.push(digit_of(n));
        r
    } else {
        let mut r = decimal_of(n / 10);
        r.push(digit_of(n % 10));
        r
    }
}

} // verus!
