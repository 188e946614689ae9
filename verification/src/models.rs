//! The records of the store: entries and streams, in today's shape and in
//! the older one that stores on disk may still hold.

use crate::state::inbox;
use crate::text::{chars_of, string_of_range};
use std::cmp::Ordering;
use vstd::prelude::*;

verus! {

/// The fields of a new entry, as a caller supplies them.
#[derive(Debug)]
pub struct EntryCreation {
    pub meta: String,
    pub title: String,
    pub body: String,
}

/// An entry in the older shape: identifier and creation time were optional.
#[derive(Debug)]
pub struct EntryPrev {
    pub id: Option<String>,
    pub created: Option<u64>,
    pub meta: String,
    pub title: String,
    pub body: String,
}

/// A note. `id` and `created` are fixed when the entry is created; `meta` is
/// free text that may refer to streams.
#[derive(Debug)]
pub struct Entry {
    pub id: String,
    pub created: u64,
    pub meta: String,
    pub title: String,
    pub body: String,
}

/// A stream in the older shape: it had no `meta`.
#[derive(Debug)]
pub struct StreamPrev {
    pub id: String,
    pub name: String,
}

/// A tag. `id` never changes; `name` is what users see and may be changed;
/// `meta` is kept for later use and is always empty.
#[derive(Debug)]
pub struct Stream {
    pub id: String,
    pub meta: String,
    pub name: String,
}

/// What an [`Entry`] holds.
pub struct EntryView {
    pub id: Seq<char>,
    pub created: u64,
    pub meta: Seq<char>,
    pub title: Seq<char>,
    pub body: Seq<char>,
}

/// What a [`Stream`] holds.
pub struct StreamView {
    pub id: Seq<char>,
    pub meta: Seq<char>,
    pub name: Seq<char>,
}

impl View for Entry {
    type V = EntryView;

    open spec fn view(&self) -> EntryView {
        EntryView {
            id: self.id@,
            created: self.created,
            meta: self.meta@,
            title: self.title@,
            body: self.body@,
        }
    }
}

impl View for Stream {
    type V = StreamView;

    open spec fn view(&self) -> StreamView {
        StreamView { id: self.id@, meta: self.meta@, name: self.name@ }
    }
}

/// The views of a sequence of strings.
pub open spec fn texts(v: Seq<String>) -> Seq<Seq<char>> {
    Seq::new(v.len(), |i: int| v[i]@)
}

/// The views of a sequence of streams.
pub open spec fn stream_views(v: Seq<Stream>) -> Seq<StreamView> {
    Seq::new(v.len(), |i: int| v[i]@)
}

/// The views of a sequence of entries.
pub open spec fn entry_views(v: Seq<Entry>) -> Seq<EntryView> {
    Seq::new(v.len(), |i: int| v[i]@)
}

/// The views of a sequence of records, some of which could not be read.
pub open spec fn record_views(v: Seq<Option<Entry>>) -> Seq<Option<EntryView>> {
    Seq::new(
        v.len(),
        |i: int|
            match v[i] {
                Some(e) => Some(e@),
                None => None,
            },
    )
}

impl Clone for EntryCreation {
    /// A copy with the same fields.
    fn clone(&self) -> (r: Self)
        ensures
            r == *self,
    {
        EntryCreation {
            meta: self.meta.clone(),
            title: self.title.clone(),
            body: self.body.clone(),
        }
    }
}

impl Clone for Entry {
    /// A copy with the same fields.
    fn clone(&self) -> (r: Self)
        ensures
            r == *self,
    {
        Entry {
            id: self.id.clone(),
            created: self.created,
            meta: self.meta.clone(),
            title: self.title.clone(),
            body: self.body.clone(),
        }
    }
}

impl Clone for EntryPrev {
    /// A copy with the same fields.
    fn clone(&self) -> (r: Self)
        ensures
            r == *self,
    {
        EntryPrev {
            id: match &self.id {
                Some(id) => Some(id.clone()),
                None => None,
            },
            created: self.created,
            meta: self.meta.clone(),
            title: self.title.clone(),
            body: self.body.clone(),
        }
    }
}

impl Clone for StreamPrev {
    /// A copy with the same fields.
    fn clone(&self) -> (r: Self)
        ensures
            r == *self,
    {
        StreamPrev { id: self.id.clone(), name: self.name.clone() }
    }
}

impl Clone for Stream {
    /// A copy with the same fields.
    fn clone(&self) -> (r: Self)
        ensures
            r == *self,
    {
        Stream { id: self.id.clone(), meta: self.meta.clone(), name: self.name.clone() }
    }
}

impl EntryPrev {
    /// The entry in today's shape, if the old record carries both an
    /// identifier and a creation time.
    pub fn upgrade(&self) -> (r: Option<Entry>)
        ensures
            r is Some <==> self.id is Some && self.created is Some,
            r matches Some(e) ==> e@ == (EntryView {
                id: self.id->0@,
                created: self.created->0,
                meta: self.meta@,
                title: self.title@,
                body: self.body@,
            }),
    {
        match (&self.id, self.created) {
            (Some(id), Some(created)) => Some(
                Entry {
                    id: id.clone(),
                    created,
                    meta: self.meta.clone(),
                    title: self.title.clone(),
                    body: self.body.clone(),
                },
            ),
            _ => None,
        }
    }
}

impl StreamPrev {
    /// The stream in today's shape: same identifier and name, empty `meta`.
    pub fn upgrade(&self) -> (r: Stream)
        ensures
            r@ == (StreamView { id: self.id@, meta: Seq::empty(), name: self.name@ }),
    {
        Stream { id: self.id.clone(), meta: String::new(), name: self.name.clone() }
    }
}

/// The name of the stream that is always listed first.
pub open spec fn inbox_name() -> Seq<char> {
    "Inbox"@
}

/// The identifier of the stream that is always listed first.
pub open spec fn inbox_id() -> Seq<char> {
    "0-inbox"@
}

/// `a[i..]` comes strictly before `b[i..]` when texts are ordered character
/// by character, a proper prefix before its extensions.
pub open spec fn text_before_from(a: Seq<char>, b: Seq<char>, i: int) -> bool
    decreases b.len() - i,
{
    if i < 0 || i >= b.len() {
        false
    } else if i >= a.len() {
        true
    } else if a[i] != b[i] {
        a[i] < b[i]
    } else {
        text_before_from(a, b, i + 1)
    }
}

/// `a` comes strictly before `b` in the order of names, which is case
/// sensitive.
pub open spec fn text_before(a: Seq<char>, b: Seq<char>) -> bool {
    text_before_from(a, b, 0)
}

/// Tells whether `a` comes strictly before `b` in the order of names.
pub fn text_lt(a: &Vec<char>, b: &Vec<char>) -> (r: bool)
    ensures
        r == text_before(a@, b@),
{
    let mut i: usize = 0;
    while i < a.len() && i < b.len()
        invariant
            i <= a.len(),
            i <= b.len(),
            text_before_from(a@, b@, i as int) == text_before(a@, b@),
        decreases b.len() - i,
    {
        let x: char = a[i];
        let y: char = b[i];
        if x != y {
            return x < y;
        }
        i += 1;
    }
    i < b.len()
}

impl EntryView {
    /// This entry with `meta` in place of its own.
    pub open spec fn with_meta(self, meta: Seq<char>) -> EntryView {
        EntryView { meta, ..self }
    }
}

impl StreamView {
    /// This stream carries the name of the inbox.
    pub open spec fn is_inbox(self) -> bool {
        self.name == inbox_name()
    }

    /// This stream is listed strictly before `other`: the inbox before all
    /// others, the others by name.
    pub open spec fn sorts_before(self, other: StreamView) -> bool {
        if self.is_inbox() {
            !other.is_inbox()
        } else if other.is_inbox() {
            false
        } else {
            text_before(self.name, other.name)
        }
    }
}

/// Every prefix of `name[..k]` that ends just before a `/`, shortest first.
pub open spec fn ancestors_upto(name: Seq<char>, k: int) -> Seq<Seq<char>>
    decreases k,
{
    if k <= 0 || k > name.len() {
        Seq::empty()
    } else if name[k - 1] == '/' {
        ancestors_upto(name, k - 1).push(name.take(k - 1))
    } else {
        ancestors_upto(name, k - 1)
    }
}

/// The names of the ancestors of a stream called `name`, and `name` itself
/// last: for each `/` in `name` the text before it, from left to right.
pub open spec fn parent_names(name: Seq<char>) -> Seq<Seq<char>> {
    ancestors_upto(name, name.len() as int).push(name)
}

impl Stream {
    /// The sentinel stream that every store holds.
    pub fn inbox() -> (s: Stream)
        ensures
            s@ == (StreamView { id: inbox_id(), meta: Seq::empty(), name: inbox_name() }),
    {
        Stream { id: "0-inbox".to_owned(), meta: String::new(), name: "Inbox".to_owned() }
    }

    /// Tells whether this stream carries the name of the inbox.
    pub fn is_inbox(&self) -> (r: bool)
        ensures
            r == self@.is_inbox(),
    {
        let inbox = "Inbox".to_owned();
        self.name == inbox
    }

    /// Tells whether this stream is listed strictly before `other`.
    pub fn sorts_before(&self, other: &Stream) -> (r: bool)
        ensures
            r == self@.sorts_before(other@),
    {
        if self.is_inbox() {
            !other.is_inbox()
        } else if other.is_inbox() {
            false
        } else {
            let a = chars_of(self.name.as_str());
            let b = chars_of(other.name.as_str());
            text_lt(&a, &b)
        }
    }

    /// The names under which this stream's ancestors are found, followed by
    /// its own name. A name that starts with `/` has the empty name as its
    /// first ancestor.
    pub fn parent_names(&self) -> (r: Vec<String>)
        ensures
            texts(r@) == parent_names(self.name@),
    {
        let name = chars_of(self.name.as_str());
        let mut parents: Vec<String> = Vec::new();
        let mut k: usize = 0;
        while k < name.len()
            invariant
                k <= name.len(),
                name@ == self.name@,
                texts(parents@) == ancestors_upto(name@, k as int),
            decreases name.len() - k,
        {
            if name[k] == '/' {
                let ghost before = parents@;
                parents.push(string_of_range(&name, 0, k));
                assert(texts(parents@) =~= texts(before).push(name@.take(k as int)));
            }
            k += 1;
        }
        let ghost before = parents@;
        parents.push(string_of_range(&name, 0, name.len()));
        assert(name@.subrange(0, name@.len() as int) == name@);
        assert(texts(parents@) =~= texts(before).push(name@));
        parents
    }
}

impl PartialEq for Stream {
    /// Two streams are the same stream when their identifiers agree.
    fn eq(&self, other: &Self) -> (r: bool) {
        self.id == other.id
    }
}

impl vstd::std_specs::cmp::PartialEqSpecImpl for Stream {
    open spec fn obeys_eq_spec() -> bool {
        true
    }

    open spec fn eq_spec(&self, other: &Self) -> bool {
        self.id@ == other.id@
    }
}

impl PartialOrd for Stream {
    /// The order in which streams are listed.
    fn partial_cmp(&self, other: &Self) -> (r: Option<Ordering>) {
        if self.sorts_before(other) {
            Some(Ordering::Less)
        } else if other.sorts_before(self) {
            Some(Ordering::Greater)
        } else {
            Some(Ordering::Equal)
        }
    }
}

impl vstd::std_specs::cmp::PartialOrdSpecImpl for Stream {
    open spec fn obeys_partial_cmp_spec() -> bool {
        true
    }

    open spec fn partial_cmp_spec(&self, other: &Self) -> Option<Ordering> {
        if self@.sorts_before(other@) {
            Some(Ordering::Less)
        } else if other@.sorts_before(self@) {
            Some(Ordering::Greater)
        } else {
            Some(Ordering::Equal)
        }
    }
}

} // verus!
