//! The normalized item: the one shape that every feed record is brought to.

use vstd::prelude::*;

verus! {

/// One piece of aggregated content. Text fields hold UTF-8 bytes; times are
/// milliseconds since the Unix epoch.
#[derive(Clone, Debug, PartialEq, Eq)]
pub struct NormalizedItem {
    /// Stable identity, never empty: what deduplication goes by.
    pub key: Vec<u8>,
    pub title: Vec<u8>,
    pub body: Vec<u8>,
    /// When the item was published, or when it was fetched if `undated`.
    pub published: i64,
    /// The feed gave no date that could be read.
    pub undated: bool,
    /// Identifier of the source that the item came from.
    pub source: Vec<u8>,
    /// Canonical link, empty where the feed gave none.
    pub link: Vec<u8>,
}

/// A normalized item as a mathematical value.
pub struct ItemView {
    pub key: Seq<u8>,
    pub title: Seq<u8>,
    pub body: Seq<u8>,
    pub published: int,
    pub undated: bool,
    pub source: Seq<u8>,
    pub link: Seq<u8>,
}

impl View for NormalizedItem {
    type V = ItemView;

    open spec fn view(&self) -> ItemView {
        ItemView {
            key: self.key@,
            title: self.title@,
            body: self.body@,
            published: self.published as int,
            undated: self.undated,
            source: self.source@,
            link: self.link@,
        }
    }
}

/// One record of a feed as its parser read it: text not yet normalized, the
/// date as the feed wrote it. An empty link or date stands for none.
#[derive(Clone, Debug, PartialEq, Eq)]
pub struct ItemDraft {
    pub title: Vec<u8>,
    pub body: Vec<u8>,
    pub link: Vec<u8>,
    pub date: Vec<u8>,
}

/// A draft as a mathematical value.
pub struct DraftView {
    pub title: Seq<u8>,
    pub body: Seq<u8>,
    pub link: Seq<u8>,
    pub date: Seq<u8>,
}

impl View for ItemDraft {
    type V = DraftView;

    open spec fn view(&self) -> DraftView {
        DraftView { title: self.title@, body: self.body@, link: self.link@, date: self.date@ }
    }
}

/// A field of a draft that takes text.
#[derive(Clone, Copy, Debug, PartialEq, Eq, Structural)]
pub enum Field {
    Title,
    Body,
    Link,
    Date,
}

/// The draft that nothing was read for yet.
pub open spec fn empty_draft() -> DraftView {
    DraftView { title: Seq::empty(), body: Seq::empty(), link: Seq::empty(), date: Seq::empty() }
}

/// What the draft holds for the field `f`.
pub open spec fn field_text(d: DraftView, f: Field) -> Seq<u8> {
    match f {
        Field::Title => d.title,
        Field::Body => d.body,
        Field::Link => d.link,
        Field::Date => d.date,
    }
}

/// The draft with `bytes` added to the field `f`.
pub open spec fn with_text(d: DraftView, f: Field, bytes: Seq<u8>) -> DraftView {
    match f {
        Field::Title => DraftView { title: d.title + bytes, ..d },
        Field::Body => DraftView { body: d.body + bytes, ..d },
        Field::Link => DraftView { link: d.link + bytes, ..d },
        Field::Date => DraftView { date: d.date + bytes, ..d },
    }
}

/// Whether the draft holds nothing for the field `f`.
pub fn field_is_empty(d: &ItemDraft, f: Field) -> (r: bool)
    ensures
        r == (field_text(d@, f).len() == 0),
{
    match f {
        Field::Title => d.title.len() == 0,
        Field::Body => d.body.len() == 0,
        Field::Link => d.link.len() == 0,
        Field::Date => d.date.len() == 0,
    }
}

/// A draft that nothing was read for yet.
pub fn new_draft() -> (d: ItemDraft)
    ensures
        d@ == empty_draft(),
{
    ItemDraft { title: Vec::new(), body: Vec::new(), link: Vec::new(), date: Vec::new() }
}

/// The views of a row of drafts, in the same order.
pub open spec fn draft_views(s: Seq<ItemDraft>) -> Seq<DraftView> {
    Seq::new(s.len(), |i: int| s[i]@)
}

/// The views of a row of items, in the same order.
pub open spec fn item_views(s: Seq<NormalizedItem>) -> Seq<ItemView> {
    Seq::new(s.len(), |i: int| s[i]@)
}

/// Some item of `s` has the key `k`.
pub open spec fn has_key(s: Seq<ItemView>, k: Seq<u8>) -> bool {
    exists|i: int| 0 <= i < s.len() && (#[trigger] s[i]).key == k
}

/// How many items of `s` have the key `k`.
pub open spec fn key_count(s: Seq<ItemView>, k: Seq<u8>) -> nat
    decreases s.len(),
{
    if s.len() == 0 {
        0
    } else {
        key_count(s.drop_last(), k) + if s.last().key == k {
            1nat
        } else {
            0nat
        }
    }
}

/// No two items of `s` share a key.
pub open spec fn keys_distinct(s: Seq<ItemView>) -> bool {
    forall|i: int, j: int| 0 <= i < j < s.len() ==> (#[trigger] s[i]).key != (#[trigger] s[j]).key
}

/// Every item of `s` has a key that is not empty.
pub open spec fn keys_present(s: Seq<ItemView>) -> bool {
    forall|i: int| 0 <= i < s.len() ==> (#[trigger] s[i]).key.len() > 0
}

} // verus!
