//! Normalization: from a draft, the source it came from and the time it
//! was fetched, to a normalized item.

use vstd::prelude::*;
use crate::bytes::copy_of;
use crate::identity::{canonical_link, canonicalize_link, derive_key, identity_key};
use crate::item::{draft_views, item_views, DraftView, ItemDraft, ItemView, NormalizedItem};
use crate::text::{normalize_text, normalized};
use crate::time::{parse_timestamp, timestamp_of};

verus! {

/// The item that a draft becomes. Title and body are brought into normal
/// form and the link into canonical form. The date is read from its normal
/// form; where it cannot be read, the item is undated and takes the time
/// of the fetch. The key is derived from source, link and content.
pub open spec fn normalized_item(d: DraftView, source: Seq<u8>, fetch_time: int) -> ItemView {
    let title = normalized(d.title);
    let body = normalized(d.body);
    let link = canonical_link(d.link);
    let read = timestamp_of(normalized(d.date));
    ItemView {
        key: identity_key(source, link, title, body),
        title: title,
        body: body,
        published: match read {
            Some(t) => t,
            None => fetch_time,
        },
        undated: read is None,
        source: source,
        link: link,
    }
}

/// The items that a row of drafts becomes, in the same order.
pub open spec fn normalized_items(ds: Seq<DraftView>, source: Seq<u8>, fetch_time: int) -> Seq<
    ItemView,
> {
    Seq::new(ds.len(), |i: int| normalized_item(ds[i], source, fetch_time))
}

/// Normalizes one draft.
pub fn normalize(draft: &ItemDraft, source_id: &[u8], fetch_time: i64) -> (item: NormalizedItem)
    ensures
        item@ == normalized_item(draft@, source_id@, fetch_time as int),
        item@.key.len() > 0,
{
    let title = normalize_text(draft.title.as_slice());
    let body = normalize_text(draft.body.as_slice());
    let link = canonicalize_link(draft.link.as_slice());
    let date = normalize_text(draft.date.as_slice());
    let read = parse_timestamp(date.as_slice());
    let key = derive_key(source_id, link.as_slice(), title.as_slice(), body.as_slice());
    let source = copy_of(source_id);
    let undated = read.is_none();
    let published = match read {
        Some(t) => t,
        None => fetch_time,
    };
    NormalizedItem { key, title, body, published, undated, source, link }
}

/// Normalizes every draft of one source.
pub fn normalize_all(drafts: &Vec<ItemDraft>, source_id: &[u8], fetch_time: i64) -> (items: Vec<
    NormalizedItem,
>)
    ensures
        item_views(items@) == normalized_items(
            draft_views(drafts@),
            source_id@,
            fetch_time as int,
        ),
        items.len() == drafts.len(),
{
    let mut items: Vec<NormalizedItem> = Vec::new();
    let mut i: usize = 0;
    while i < drafts.len()
        invariant
            i <= drafts.len(),
            items.len() == i,
            forall|j: int|
                0 <= j < i ==> (#[trigger] items@[j])@ == normalized_item(
                    drafts@[j]@,
                    source_id@,
                    fetch_time as int,
                ),
        decreases drafts.len() - i,
    {
        let item = normalize(&drafts[i], source_id, fetch_time);
        items.push(item);
        i += 1;
    }
    assert(item_views(items@) =~= normalized_items(
        draft_views(drafts@),
        source_id@,
        fetch_time as int,
    ));
    items
}

} // verus!
