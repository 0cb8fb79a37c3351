//! Parsing: from a payload and its format to the drafts of its items.

use vstd::prelude::*;
use crate::feed::{markup_feed, read_markup_feed, Dialect};
use crate::format::{FormatKind, Malformation};
use crate::item::{draft_views, DraftView, ItemDraft};
use crate::jsonfeed::{json_feed, read_json_feed};

verus! {

/// The drafts of the items of a payload in the format `kind`, or why the
/// payload is malformed.
pub open spec fn parsed(kind: FormatKind, s: Seq<u8>) -> Result<Seq<DraftView>, Malformation> {
    match kind {
        FormatKind::Rss => markup_feed(Dialect::Rss, s),
        FormatKind::Atom => markup_feed(Dialect::Atom, s),
        FormatKind::Json => json_feed(s),
    }
}

/// Reads the items of a payload in the format `kind` as drafts, in the
/// order of the payload. A payload that is malformed gives no drafts but
/// the reason; a payload without items gives no drafts and no reason.
pub fn parse(kind: FormatKind, payload: &[u8]) -> (r: Result<Vec<ItemDraft>, Malformation>)
    ensures
        match r {
            Ok(drafts) => parsed(kind, payload@) == Ok::<Seq<DraftView>, Malformation>(
                draft_views(drafts@),
            ),
            Err(m) => parsed(kind, payload@) == Err::<Seq<DraftView>, Malformation>(m),
        },
{
    match kind {
        FormatKind::Rss => read_markup_feed(Dialect::Rss, payload),
        FormatKind::Atom => read_markup_feed(Dialect::Atom, payload),
        FormatKind::Json => read_json_feed(payload),
    }
}

} // verus!
