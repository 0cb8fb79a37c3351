//! The order in which aggregated items are shown: newest first, and among
//! items of one instant by identity key, ascending. Items that agree in both
//! are told apart by their other fields, so that the order is total and the
//! outcome of a merge does not depend on the order of arrival.

use vstd::prelude::*;
use vstd::relations::*;
use crate::bytes::{bytes_equal, bytes_less, lemma_lex_transitive, lemma_lex_trichotomy, lex_lt};
use crate::item::{ItemView, NormalizedItem};

verus! {

/// `a` comes strictly before `b`.
pub open spec fn item_before(a: ItemView, b: ItemView) -> bool {
    if a.published != b.published {
        a.published > b.published
    } else if a.key != b.key {
        lex_lt(a.key, b.key)
    } else if a.title != b.title {
        lex_lt(a.title, b.title)
    } else if a.body != b.body {
        lex_lt(a.body, b.body)
    } else if a.link != b.link {
        lex_lt(a.link, b.link)
    } else if a.source != b.source {
        lex_lt(a.source, b.source)
    } else {
        !a.undated && b.undated
    }
}

/// `a` comes before `b` or is the same item.
pub open spec fn item_leq(a: ItemView, b: ItemView) -> bool {
    a == b || item_before(a, b)
}

/// The order as a relation.
pub open spec fn item_order() -> spec_fn(ItemView, ItemView) -> bool {
    |a: ItemView, b: ItemView| item_leq(a, b)
}

/// `s` is in display order.
pub open spec fn in_order(s: Seq<ItemView>) -> bool {
    sorted_by(s, item_order())
}

proof fn lemma_field_facts(a: Seq<u8>, b: Seq<u8>, c: Seq<u8>)
    ensures
        lex_lt(a, b) || a == b || lex_lt(b, a),
        !(lex_lt(a, b) && lex_lt(b, a)),
        !lex_lt(a, a),
        lex_lt(a, b) && lex_lt(b, c) ==> lex_lt(a, c),
{
    lemma_lex_trichotomy(a, b);
    lemma_lex_trichotomy(a, a);
    if lex_lt(a, b) && lex_lt(b, c) {
        lemma_lex_transitive(a, b, c);
    }
}

/// Of two items exactly one holds: the first comes before, they are equal,
/// or the second comes before.
pub proof fn lemma_item_trichotomy(a: ItemView, b: ItemView)
    ensures
        item_before(a, b) || a == b || item_before(b, a),
        !(item_before(a, b) && item_before(b, a)),
        !item_before(a, a),
{
    lemma_field_facts(a.key, b.key, a.key);
    lemma_field_facts(a.title, b.title, a.title);
    lemma_field_facts(a.body, b.body, a.body);
    lemma_field_facts(a.link, b.link, a.link);
    lemma_field_facts(a.source, b.source, a.source);
}

/// Coming before is transitive.
pub proof fn lemma_item_before_transitive(a: ItemView, b: ItemView, c: ItemView)
    requires
        item_before(a, b),
        item_before(b, c),
    ensures
        item_before(a, c),
{
    lemma_field_facts(a.key, b.key, c.key);
    lemma_field_facts(a.title, b.title, c.title);
    lemma_field_facts(a.body, b.body, c.body);
    lemma_field_facts(a.link, b.link, c.link);
    lemma_field_facts(a.source, b.source, c.source);
    lemma_field_facts(b.key, c.key, a.key);
    lemma_field_facts(b.title, c.title, a.title);
    lemma_field_facts(b.body, c.body, a.body);
    lemma_field_facts(b.link, c.link, a.link);
    lemma_field_facts(b.source, c.source, a.source);
    lemma_field_facts(a.key, c.key, b.key);
    lemma_field_facts(a.title, c.title, b.title);
    lemma_field_facts(a.body, c.body, b.body);
    lemma_field_facts(a.link, c.link, b.link);
    lemma_field_facts(a.source, c.source, b.source);
}

/// The display order is a total order on items.
pub proof fn lemma_item_order_total()
    ensures
        total_ordering(item_order()),
{
    let r = item_order();
    assert forall|x: ItemView| #[trigger] r(x, x) by {}
    assert forall|x: ItemView, y: ItemView| #[trigger] r(x, y) && #[trigger] r(y, x) implies x
        == y by {
        lemma_item_trichotomy(x, y);
    }
    assert forall|x: ItemView, y: ItemView, z: ItemView| #[trigger]
        r(x, y) && #[trigger] r(y, z) implies r(x, z) by {
        if x != y && y != z {
            lemma_item_before_transitive(x, y, z);
        }
    }
    assert forall|x: ItemView, y: ItemView| #[trigger] r(x, y) || #[trigger] r(y, x) by {
        lemma_item_trichotomy(x, y);
    }
}

/// Whether `a` comes strictly before `b` in display order.
pub fn precedes(a: &NormalizedItem, b: &NormalizedItem) -> (r: bool)
    ensures
        r == item_before(a@, b@),
{
    if a.published != b.published {
        a.published > b.published
    } else if !bytes_equal(a.key.as_slice(), b.key.as_slice()) {
        bytes_less(a.key.as_slice(), b.key.as_slice())
    } else if !bytes_equal(a.title.as_slice(), b.title.as_slice()) {
        bytes_less(a.title.as_slice(), b.title.as_slice())
    } else if !bytes_equal(a.body.as_slice(), b.body.as_slice()) {
        bytes_less(a.body.as_slice(), b.body.as_slice())
    } else if !bytes_equal(a.link.as_slice(), b.link.as_slice()) {
        bytes_less(a.link.as_slice(), b.link.as_slice())
    } else if !bytes_equal(a.source.as_slice(), b.source.as_slice()) {
        bytes_less(a.source.as_slice(), b.source.as_slice())
    } else {
        !a.undated && b.undated
    }
}

} // verus!
