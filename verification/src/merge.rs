//! Merging: all items of all sources brought into display order, and of the
//! items that share an identity key only the first in that order kept.

use vstd::prelude::*;
use vstd::seq_lib::{group_to_multiset_ensures, lemma_sorted_unique};
use crate::bytes::{bytes_equal, lex_lt};
use crate::item::{
    has_key,
    item_views,
    key_count,
    keys_distinct,
    keys_present,
    ItemView,
    NormalizedItem,
};
use crate::order::{
    in_order,
    item_before,
    item_leq,
    item_order,
    lemma_item_before_transitive,
    lemma_item_order_total,
    lemma_item_trichotomy,
    precedes,
};

verus! {

/// The items of `s` in display order.
pub open spec fn sorted_items(s: Seq<ItemView>) -> Seq<ItemView> {
    s.sort_by(item_order())
}

/// The items of `s` without those whose key an earlier item of `s` has.
pub open spec fn first_of_each_key(s: Seq<ItemView>) -> Seq<ItemView>
    decreases s.len(),
{
    if s.len() == 0 {
        Seq::empty()
    } else {
        let kept = first_of_each_key(s.drop_last());
        if has_key(kept, s.last().key) {
            kept
        } else {
            kept.push(s.last())
        }
    }
}

/// What a merge makes of the items `all`: display order, one item per key.
pub open spec fn merged(all: Seq<ItemView>) -> Seq<ItemView> {
    first_of_each_key(sorted_items(all))
}

/// Sorting keeps the items and brings them into display order.
pub proof fn lemma_sorted_items(s: Seq<ItemView>)
    ensures
        in_order(sorted_items(s)),
        sorted_items(s).to_multiset() == s.to_multiset(),
        sorted_items(s).len() == s.len(),
        forall|k: Seq<u8>| has_key(sorted_items(s), k) <==> has_key(s, k),
{
    broadcast use group_to_multiset_ensures;

    lemma_item_order_total();
    s.lemma_sort_by_ensures(item_order());
    let t = sorted_items(s);
    assert(t.to_multiset().len() == s.to_multiset().len());
    assert forall|k: Seq<u8>| has_key(t, k) <==> has_key(s, k) by {
        if has_key(t, k) {
            let i = choose|i: int| 0 <= i < t.len() && (#[trigger] t[i]).key == k;
            assert(t.contains(t[i]));
            assert(s.to_multiset().count(t[i]) > 0);
            assert(s.contains(t[i]));
            let j = choose|j: int| 0 <= j < s.len() && s[j] == t[i];
            assert(s[j].key == k);
        }
        if has_key(s, k) {
            let i = choose|i: int| 0 <= i < s.len() && (#[trigger] s[i]).key == k;
            assert(s.contains(s[i]));
            assert(t.to_multiset().count(s[i]) > 0);
            assert(t.contains(s[i]));
            let j = choose|j: int| 0 <= j < t.len() && t[j] == s[i];
            assert(t[j].key == k);
        }
    }
}

/// A sequence in display order with the items of `s` is the sorted `s`.
pub proof fn lemma_sorted_is_unique(s: Seq<ItemView>, t: Seq<ItemView>)
    requires
        in_order(t),
        t.to_multiset() == s.to_multiset(),
    ensures
        t == sorted_items(s),
{
    lemma_item_order_total();
    lemma_sorted_items(s);
    lemma_sorted_unique(t, sorted_items(s), item_order());
}

/// What is kept: items of `s`, in the order of `s`, one for each key of `s`.
pub proof fn lemma_first_of_each_key(s: Seq<ItemView>)
    ensures
        keys_distinct(first_of_each_key(s)),
        first_of_each_key(s).len() <= s.len(),
        forall|k: Seq<u8>| has_key(first_of_each_key(s), k) <==> has_key(s, k),
        forall|i: int|
            0 <= i < first_of_each_key(s).len() ==> s.contains(#[trigger] first_of_each_key(s)[i]),
        in_order(s) ==> in_order(first_of_each_key(s)),
        keys_distinct(s) ==> first_of_each_key(s) == s,
    decreases s.len(),
{
    let r = first_of_each_key(s);
    if s.len() > 0 {
        let init = s.drop_last();
        let x = s.last();
        let kept = first_of_each_key(init);
        lemma_first_of_each_key(init);
        assert forall|k: Seq<u8>| has_key(r, k) <==> has_key(s, k) by {
            if has_key(r, k) {
                let i = choose|i: int| 0 <= i < r.len() && (#[trigger] r[i]).key == k;
                if i < kept.len() {
                    assert(kept[i].key == k);
                    assert(has_key(init, k));
                    let j = choose|j: int| 0 <= j < init.len() && (#[trigger] init[j]).key == k;
                    assert(s[j].key == k);
                } else {
                    assert(s[s.len() - 1].key == k);
                }
            }
            if has_key(s, k) {
                let j = choose|j: int| 0 <= j < s.len() && (#[trigger] s[j]).key == k;
                if j < init.len() {
                    assert(init[j].key == k);
                    assert(has_key(init, k));
                    assert(has_key(kept, k));
                    let i = choose|i: int| 0 <= i < kept.len() && (#[trigger] kept[i]).key == k;
                    assert(r[i].key == k);
                } else if has_key(kept, x.key) {
                } else {
                    assert(r[r.len() - 1].key == k);
                }
            }
        }
        assert forall|i: int| 0 <= i < r.len() implies s.contains(#[trigger] r[i]) by {
            if i < kept.len() {
                assert(init.contains(kept[i]));
                let j = choose|j: int| 0 <= j < init.len() && init[j] == kept[i];
                assert(s[j] == r[i]);
            } else {
                assert(s[s.len() - 1] == r[i]);
            }
        }
        if in_order(s) {
            assert(in_order(init));
            assert forall|i: int, j: int| 0 <= i < j < r.len() implies #[trigger] item_order()(
                r[i],
                r[j],
            ) by {
                if j < kept.len() {
                    assert(item_order()(kept[i], kept[j]));
                } else {
                    assert(init.contains(kept[i]));
                    let m = choose|m: int| 0 <= m < init.len() && init[m] == kept[i];
                    assert(item_order()(s[m], s[s.len() - 1]));
                }
            }
        }
        if keys_distinct(s) {
            assert(keys_distinct(init));
            if has_key(kept, x.key) {
                let j = choose|j: int| 0 <= j < init.len() && (#[trigger] init[j]).key == x.key;
                assert(s[j].key == s[s.len() - 1].key);
            }
            assert(init.push(x) =~= s);
        }
    } else {
        assert(r =~= s);
    }
}

/// `item` stands in `s` at a position before which no item has its key.
pub open spec fn is_first_of_its_key(s: Seq<ItemView>, item: ItemView) -> bool {
    exists|p: int|
        0 <= p < s.len() && #[trigger] s[p] == item && forall|q: int|
            0 <= q < p ==> (#[trigger] s[q]).key != item.key
}

/// Each kept item is the first of `s` with its key.
pub proof fn lemma_kept_is_first(s: Seq<ItemView>)
    ensures
        forall|i: int|
            0 <= i < first_of_each_key(s).len() ==> is_first_of_its_key(
                s,
                #[trigger] first_of_each_key(s)[i],
            ),
    decreases s.len(),
{
    let r = first_of_each_key(s);
    if s.len() > 0 {
        let init = s.drop_last();
        let kept = first_of_each_key(init);
        lemma_kept_is_first(init);
        lemma_first_of_each_key(init);
        assert forall|i: int| 0 <= i < r.len() implies is_first_of_its_key(s, #[trigger] r[i]) by {
            if i < kept.len() {
                assert(is_first_of_its_key(init, kept[i]));
                let p = choose|p: int|
                    0 <= p < init.len() && #[trigger] init[p] == kept[i] && forall|q: int|
                        0 <= q < p ==> (#[trigger] init[q]).key != kept[i].key;
                assert(s[p] == r[i]);
                assert forall|q: int| 0 <= q < p implies (#[trigger] s[q]).key != r[i].key by {
                    assert(init[q].key != kept[i].key);
                }
            } else {
                let p = s.len() - 1;
                assert(s[p] == r[i]);
                assert forall|q: int| 0 <= q < p implies (#[trigger] s[q]).key != r[i].key by {
                    if s[q].key == r[i].key {
                        assert(init[q].key == s.last().key);
                        assert(has_key(init, s.last().key));
                    }
                }
            }
        }
    }
}

/// Each key of `s` is the key of exactly one kept item.
pub proof fn lemma_first_of_each_key_count(s: Seq<ItemView>, k: Seq<u8>)
    ensures
        key_count(first_of_each_key(s), k) == if has_key(s, k) {
            1nat
        } else {
            0nat
        },
    decreases s.len(),
{
    lemma_first_of_each_key(s);
    if s.len() > 0 {
        let init = s.drop_last();
        let kept = first_of_each_key(init);
        lemma_first_of_each_key(init);
        lemma_first_of_each_key_count(init, k);
        if has_key(kept, s.last().key) {
            assert(has_key(init, k) ==> has_key(s, k)) by {
                if has_key(init, k) {
                    let j = choose|j: int| 0 <= j < init.len() && (#[trigger] init[j]).key == k;
                    assert(s[j].key == k);
                }
            }
            if has_key(s, k) && !has_key(init, k) {
                let j = choose|j: int| 0 <= j < s.len() && (#[trigger] s[j]).key == k;
                if j < init.len() {
                    assert(init[j].key == k);
                }
            }
        } else {
            let r = kept.push(s.last());
            assert(r.drop_last() =~= kept);
            if s.last().key == k {
                assert(s[s.len() - 1].key == k);
            } else {
                if has_key(init, k) {
                    let j = choose|j: int| 0 <= j < init.len() && (#[trigger] init[j]).key == k;
                    assert(s[j].key == k);
                }
                if has_key(s, k) {
                    let j = choose|j: int| 0 <= j < s.len() && (#[trigger] s[j]).key == k;
                    assert(init[j].key == k);
                }
            }
        }
    }
}

/// A merge is in display order, holds one item for each key of what went
/// in and nothing that did not go in, and loses nothing where no key
/// occurred twice.
pub proof fn lemma_merged(all: Seq<ItemView>)
    ensures
        in_order(merged(all)),
        keys_distinct(merged(all)),
        merged(all).len() <= all.len(),
        forall|k: Seq<u8>| has_key(merged(all), k) <==> has_key(all, k),
        forall|i: int| 0 <= i < merged(all).len() ==> all.contains(#[trigger] merged(all)[i]),
        keys_distinct(all) ==> merged(all).to_multiset() == all.to_multiset(),
{
    broadcast use group_to_multiset_ensures;

    let t = sorted_items(all);
    lemma_sorted_items(all);
    lemma_first_of_each_key(t);
    let m = merged(all);
    assert forall|k: Seq<u8>| has_key(m, k) <==> has_key(all, k) by {
        assert(has_key(m, k) <==> has_key(t, k));
    }
    assert forall|i: int| 0 <= i < m.len() implies all.contains(#[trigger] m[i]) by {
        assert(t.contains(m[i]));
        assert(all.to_multiset().count(m[i]) > 0);
    }
    if keys_distinct(all) {
        assert forall|i: int, j: int| 0 <= i < j < t.len() implies (#[trigger] t[i]).key != (
        #[trigger] t[j]).key by {
            lemma_sorted_keys_distinct(all, i, j);
        }
    }
}

/// Of the items that share a key, a merge keeps the one that comes first
/// in display order: whatever went in with the key of an item that came
/// out comes no earlier than that item.
pub proof fn lemma_merge_keeps_the_first(all: Seq<ItemView>, i: int, j: int)
    requires
        0 <= i < merged(all).len(),
        0 <= j < all.len(),
        all[j].key == merged(all)[i].key,
    ensures
        item_leq(merged(all)[i], all[j]),
{
    broadcast use group_to_multiset_ensures;

    let t = sorted_items(all);
    let m = merged(all);
    lemma_sorted_items(all);
    lemma_kept_is_first(t);
    assert(is_first_of_its_key(t, m[i]));
    let p = choose|p: int|
        0 <= p < t.len() && #[trigger] t[p] == m[i] && forall|q: int|
            0 <= q < p ==> (#[trigger] t[q]).key != m[i].key;
    assert(all.contains(all[j]));
    assert(t.to_multiset().count(all[j]) > 0);
    assert(t.contains(all[j]));
    let k = choose|k: int| 0 <= k < t.len() && t[k] == all[j];
    if k < p {
        assert(t[k].key != m[i].key);
    } else if p < k {
        assert(item_order()(t[p], t[k]));
    }
}

/// In a row of items that is in display order and in which no key occurs
/// twice, each item is newer than every later one, or as new and with the
/// lesser key.
pub proof fn lemma_order_of_distinct_keys(s: Seq<ItemView>, i: int, j: int)
    requires
        in_order(s),
        keys_distinct(s),
        0 <= i < j < s.len(),
    ensures
        s[i].published > s[j].published || (s[i].published == s[j].published && lex_lt(
            s[i].key,
            s[j].key,
        )),
{
    assert(item_order()(s[i], s[j]));
    assert(s[i].key != s[j].key);
}

/// A merge gives no item without a key where none went in.
pub proof fn lemma_merged_keys_present(all: Seq<ItemView>)
    requires
        keys_present(all),
    ensures
        keys_present(merged(all)),
{
    lemma_merged(all);
    let m = merged(all);
    assert forall|i: int| 0 <= i < m.len() implies (#[trigger] m[i]).key.len() > 0 by {
        assert(all.contains(m[i]));
        let j = choose|j: int| 0 <= j < all.len() && all[j] == m[i];
        assert(all[j].key.len() > 0);
    }
}

proof fn lemma_sorted_keys_distinct(all: Seq<ItemView>, i: int, j: int)
    requires
        keys_distinct(all),
        0 <= i < j < sorted_items(all).len(),
    ensures
        sorted_items(all)[i].key != sorted_items(all)[j].key,
{
    broadcast use group_to_multiset_ensures;

    let t = sorted_items(all);
    lemma_sorted_items(all);
    if t[i].key == t[j].key {
        assert(t.contains(t[i]));
        assert(t.contains(t[j]));
        assert(all.to_multiset().count(t[i]) > 0);
        assert(all.to_multiset().count(t[j]) > 0);
        let a = choose|a: int| 0 <= a < all.len() && all[a] == t[i];
        let b = choose|b: int| 0 <= b < all.len() && all[b] == t[j];
        if a == b {
            // one item of `all` stands twice in `t`
            assert(t[i] == t[j]);
            let u = t.remove(j);
            assert(u[i] == t[i]);
            assert(u.contains(t[i]));
            assert(u.to_multiset().count(t[i]) > 0);
            assert(t.to_multiset().count(t[i]) >= 2);
            lemma_distinct_keys_count_once(all, a);
        } else if a < b {
            assert(all[a].key != all[b].key);
        } else {
            assert(all[b].key != all[a].key);
        }
    }
}

proof fn lemma_distinct_keys_count_once(s: Seq<ItemView>, a: int)
    requires
        keys_distinct(s),
        0 <= a < s.len(),
    ensures
        s.to_multiset().count(s[a]) == 1,
{
    broadcast use group_to_multiset_ensures;

    let u = s.remove(a);
    if u.contains(s[a]) {
        let b = choose|b: int| 0 <= b < u.len() && u[b] == s[a];
        if b < a {
            assert(s[b].key == s[a].key);
        } else {
            assert(s[b + 1].key == s[a].key);
        }
    }
    assert(u.to_multiset().count(s[a]) == 0);
}

/// The outcome of a merge depends on which items went in and how often,
/// not on the order in which they arrived.
pub proof fn lemma_merge_order_independent(a: Seq<ItemView>, b: Seq<ItemView>)
    requires
        a.to_multiset() == b.to_multiset(),
    ensures
        merged(a) == merged(b),
{
    lemma_sorted_items(a);
    lemma_sorted_is_unique(b, sorted_items(a));
}

/// Where two of the items that go in share a key, exactly one item with
/// that key comes out.
pub proof fn lemma_merge_dedups(all: Seq<ItemView>, i: int, j: int)
    requires
        0 <= i < all.len(),
        0 <= j < all.len(),
        i != j,
        all[i].key == all[j].key,
    ensures
        key_count(merged(all), all[i].key) == 1,
{
    lemma_sorted_items(all);
    assert(has_key(all, all[i].key));
    lemma_first_of_each_key_count(sorted_items(all), all[i].key);
}


/// Where `x` goes among the ordered `sorted`: behind every item that comes
/// before it, and before every other. The place is found by halving.
fn place_of(sorted: &Vec<NormalizedItem>, x: &NormalizedItem) -> (pos: usize)
    requires
        in_order(item_views(sorted@)),
    ensures
        pos <= sorted.len(),
        in_order(item_views(sorted@).insert(pos as int, x@)),
{
    let ghost views = item_views(sorted@);
    let mut lo: usize = 0;
    let mut hi: usize = sorted.len();
    while lo < hi
        invariant
            lo <= hi <= sorted.len(),
            views == item_views(sorted@),
            in_order(views),
            forall|j: int| 0 <= j < lo ==> item_before(#[trigger] views[j], x@),
            forall|j: int| hi <= j < views.len() ==> item_leq(x@, #[trigger] views[j]),
        decreases hi - lo,
    {
        let mid = lo + (hi - lo) / 2;
        if precedes(&sorted[mid], x) {
            proof {
                assert forall|j: int| 0 <= j < mid + 1 implies item_before(#[trigger] views[j], x@) by {
                    if j < mid {
                        assert(item_order()(views[j], views[mid as int]));
                        if views[j] != views[mid as int] {
                            lemma_item_before_transitive(views[j], views[mid as int], x@);
                        }
                    }
                }
            }
            lo = mid + 1;
        } else {
            proof {
                lemma_item_trichotomy(views[mid as int], x@);
                assert forall|j: int| mid <= j < views.len() implies item_leq(
                    x@,
                    #[trigger] views[j],
                ) by {
                    if j > mid {
                        assert(item_order()(views[mid as int], views[j]));
                        if x@ != views[mid as int] && views[mid as int] != views[j] {
                            lemma_item_before_transitive(x@, views[mid as int], views[j]);
                        }
                    }
                }
            }
            hi = mid;
        }
    }
    proof {
        let after = views.insert(lo as int, x@);
        assert forall|i: int, j: int| 0 <= i < j < after.len() implies #[trigger] item_order()(
            after[i],
            after[j],
        ) by {
            if j < lo {
                assert(item_order()(views[i], views[j]));
            } else if j == lo {
                assert(item_before(views[i], x@));
            } else if i < lo {
                assert(item_order()(views[i], views[j - 1]));
            } else if i == lo {
                assert(item_leq(x@, views[j - 1]));
            } else {
                assert(item_order()(views[i - 1], views[j - 1]));
            }
        }
    }
    lo
}

/// Brings items into display order.
pub fn sort_items(items: Vec<NormalizedItem>) -> (sorted: Vec<NormalizedItem>)
    ensures
        item_views(sorted@) == sorted_items(item_views(items@)),
        in_order(item_views(sorted@)),
        item_views(sorted@).to_multiset() == item_views(items@).to_multiset(),
        sorted.len() == items.len(),
{
    broadcast use {group_to_multiset_ensures, vstd::multiset::group_multiset_axioms};

    let mut input = items;
    let mut sorted: Vec<NormalizedItem> = Vec::new();
    proof {
        assert(item_views(sorted@) =~= Seq::<ItemView>::empty());
        assert(item_views(sorted@).to_multiset().len() == 0);
        assert(item_views(sorted@).to_multiset().add(item_views(input@).to_multiset())
            =~= item_views(items@).to_multiset());
    }
    while input.len() > 0
        invariant
            in_order(item_views(sorted@)),
            item_views(sorted@).to_multiset().add(item_views(input@).to_multiset()) == item_views(
                items@,
            ).to_multiset(),
            sorted.len() + input.len() == items.len(),
        decreases input.len(),
    {
        let ghost before = input@;
        let ghost sorted_before = sorted@;
        match input.pop() {
            Some(x) => {
                let pos = place_of(&sorted, &x);
                sorted.insert(pos, x);
                proof {
                    assert(item_views(before) =~= item_views(input@).push(x@));
                    assert(item_views(sorted@) =~= item_views(sorted_before).insert(
                        pos as int,
                        x@,
                    ));
                    let sv = item_views(sorted_before);
                    let iv = item_views(input@);
                    vstd::seq_lib::to_multiset_insert(sv, pos as int, x@);
                    vstd::seq_lib::to_multiset_build(iv, x@);
                    assert(sv.to_multiset().insert(x@).add(iv.to_multiset()) =~= sv.to_multiset().add(
                        iv.to_multiset().insert(x@),
                    ));
                }
            },
            None => {},
        }
    }
    proof {
        assert(item_views(input@) =~= Seq::<ItemView>::empty());
        assert(item_views(input@).to_multiset().len() == 0);
        assert(item_views(sorted@).to_multiset() =~= item_views(items@).to_multiset());
        lemma_sorted_is_unique(item_views(items@), item_views(sorted@));
    }
    sorted
}

/// Whether one of `items` has the key `key`.
pub fn holds_key(items: &Vec<NormalizedItem>, key: &Vec<u8>) -> (r: bool)
    ensures
        r == has_key(item_views(items@), key@),
{
    let mut i: usize = 0;
    while i < items.len()
        invariant
            i <= items.len(),
            forall|j: int| 0 <= j < i ==> (#[trigger] item_views(items@)[j]).key != key@,
        decreases items.len() - i,
    {
        if bytes_equal(items[i].key.as_slice(), key.as_slice()) {
            assert(item_views(items@)[i as int].key == key@);
            return true;
        }
        i += 1;
    }
    false
}

/// Drops every item whose key an earlier item has.
pub fn keep_first_of_each_key(items: Vec<NormalizedItem>) -> (kept: Vec<NormalizedItem>)
    ensures
        item_views(kept@) == first_of_each_key(item_views(items@)),
        keys_distinct(item_views(kept@)),
{
    let ghost all = item_views(items@);
    let n = items.len();
    // turned round, so that the items come off the end in their own order
    let mut input = items;
    let mut stack: Vec<NormalizedItem> = Vec::new();
    while input.len() > 0
        invariant
            stack.len() + input.len() == n,
            n == all.len(),
            forall|j: int| 0 <= j < input.len() ==> (#[trigger] input@[j])@ == all[j],
            forall|j: int| 0 <= j < stack.len() ==> (#[trigger] stack@[j])@ == all[n - 1 - j],
        decreases input.len(),
    {
        match input.pop() {
            Some(x) => {
                stack.push(x);
            },
            None => {},
        }
    }
    let mut kept: Vec<NormalizedItem> = Vec::new();
    proof {
        assert(all.take(0) =~= Seq::<ItemView>::empty());
        assert(item_views(kept@) =~= Seq::<ItemView>::empty());
    }
    while stack.len() > 0
        invariant
            stack.len() <= n,
            n == all.len(),
            forall|j: int| 0 <= j < stack.len() ==> (#[trigger] stack@[j])@ == all[n - 1 - j],
            item_views(kept@) == first_of_each_key(all.take(n - stack.len())),
        decreases stack.len(),
    {
        let ghost done = n - stack.len();
        let ghost kept_before = kept@;
        match stack.pop() {
            Some(x) => {
                proof {
                    assert(x@ == all[done]);
                    assert(all.take(done + 1).drop_last() =~= all.take(done));
                    assert(all.take(done + 1).last() == all[done]);
                }
                if !holds_key(&kept, &x.key) {
                    kept.push(x);
                    proof {
                        assert(item_views(kept@) =~= item_views(kept_before).push(x@));
                    }
                }
            },
            None => {},
        }
    }
    proof {
        assert(all.take(n as int) =~= all);
        lemma_first_of_each_key(all);
    }
    kept
}

/// Merges the items of all sources: display order, and one item for each
/// identity key, the first in that order.
pub fn merge_items(all: Vec<NormalizedItem>) -> (items: Vec<NormalizedItem>)
    ensures
        item_views(items@) == merged(item_views(all@)),
        in_order(item_views(items@)),
        keys_distinct(item_views(items@)),
        items.len() <= all.len(),
        forall|k: Seq<u8>| has_key(item_views(items@), k) <==> has_key(item_views(all@), k),
        forall|i: int|
            0 <= i < items.len() ==> item_views(all@).contains(#[trigger] item_views(items@)[i]),
        keys_distinct(item_views(all@)) ==> item_views(items@).to_multiset() == item_views(
            all@,
        ).to_multiset(),
        keys_present(item_views(all@)) ==> keys_present(item_views(items@)),
{
    proof {
        lemma_merged(item_views(all@));
        if keys_present(item_views(all@)) {
            lemma_merged_keys_present(item_views(all@));
        }
    }
    let sorted = sort_items(all);
    keep_first_of_each_key(sorted)
}

} // verus!
