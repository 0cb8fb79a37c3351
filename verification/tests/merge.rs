use feed_aggregator::item::NormalizedItem;
use feed_aggregator::merge::{holds_key, keep_first_of_each_key, merge_items, sort_items};
use feed_aggregator::order::precedes;

fn item(key: &str, title: &str, published: i64) -> NormalizedItem {
    NormalizedItem {
        key: key.as_bytes().to_vec(),
        title: title.as_bytes().to_vec(),
        body: Vec::new(),
        published,
        undated: false,
        source: b"s".to_vec(),
        link: Vec::new(),
    }
}

fn keys(items: &Vec<NormalizedItem>) -> Vec<String> {
    items.iter().map(|i| String::from_utf8(i.key.clone()).unwrap()).collect()
}

#[test]
fn newer_items_come_first() {
    let sorted = sort_items(vec![item("a", "", 10), item("b", "", 30), item("c", "", 20)]);
    assert_eq!(keys(&sorted), vec!["b", "c", "a"]);
}

#[test]
fn ties_in_time_go_by_key_ascending() {
    let sorted = sort_items(vec![item("m", "", 5), item("b", "", 5), item("z", "", 5), item("a", "", 5)]);
    assert_eq!(keys(&sorted), vec!["a", "b", "m", "z"]);
}

#[test]
fn sorting_keeps_every_item() {
    let sorted = sort_items(vec![item("a", "", 1), item("a", "", 1), item("b", "", 2)]);
    assert_eq!(keys(&sorted), vec!["b", "a", "a"]);
}

#[test]
fn sorting_nothing_gives_nothing() {
    assert_eq!(sort_items(Vec::new()), Vec::new());
    assert_eq!(merge_items(Vec::new()), Vec::new());
}

#[test]
fn order_goes_by_every_field_in_turn() {
    let base = item("k", "t", 1);
    let mut other = base.clone();
    assert!(!precedes(&base, &other));
    other.published = 0;
    assert!(precedes(&base, &other));
    assert!(!precedes(&other, &base));
    let mut other = base.clone();
    other.key = b"l".to_vec();
    assert!(precedes(&base, &other));
    let mut other = base.clone();
    other.title = b"u".to_vec();
    assert!(precedes(&base, &other));
    let mut other = base.clone();
    other.body = b"x".to_vec();
    assert!(precedes(&base, &other));
    let mut other = base.clone();
    other.link = b"x".to_vec();
    assert!(precedes(&base, &other));
    let mut other = base.clone();
    other.source = b"t".to_vec();
    assert!(precedes(&base, &other));
    let mut other = base.clone();
    other.undated = true;
    assert!(precedes(&base, &other));
    assert!(!precedes(&other, &base));
}

#[test]
fn one_item_is_kept_for_each_key() {
    let kept = keep_first_of_each_key(vec![
        item("a", "first", 3),
        item("b", "", 2),
        item("a", "second", 1),
        item("b", "again", 0),
        item("c", "", 0),
    ]);
    assert_eq!(keys(&kept), vec!["a", "b", "c"]);
    assert_eq!(kept[0].title, b"first".to_vec());
    assert_eq!(kept[1].title, b"".to_vec());
}

#[test]
fn a_key_is_found_among_items() {
    let items = vec![item("a", "", 1), item("b", "", 2)];
    assert!(holds_key(&items, &b"a".to_vec()));
    assert!(holds_key(&items, &b"b".to_vec()));
    assert!(!holds_key(&items, &b"c".to_vec()));
    assert!(!holds_key(&Vec::new(), &b"a".to_vec()));
}

#[test]
fn merge_keeps_the_newest_of_two_items_with_one_key() {
    let merged = merge_items(vec![item("a", "old", 1), item("b", "", 5), item("a", "new", 9)]);
    assert_eq!(keys(&merged), vec!["a", "b"]);
    assert_eq!(merged[0].title, b"new".to_vec());
    assert_eq!(merged[0].published, 9);
}

#[test]
fn merge_of_two_drafts_with_one_key_has_exactly_one_item_with_it() {
    let merged = merge_items(vec![item("dup", "x", 1), item("other", "", 1), item("dup", "y", 1)]);
    let count = merged.iter().filter(|i| i.key == b"dup".to_vec()).count();
    assert_eq!(count, 1);
    assert_eq!(merged.len(), 2);
    assert_eq!(merged[0].title, b"x".to_vec());
}

#[test]
fn merge_without_duplicates_keeps_everything() {
    let merged = merge_items(vec![item("a", "", 1), item("b", "", 2), item("c", "", 3)]);
    assert_eq!(keys(&merged), vec!["c", "b", "a"]);
}

#[test]
fn merge_does_not_depend_on_the_order_of_arrival() {
    let a = item("a", "one", 5);
    let a2 = item("a", "two", 5);
    let b = item("b", "", 7);
    let c = item("c", "", 5);
    let d = item("d", "", 1);
    let expected = merge_items(vec![a.clone(), a2.clone(), b.clone(), c.clone(), d.clone()]);
    assert_eq!(keys(&expected), vec!["b", "a", "c", "d"]);
    assert_eq!(expected[1].title, b"one".to_vec());
    let orders: Vec<Vec<usize>> = vec![
        vec![4, 3, 2, 1, 0],
        vec![1, 0, 2, 3, 4],
        vec![2, 4, 1, 3, 0],
        vec![3, 1, 4, 0, 2],
        vec![0, 2, 4, 1, 3],
    ];
    let all = vec![a, a2, b, c, d];
    for order in orders {
        let arrived: Vec<NormalizedItem> = order.iter().map(|i| all[*i].clone()).collect();
        assert_eq!(merge_items(arrived), expected);
    }
}

#[test]
fn merge_run_twice_gives_the_same() {
    let input = vec![item("x", "", 2), item("y", "", 2), item("x", "later", 3)];
    assert_eq!(merge_items(input.clone()), merge_items(input));
}
