use feed_aggregator::bytes::{bytes_equal, bytes_less, copy_of, lower_byte, push_all};
use feed_aggregator::identity::{canonicalize_link, derive_key, hash_bytes, hash_content, FNV_OFFSET};

fn canon(s: &str) -> String {
    String::from_utf8(canonicalize_link(s.as_bytes())).unwrap()
}

#[test]
fn fragment_is_trimmed() {
    assert_eq!(canon("https://example.com/a#section"), "https://example.com/a");
    assert_eq!(canon("https://example.com/a#"), "https://example.com/a");
    assert_eq!(canon("https://example.com/a#x#y"), "https://example.com/a");
}

#[test]
fn trailing_slash_is_trimmed() {
    assert_eq!(canon("https://example.com/a/"), "https://example.com/a");
    assert_eq!(canon("https://example.com/a//"), "https://example.com/a");
    assert_eq!(canon("https://example.com/"), "https://example.com");
}

#[test]
fn slash_before_a_fragment_is_trimmed() {
    assert_eq!(canon("https://example.com/a/#top"), "https://example.com/a");
}

#[test]
fn link_is_read_as_text() {
    assert_eq!(canon("  https://example.com/?a=1&amp;b=2 \n"), "https://example.com/?a=1&b=2");
}

#[test]
fn link_of_nothing_but_fragment_or_slash_is_empty() {
    assert_eq!(canon(""), "");
    assert_eq!(canon("#top"), "");
    assert_eq!(canon("/"), "");
    assert_eq!(canon(" / #x"), "");
}

#[test]
fn canonical_link_is_kept() {
    assert_eq!(canon("https://example.com/a/b?c=d"), "https://example.com/a/b?c=d");
}

#[test]
fn fnv1a_known_values() {
    assert_eq!(hash_bytes(FNV_OFFSET, b""), 0xcbf29ce484222325);
    assert_eq!(hash_bytes(FNV_OFFSET, b"a"), 0xaf63dc4c8601ec8c);
    assert_eq!(hash_bytes(FNV_OFFSET, b"foobar"), 0x85944171f73967e8);
}

#[test]
fn hash_can_be_continued() {
    let h = hash_bytes(FNV_OFFSET, b"foo");
    assert_eq!(hash_bytes(h, b"bar"), 0x85944171f73967e8);
}

#[test]
fn content_hash_known_values() {
    assert_eq!(hash_content(b"a", b"b"), 0xe5d29919042666b2);
    assert_eq!(hash_content(b"Hello", b"World"), 0x4fbce3330b5d7847);
    assert_eq!(hash_content(b"", b""), 0xaf63bd4c8601b7df);
}

#[test]
fn content_hash_tells_title_from_body() {
    assert_ne!(hash_content(b"ab", b""), hash_content(b"a", b"b"));
    assert_ne!(hash_content(b"", b"ab"), hash_content(b"a", b"b"));
}

#[test]
fn key_of_an_item_with_link() {
    let key = derive_key(b"feed-a", b"https://example.com/1", b"t", b"b");
    assert_eq!(String::from_utf8(key).unwrap(), "feed-a|https://example.com/1");
}

#[test]
fn key_of_an_item_without_link() {
    let key = derive_key(b"feed-a", b"", b"Hello", b"World");
    assert_eq!(String::from_utf8(key).unwrap(), "feed-a|#4fbce3330b5d7847");
    let key = derive_key(b"", b"", b"", b"");
    assert_eq!(String::from_utf8(key).unwrap(), "|#af63bd4c8601b7df");
}

#[test]
fn key_is_stable() {
    assert_eq!(derive_key(b"s", b"", b"a", b"b"), derive_key(b"s", b"", b"a", b"b"));
    assert_eq!(derive_key(b"s", b"l", b"a", b"b"), derive_key(b"s", b"l", b"x", b"y"));
}

#[test]
fn key_depends_on_source_and_link() {
    assert_ne!(derive_key(b"s1", b"l", b"", b""), derive_key(b"s2", b"l", b"", b""));
    assert_ne!(derive_key(b"s", b"l1", b"", b""), derive_key(b"s", b"l2", b"", b""));
    assert_ne!(derive_key(b"s", b"", b"a", b""), derive_key(b"s", b"", b"b", b""));
}

#[test]
fn push_all_appends() {
    let mut v = vec![1u8, 2];
    push_all(&mut v, &[3, 4]);
    assert_eq!(v, vec![1, 2, 3, 4]);
    push_all(&mut v, &[]);
    assert_eq!(v, vec![1, 2, 3, 4]);
}

#[test]
fn bytes_are_compared() {
    assert!(bytes_equal(b"", b""));
    assert!(bytes_equal(b"abc", b"abc"));
    assert!(!bytes_equal(b"abc", b"abd"));
    assert!(!bytes_equal(b"abc", b"ab"));
    assert!(bytes_less(b"", b"a"));
    assert!(bytes_less(b"a", b"b"));
    assert!(bytes_less(b"ab", b"abc"));
    assert!(bytes_less(b"abc", b"abd"));
    assert!(bytes_less(b"Z", b"a"));
    assert!(!bytes_less(b"a", b"a"));
    assert!(!bytes_less(b"b", b"a"));
    assert!(!bytes_less(b"abc", b"ab"));
    assert!(!bytes_less(b"", b""));
    assert!(bytes_less(&[0x7f], &[0x80]));
}

#[test]
fn bytes_are_copied_and_lowered() {
    assert_eq!(copy_of(b"abc"), b"abc".to_vec());
    assert_eq!(copy_of(b""), Vec::new());
    assert_eq!(lower_byte(b'A'), b'a');
    assert_eq!(lower_byte(b'Z'), b'z');
    assert_eq!(lower_byte(b'a'), b'a');
    assert_eq!(lower_byte(b'@'), b'@');
    assert_eq!(lower_byte(b'['), b'[');
    assert_eq!(lower_byte(0xC9), 0xC9);
}
