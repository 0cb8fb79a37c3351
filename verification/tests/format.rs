use feed_aggregator::format::{detect, find_mention, format_named, sniff, FormatKind};

#[test]
fn hint_is_trusted_first() {
    assert_eq!(detect(Some(FormatKind::Atom), b"application/rss+xml", b"<rss>"), Some(FormatKind::Atom));
    assert_eq!(detect(Some(FormatKind::Rss), b"", b""), Some(FormatKind::Rss));
}

#[test]
fn content_type_is_trusted_next() {
    assert_eq!(detect(None, b"application/rss+xml", b"<feed>"), Some(FormatKind::Rss));
    assert_eq!(detect(None, b"application/atom+xml; charset=utf-8", b"<rss>"), Some(FormatKind::Atom));
    assert_eq!(detect(None, b"Application/RSS+XML", b""), Some(FormatKind::Rss));
    assert_eq!(detect(None, b"APPLICATION/ATOM+XML", b""), Some(FormatKind::Atom));
}

#[test]
fn payload_is_sniffed_last() {
    assert_eq!(detect(None, b"text/xml", b"<?xml version=\"1.0\"?>\n<rss version=\"2.0\">"), Some(FormatKind::Rss));
    assert_eq!(detect(None, b"", b"<?xml version=\"1.0\"?><feed xmlns=\"http://www.w3.org/2005/Atom\">"), Some(FormatKind::Atom));
    assert_eq!(detect(None, b"application/xml", b"<RSS>"), Some(FormatKind::Rss));
}

#[test]
fn the_marker_that_comes_first_decides() {
    assert_eq!(detect(None, b"", b"<rss><feed>"), Some(FormatKind::Rss));
    assert_eq!(detect(None, b"", b"<feed><rss>"), Some(FormatKind::Atom));
}

#[test]
fn payload_that_nothing_claims_has_no_format() {
    assert_eq!(detect(None, b"text/html", b"<html><body>hello</body></html>"), None);
    assert_eq!(detect(None, b"", b""), None);
    assert_eq!(detect(None, b"text/plain", b"items: []"), None);
}

#[test]
fn only_the_first_bytes_are_sniffed() {
    let mut far = vec![b' '; 600];
    far.extend_from_slice(b"<rss>");
    assert_eq!(detect(None, b"", &far), None);
    let mut near = vec![b' '; 508];
    near.extend_from_slice(b"<rss>");
    assert_eq!(detect(None, b"", &near), Some(FormatKind::Rss));
    let mut cut = vec![b' '; 509];
    cut.extend_from_slice(b"<rss>");
    assert_eq!(detect(None, b"", &cut), None);
}

#[test]
fn mention_is_found_at_its_first_place() {
    assert_eq!(find_mention(b"xxabcxxabc", 10, b"abc"), Some(2));
    assert_eq!(find_mention(b"xxABCxx", 7, b"abc"), Some(2));
    assert_eq!(find_mention(b"xxabc", 4, b"abc"), None);
    assert_eq!(find_mention(b"xxabc", 5, b"abc"), Some(2));
    assert_eq!(find_mention(b"abc", 3, b"abcd"), None);
    assert_eq!(find_mention(b"", 0, b"a"), None);
    assert_eq!(find_mention(b"abc", 3, b""), Some(0));
}

#[test]
fn json_feed_is_detected() {
    assert_eq!(detect(None, b"application/feed+json", b""), Some(FormatKind::Json));
    assert_eq!(detect(None, b"application/json; charset=utf-8", b"<rss>"), Some(FormatKind::Json));
    assert_eq!(detect(None, b"", b"{\"version\": \"https://jsonfeed.org/version/1.1\"}"), Some(FormatKind::Json));
    assert_eq!(detect(None, b"text/plain", b" \n\t{ \"items\": [] }"), Some(FormatKind::Json));
    assert_eq!(detect(None, b"", b"{ \"note\": \"<rss>\" }"), Some(FormatKind::Json));
    assert_eq!(detect(None, b"", b"[{}]"), None);
    assert_eq!(detect(None, b"", b"x {"), None);
    assert_eq!(detect(Some(FormatKind::Json), b"application/rss+xml", b"<rss>"), Some(FormatKind::Json));
}

#[test]
fn content_type_and_payload_are_read_apart() {
    assert_eq!(format_named(b"application/rss+xml"), Some(FormatKind::Rss));
    assert_eq!(format_named(b"application/atom+xml"), Some(FormatKind::Atom));
    assert_eq!(format_named(b"application/feed+json"), Some(FormatKind::Json));
    assert_eq!(format_named(b"text/xml"), None);
    assert_eq!(format_named(b""), None);
    assert_eq!(sniff(b"<rss>"), Some(FormatKind::Rss));
    assert_eq!(sniff(b"<feed>"), Some(FormatKind::Atom));
    assert_eq!(sniff(b"{"), Some(FormatKind::Json));
    assert_eq!(sniff(b""), None);
    assert_eq!(sniff(b"   "), None);
    let mut far = vec![b' '; 512];
    far.push(b'{');
    assert_eq!(sniff(&far), None);
    let mut near = vec![b' '; 511];
    near.push(b'{');
    assert_eq!(sniff(&near), Some(FormatKind::Json));
}
