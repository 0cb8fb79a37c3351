use feed_aggregator::format::{FormatKind, Malformation};
use feed_aggregator::parse::parse;
use feed_aggregator::item::ItemDraft;
use feed_aggregator::markup::{find_bytes, find_name_end, matches_at, tokenize, Token, TokenKind};

fn draft(title: &str, body: &str, link: &str, date: &str) -> ItemDraft {
    ItemDraft {
        title: title.as_bytes().to_vec(),
        body: body.as_bytes().to_vec(),
        link: link.as_bytes().to_vec(),
        date: date.as_bytes().to_vec(),
    }
}

fn tok(kind: TokenKind, start: usize, end: usize) -> Token {
    Token { kind, start, end }
}

#[test]
fn tokens_of_a_small_document() {
    let tokens = tokenize(b"<a x=\"1\">hi<b/></a>").unwrap();
    assert_eq!(
        tokens,
        vec![
            tok(TokenKind::Open, 1, 8),
            tok(TokenKind::Text, 9, 11),
            tok(TokenKind::Empty, 12, 13),
            tok(TokenKind::Close, 17, 18),
        ]
    );
}

#[test]
fn tokens_of_nothing() {
    assert_eq!(tokenize(b""), Some(Vec::new()));
}

#[test]
fn text_alone_is_one_token() {
    assert_eq!(tokenize(b"hello"), Some(vec![tok(TokenKind::Text, 0, 5)]));
}

#[test]
fn comments_instructions_and_declarations_are_passed_over() {
    let tokens = tokenize(b"<?xml version=\"1.0\"?><!DOCTYPE rss><!-- <x> --><a></a>").unwrap();
    assert_eq!(tokens, vec![tok(TokenKind::Open, 48, 49), tok(TokenKind::Close, 52, 53)]);
}

#[test]
fn cdata_is_text() {
    let tokens = tokenize(b"<a><![CDATA[x < y > z]]></a>").unwrap();
    assert_eq!(
        tokens,
        vec![tok(TokenKind::Open, 1, 2), tok(TokenKind::Text, 12, 21), tok(TokenKind::Close, 26, 27)]
    );
}

#[test]
fn markup_that_nothing_closes_is_broken() {
    assert_eq!(tokenize(b"<a"), None);
    assert_eq!(tokenize(b"<a><!-- no end"), None);
    assert_eq!(tokenize(b"<a><![CDATA[ no end"), None);
    assert_eq!(tokenize(b"<?xml no end"), None);
    assert_eq!(tokenize(b"text <"), None);
}

#[test]
fn tags_without_a_name_are_broken() {
    assert_eq!(tokenize(b"<>"), None);
    assert_eq!(tokenize(b"</>"), None);
    assert_eq!(tokenize(b"< a>"), None);
    assert_eq!(tokenize(b"</ a>"), None);
    assert_eq!(tokenize(b"</>"), None);
}

#[test]
fn bytes_are_searched() {
    assert_eq!(find_bytes(b"abcabc", b"bc", 0), Some(1));
    assert_eq!(find_bytes(b"abcabc", b"bc", 2), Some(4));
    assert_eq!(find_bytes(b"abcabc", b"bc", 5), None);
    assert_eq!(find_bytes(b"abcabc", b"BC", 0), None);
    assert_eq!(find_bytes(b"abc", b"abcd", 0), None);
    assert_eq!(find_bytes(b"abc", b"c", 9), None);
    assert!(matches_at(b"abc", b"bc", 1));
    assert!(!matches_at(b"abc", b"bc", 2));
    assert!(!matches_at(b"abc", b"bc", 7));
    assert_eq!(find_name_end(b"<link href='x'>", 1, 14), 5);
    assert_eq!(find_name_end(b"<link>", 1, 5), 5);
}

#[test]
fn rss_items_are_read() {
    let payload = b"<?xml version=\"1.0\" encoding=\"UTF-8\"?>\n<rss version=\"2.0\">\n<channel>\n<title>Channel</title>\n<link>https://example.com/</link>\n<description>About</description>\n<item>\n<title>First</title>\n<link>https://example.com/1</link>\n<description>One &amp; only</description>\n<pubDate>Tue, 02 Jan 2024 00:00:00 GMT</pubDate>\n<guid>g1</guid>\n</item>\n<item><title>Second</title><dc:date>2024-01-01T00:00:00Z</dc:date></item>\n</channel>\n</rss>\n";
    let drafts = parse(FormatKind::Rss, payload).unwrap();
    assert_eq!(
        drafts,
        vec![
            draft("First", "One &amp; only", "https://example.com/1", "Tue, 02 Jan 2024 00:00:00 GMT"),
            draft("Second", "", "", "2024-01-01T00:00:00Z"),
        ]
    );
}

#[test]
fn atom_entries_are_read() {
    let payload = b"<?xml version=\"1.0\"?><feed xmlns=\"http://www.w3.org/2005/Atom\"><title>Feed</title><link href=\"https://example.com/\"/><updated>2024-01-05T00:00:00Z</updated><entry><title>First</title><link rel=\"alternate\" href=\"https://example.com/1\"/><link href=\"https://example.com/other\"/><id>urn:1</id><updated>2024-01-02T00:00:00Z</updated><published>2024-01-01T00:00:00Z</published><summary>Short</summary><content type=\"html\">Long</content></entry><entry><title>Second</title><link href='https://example.com/2'></link><content>Body</content></entry></feed>";
    let drafts = parse(FormatKind::Atom, payload).unwrap();
    assert_eq!(
        drafts,
        vec![
            draft("First", "Short", "https://example.com/1", "2024-01-02T00:00:00Z"),
            draft("Second", "Body", "https://example.com/2", ""),
        ]
    );
}

#[test]
fn a_feed_without_entries_is_no_error() {
    assert_eq!(parse(FormatKind::Rss, b"<rss><channel><title>Empty</title></channel></rss>"), Ok(Vec::new()));
    assert_eq!(parse(FormatKind::Rss, b"<rss/>"), Ok(Vec::new()));
    assert_eq!(parse(FormatKind::Atom, b"<feed></feed>"), Ok(Vec::new()));
    assert_eq!(parse(FormatKind::Atom, b"<?xml version=\"1.0\"?>\n<feed xmlns=\"x\"/>\n"), Ok(Vec::new()));
}

#[test]
fn cdata_and_nested_markup_give_text() {
    let payload = b"<rss><channel><item><title><![CDATA[A <b>bold</b> title]]></title><description>x<p>y</p>z</description></item></channel></rss>";
    assert_eq!(parse(FormatKind::Rss, payload), Ok(vec![draft("A <b>bold</b> title", "xyz", "", "")]));
}

#[test]
fn the_first_of_two_children_for_one_field_counts() {
    let payload = b"<rss><channel><item><title>One</title><title>Two</title><link>a</link><link>b</link></item></channel></rss>";
    assert_eq!(parse(FormatKind::Rss, payload), Ok(vec![draft("One", "", "a", "")]));
}

#[test]
fn fields_outside_an_item_are_not_taken() {
    let payload = b"<rss><channel><title>Channel</title><item><media><title>Inner</title></media></item><title>After</title></channel></rss>";
    assert_eq!(parse(FormatKind::Rss, payload), Ok(vec![draft("", "", "", "")]));
}

#[test]
fn atom_link_without_href_gives_no_link() {
    let payload = b"<feed><entry><link rel=\"self\"/><title>T</title></entry><entry><link href=\"unclosed/></entry><entry><link href=x /></entry></feed>";
    assert_eq!(
        parse(FormatKind::Atom, payload),
        Ok(vec![draft("T", "", "", ""), draft("", "", "", ""), draft("", "", "", "")])
    );
}

#[test]
fn rss_link_element_is_text_and_atom_link_is_an_attribute() {
    assert_eq!(
        parse(FormatKind::Rss, b"<rss><item><link href=\"h\">t</link></item></rss>"),
        Ok(vec![draft("", "", "t", "")])
    );
    assert_eq!(
        parse(FormatKind::Atom, b"<feed><entry><link href=\"h\">t</link></entry></feed>"),
        Ok(vec![draft("", "", "h", "")])
    );
}

#[test]
fn broken_markup_is_malformed() {
    assert_eq!(parse(FormatKind::Rss, b"<rss><channel><item><title>x</title"), Err(Malformation::BrokenMarkup));
    assert_eq!(parse(FormatKind::Atom, b"<feed><!-- "), Err(Malformation::BrokenMarkup));
}

#[test]
fn another_root_is_malformed() {
    assert_eq!(parse(FormatKind::Rss, b"<feed></feed>"), Err(Malformation::WrongRoot));
    assert_eq!(parse(FormatKind::Atom, b"<rss></rss>"), Err(Malformation::WrongRoot));
    assert_eq!(parse(FormatKind::Rss, b"<html><body/></html>"), Err(Malformation::WrongRoot));
    assert_eq!(parse(FormatKind::Rss, b""), Err(Malformation::WrongRoot));
    assert_eq!(parse(FormatKind::Rss, b"just text"), Err(Malformation::WrongRoot));
    assert_eq!(parse(FormatKind::Rss, b"<rss></rss><rss></rss>"), Err(Malformation::WrongRoot));
    assert_eq!(parse(FormatKind::Rss, b"<rss/><rss/>"), Err(Malformation::WrongRoot));
    assert_eq!(parse(FormatKind::Rss, b"<RSS></RSS>"), Err(Malformation::WrongRoot));
}

#[test]
fn an_end_tag_for_another_element_is_malformed() {
    assert_eq!(parse(FormatKind::Rss, b"<rss><channel></rss></channel>"), Err(Malformation::Mismatch));
    assert_eq!(parse(FormatKind::Rss, b"<rss><item><title>x</item></rss>"), Err(Malformation::Mismatch));
    assert_eq!(parse(FormatKind::Rss, b"</rss>"), Err(Malformation::Mismatch));
    assert_eq!(parse(FormatKind::Rss, b"<rss></rss></rss>"), Err(Malformation::Mismatch));
}

#[test]
fn an_element_left_open_is_malformed() {
    assert_eq!(parse(FormatKind::Rss, b"<rss><channel><item><title>x</title></item>"), Err(Malformation::Unclosed));
    assert_eq!(parse(FormatKind::Atom, b"<feed>"), Err(Malformation::Unclosed));
}

#[test]
fn a_malformed_feed_gives_no_partial_list() {
    let payload = b"<rss><channel><item><title>Good</title></item><item><title>Bad</item></channel></rss>";
    assert_eq!(parse(FormatKind::Rss, payload), Err(Malformation::Mismatch));
}

#[test]
fn end_tags_may_hold_white_space_behind_the_name() {
    assert_eq!(parse(FormatKind::Rss, b"<rss ><item ><title >x</title ></item ></rss >"), Ok(vec![draft("x", "", "", "")]));
}
