use feed_aggregator::text::normalize_text;

fn norm(s: &str) -> String {
    String::from_utf8(normalize_text(s.as_bytes())).unwrap()
}

#[test]
fn plain_text_is_kept() {
    assert_eq!(norm("Hello, world"), "Hello, world");
}

#[test]
fn empty_text_stays_empty() {
    assert_eq!(norm(""), "");
}

#[test]
fn white_space_only_becomes_empty() {
    assert_eq!(norm(" \t\r\n\x0c "), "");
}

#[test]
fn runs_of_white_space_become_one_space() {
    assert_eq!(norm("  a \t\n b\r\n\r\nc  "), "a b c");
}

#[test]
fn named_references_are_replaced() {
    assert_eq!(norm("Tom &amp; Jerry &lt;3 &gt; &quot;x&quot; &apos;y&apos;"), "Tom & Jerry <3 > \"x\" 'y'");
}

#[test]
fn nbsp_becomes_the_no_break_space() {
    assert_eq!(normalize_text(b"a&nbsp;b"), vec![b'a', 0xC2, 0xA0, b'b']);
}

#[test]
fn decimal_references_are_replaced() {
    assert_eq!(norm("It&#39;s &#65;&#8217;"), "It's A\u{2019}");
}

#[test]
fn hexadecimal_references_are_replaced() {
    assert_eq!(norm("&#x27;&#X41;&#x20ac;&#x1F600;"), "'A\u{20ac}\u{1F600}");
}

#[test]
fn utf8_of_each_length_is_encoded() {
    assert_eq!(normalize_text(b"&#127;"), vec![0x7F]);
    assert_eq!(normalize_text(b"&#128;"), vec![0xC2, 0x80]);
    assert_eq!(normalize_text(b"&#2047;"), vec![0xDF, 0xBF]);
    assert_eq!(normalize_text(b"&#2048;"), vec![0xE0, 0xA0, 0x80]);
    assert_eq!(normalize_text(b"&#65535;"), vec![0xEF, 0xBF, 0xBF]);
    assert_eq!(normalize_text(b"&#65536;"), vec![0xF0, 0x90, 0x80, 0x80]);
    assert_eq!(normalize_text(b"&#x10FFFF;"), vec![0xF4, 0x8F, 0xBF, 0xBF]);
}

#[test]
fn references_that_name_no_character_are_kept() {
    assert_eq!(norm("&#0;"), "&#0;");
    assert_eq!(norm("&#xD800;"), "&#xD800;");
    assert_eq!(norm("&#x110000;"), "&#x110000;");
    assert_eq!(norm("&#12345678;"), "&#12345678;");
    assert_eq!(norm("&#x1234567;"), "&#x1234567;");
    assert_eq!(norm("&bogus;"), "&bogus;");
    assert_eq!(norm("&;"), "&;");
    assert_eq!(norm("&#;"), "&#;");
    assert_eq!(norm("&#x;"), "&#x;");
    assert_eq!(norm("&#12a;"), "&#12a;");
    assert_eq!(norm("AT&T; R&D"), "AT&T; R&D");
}

#[test]
fn references_are_replaced_until_none_is_left() {
    assert_eq!(norm("&amp;amp;"), "&");
    assert_eq!(norm("&amp;lt;b&amp;gt;"), "<b>");
    assert_eq!(norm("&#38;#38;#65;"), "A");
    assert_eq!(norm("&am&#112;&#59;"), "&");
}

#[test]
fn white_space_from_references_is_collapsed() {
    assert_eq!(norm("a&#32;&#32;b"), "a b");
    assert_eq!(norm("&#32;a&#10;"), "a");
    assert_eq!(norm("a &#9; b"), "a b");
}

#[test]
fn white_space_does_not_join_a_reference() {
    assert_eq!(norm("&am p;"), "&am p;");
    assert_eq!(norm("& amp;"), "& amp;");
}

#[test]
fn bytes_above_ascii_pass_through() {
    assert_eq!(norm("caf\u{e9} \u{4e2d}\u{6587}"), "caf\u{e9} \u{4e2d}\u{6587}");
}

#[test]
fn normalizing_twice_changes_nothing() {
    let samples: Vec<&str> = vec![
        "",
        "  a  b  ",
        "&amp;amp;amp;",
        "&#38;lt;",
        "x &nbsp; y",
        "&lt;p&gt;Hello &amp;amp; goodbye&lt;/p&gt;",
        "&#x26;#x26;#x3c;",
        "a&#32;&#32; &#9;b;",
        "&am&#112;; &#59;",
        "tab\there;&;&#;",
    ];
    for s in samples {
        let once = normalize_text(s.as_bytes());
        let twice = normalize_text(&once);
        assert_eq!(once, twice);
    }
}

#[test]
fn normal_text_is_its_own_normal_form() {
    let s = "Already normal: a < b & c; done";
    assert_eq!(norm(s), s);
}

#[test]
fn a_long_chain_of_references_is_taken_in() {
    let mut chain = "&#59".repeat(200_000);
    chain.push(';');
    assert_eq!(norm(&chain), ";");
    assert_eq!(norm("&a&#109;&#112;;"), "&");
    assert_eq!(norm("&am&am&amp;p;p;"), "&am&am&p;p;");
}

#[test]
fn a_large_text_is_normalized() {
    let text = "word &amp; word\n".repeat(50_000);
    let out = norm(&text);
    assert_eq!(out.len(), 50_000 * 12 - 1);
    assert!(out.starts_with("word & word word & word"));
    assert!(out.ends_with("word & word"));
}
