use feed_aggregator::command::{
    check_input, describe, fan_out, overall_deadline, run_command, CommandError, PassConfig, DEFAULT_DEADLINE_MS,
};
use feed_aggregator::coordinator::{Coordinator, CoordinatorError, Phase};
use feed_aggregator::fetch::{classify, timed_out, Completion, FetchReply, RawFetchResult};
use feed_aggregator::format::FormatKind;
use feed_aggregator::item::ItemDraft;
use feed_aggregator::normalize::{normalize, normalize_all};
use feed_aggregator::outcome::{AggregatedResult, Failure, FailureKind};
use feed_aggregator::pass::aggregate;
use feed_aggregator::source::{deadline_for, SourceDescriptor};
use feed_aggregator::unit::{process, read_payload};

const START: i64 = 1_704_300_000_000;
const DEADLINE: i64 = 1_704_300_010_000;

fn source(id: &str) -> SourceDescriptor {
    SourceDescriptor {
        id: id.as_bytes().to_vec(),
        url: format!("https://{}.example/feed", id).into_bytes(),
        format_hint: None,
        timeout_ms: None,
    }
}

fn rss(items: &[(&str, &str, &str)]) -> Vec<u8> {
    let mut s = String::from("<?xml version=\"1.0\"?><rss version=\"2.0\"><channel><title>c</title>");
    for (title, link, date) in items {
        s.push_str(&format!("<item><title>{}</title><link>{}</link><pubDate>{}</pubDate></item>", title, link, date));
    }
    s.push_str("</channel></rss>");
    s.into_bytes()
}

fn body(bytes: Vec<u8>, finished_at: i64) -> Option<Completion> {
    Some(Completion { reply: FetchReply::Body { content_type: b"application/rss+xml".to_vec(), bytes }, finished_at })
}

fn failing(reply: FetchReply) -> Option<Completion> {
    Some(Completion { reply, finished_at: START + 5 })
}

fn titles(result: &AggregatedResult) -> Vec<String> {
    result.items.iter().map(|i| String::from_utf8(i.title.clone()).unwrap()).collect()
}

fn kinds(result: &AggregatedResult) -> Vec<Option<FailureKind>> {
    result.outcomes.iter().map(|o| o.failure.as_ref().map(|f| f.kind)).collect()
}

fn feed_a() -> Vec<u8> {
    rss(&[
        ("A1", "https://a.example/1", "Tue, 02 Jan 2024 00:00:00 GMT"),
        ("A2", "https://a.example/2", "Mon, 01 Jan 2024 00:00:00 GMT"),
    ])
}

fn feed_c() -> Vec<u8> {
    rss(&[("C1", "https://c.example/1", "Wed, 03 Jan 2024 00:00:00 GMT")])
}

#[test]
fn two_sources_succeed_and_one_is_unreachable() {
    let sources = vec![source("a"), source("b"), source("c")];
    let completions = vec![
        body(feed_a(), START + 100),
        failing(FetchReply::Unreachable { detail: b"connection refused".to_vec() }),
        body(feed_c(), START + 200),
    ];
    let result = aggregate(sources, completions, START, DEADLINE).unwrap();
    assert_eq!(titles(&result), vec!["C1", "A1", "A2"]);
    assert_eq!(
        result.items.iter().map(|i| i.published).collect::<Vec<i64>>(),
        vec![1704240000000, 1704153600000, 1704067200000]
    );
    assert_eq!(kinds(&result), vec![None, Some(FailureKind::Unreachable), None]);
    assert_eq!(result.outcomes[0].source, b"a".to_vec());
    assert_eq!(result.outcomes[1].source, b"b".to_vec());
    assert_eq!(result.outcomes[2].source, b"c".to_vec());
    assert_eq!(result.outcomes[0].delivered, 2);
    assert_eq!(result.outcomes[1].delivered, 0);
    assert_eq!(result.outcomes[2].delivered, 1);
    assert_eq!(result.outcomes[1].failure.as_ref().unwrap().message, b"connection refused".to_vec());
    assert_eq!(result.items[0].source, b"c".to_vec());
    assert_eq!(result.items[0].key, b"c|https://c.example/1".to_vec());
    assert_eq!(result.items[0].link, b"https://c.example/1".to_vec());
    assert!(!result.items[0].undated);
}

#[test]
fn empty_source_list_gives_an_empty_result() {
    let result = run_command(Vec::new(), Vec::new(), START, DEADLINE).unwrap();
    assert_eq!(result.items, Vec::new());
    assert_eq!(result.outcomes, Vec::new());
}

#[test]
fn malformed_payload_leaves_the_other_sources_alone() {
    let sources = vec![source("a"), source("bad"), source("c")];
    let broken = b"<?xml version=\"1.0\"?><rss><channel><item><title>x</title></channel></rss>".to_vec();
    let completions = vec![body(feed_a(), START + 1), body(broken, START + 2), body(feed_c(), START + 3)];
    let result = aggregate(sources, completions, START, DEADLINE).unwrap();
    assert_eq!(titles(&result), vec!["C1", "A1", "A2"]);
    assert_eq!(kinds(&result), vec![None, Some(FailureKind::MalformedPayload), None]);
    assert_eq!(result.outcomes[1].delivered, 0);
    assert_eq!(result.outcomes[1].failure.as_ref().unwrap().message, b"mismatched end tag".to_vec());
}

#[test]
fn one_failure_of_each_kind_is_contained() {
    let failures: Vec<(Option<Completion>, FailureKind)> = vec![
        (None, FailureKind::Timeout),
        (failing(FetchReply::TimedOut), FailureKind::Timeout),
        (failing(FetchReply::Unreachable { detail: Vec::new() }), FailureKind::Unreachable),
        (failing(FetchReply::BadStatus { status: 503 }), FailureKind::BadStatus),
        (
            Some(Completion {
                reply: FetchReply::Body { content_type: b"text/html".to_vec(), bytes: b"<html></html>".to_vec() },
                finished_at: START + 1,
            }),
            FailureKind::UnknownFormat,
        ),
        (body(b"<rss><channel>".to_vec(), START + 1), FailureKind::MalformedPayload),
    ];
    for (completion, kind) in failures {
        let sources = vec![source("a"), source("x"), source("c")];
        let completions = vec![body(feed_a(), START + 1), completion, body(feed_c(), START + 1)];
        let result = aggregate(sources, completions, START, DEADLINE).unwrap();
        assert_eq!(titles(&result), vec!["C1", "A1", "A2"]);
        assert_eq!(kinds(&result), vec![None, Some(kind), None]);
        assert_eq!(result.outcomes.iter().filter(|o| o.failure.is_some()).count(), 1);
    }
}

#[test]
fn every_source_failing_is_still_a_result() {
    let sources = vec![source("a"), source("b"), source("c")];
    let completions = vec![
        failing(FetchReply::BadStatus { status: 404 }),
        None,
        failing(FetchReply::Unreachable { detail: b"dns".to_vec() }),
    ];
    let result = run_command(sources, completions, START, DEADLINE).unwrap();
    assert_eq!(result.items, Vec::new());
    assert_eq!(
        kinds(&result),
        vec![Some(FailureKind::BadStatus), Some(FailureKind::Timeout), Some(FailureKind::Unreachable)]
    );
    assert_eq!(result.outcomes[0].failure.as_ref().unwrap().message, b"404".to_vec());
    assert_eq!(result.outcomes[1].failure.as_ref().unwrap().message, b"deadline exceeded".to_vec());
}

#[test]
fn an_answer_one_millisecond_late_is_a_timeout() {
    let sources = vec![source("a"), source("c")];
    let completions = vec![body(feed_a(), DEADLINE + 1), body(feed_c(), DEADLINE)];
    let result = aggregate(sources, completions, START, DEADLINE).unwrap();
    assert_eq!(titles(&result), vec!["C1"]);
    assert_eq!(kinds(&result), vec![Some(FailureKind::Timeout), None]);
    assert_eq!(result.outcomes[0].delivered, 0);
}

#[test]
fn the_timeout_of_a_source_is_counted_from_the_start() {
    let mut quick = source("a");
    quick.timeout_ms = Some(1000);
    assert_eq!(deadline_for(&quick, START, DEADLINE), START + 1000);
    let mut slow = source("b");
    slow.timeout_ms = Some(60_000);
    assert_eq!(deadline_for(&slow, START, DEADLINE), DEADLINE);
    slow.timeout_ms = Some(u64::MAX);
    assert_eq!(deadline_for(&slow, i64::MAX - 5, i64::MAX), i64::MAX);
    assert_eq!(deadline_for(&source("c"), START, DEADLINE), DEADLINE);
    let sources = vec![quick.clone(), quick];
    let completions = vec![body(feed_a(), START + 1000), body(feed_c(), START + 1001)];
    let result = aggregate(sources, completions, START, DEADLINE).unwrap();
    assert_eq!(titles(&result), vec!["A1", "A2"]);
    assert_eq!(kinds(&result), vec![None, Some(FailureKind::Timeout)]);
}

#[test]
fn no_source_is_invalid_input_for_the_coordinator() {
    assert_eq!(aggregate(Vec::new(), Vec::new(), START, DEADLINE), Err(CoordinatorError::InvalidInput));
    assert!(Coordinator::new(Vec::new(), START, DEADLINE).is_err());
}

#[test]
fn answers_that_do_not_fit_the_sources_are_invalid_input() {
    assert_eq!(aggregate(vec![source("a")], Vec::new(), START, DEADLINE), Err(CoordinatorError::InvalidInput));
    assert_eq!(
        aggregate(vec![source("a")], vec![None, None], START, DEADLINE),
        Err(CoordinatorError::InvalidInput)
    );
    let err = run_command(vec![source("a")], Vec::new(), START, DEADLINE).unwrap_err();
    assert_eq!(err, "invalid input: the answers do not fit the sources");
    assert_eq!(describe(CoordinatorError::InvalidInput), err);
}

#[test]
fn the_same_item_in_two_answers_of_one_source_is_kept_once() {
    let twice = rss(&[
        ("Dup", "https://a.example/1#x", "Tue, 02 Jan 2024 00:00:00 GMT"),
        ("Dup again", "https://a.example/1/", "Mon, 01 Jan 2024 00:00:00 GMT"),
        ("Other", "https://a.example/2", "Mon, 01 Jan 2024 00:00:00 GMT"),
    ]);
    let result = aggregate(vec![source("a")], vec![body(twice, START + 1)], START, DEADLINE).unwrap();
    assert_eq!(titles(&result), vec!["Dup", "Other"]);
    assert_eq!(result.outcomes[0].delivered, 3);
}

#[test]
fn the_same_link_in_two_sources_is_two_items() {
    let one = rss(&[("X", "https://x.example/1", "Tue, 02 Jan 2024 00:00:00 GMT")]);
    let result = aggregate(
        vec![source("a"), source("b")],
        vec![body(one.clone(), START + 1), body(one, START + 1)],
        START,
        DEADLINE,
    )
    .unwrap();
    assert_eq!(result.items.len(), 2);
    assert_eq!(result.items[0].key, b"a|https://x.example/1".to_vec());
    assert_eq!(result.items[1].key, b"b|https://x.example/1".to_vec());
}

#[test]
fn the_result_does_not_depend_on_the_order_of_completion() {
    let expected = aggregate(
        vec![source("a"), source("b"), source("c")],
        vec![body(feed_a(), START + 1), None, body(feed_c(), START + 1)],
        START,
        DEADLINE,
    )
    .unwrap();
    let orders: Vec<Vec<usize>> = vec![vec![0, 2], vec![2, 0]];
    for order in orders {
        let mut c = Coordinator::new(vec![source("a"), source("b"), source("c")], START, DEADLINE).unwrap();
        let requests = c.dispatch();
        assert_eq!(requests.len(), 3);
        for i in order {
            let answer = if i == 0 { body(feed_a(), START + 1) } else { body(feed_c(), START + 1) };
            assert!(c.record(i, answer.unwrap()));
        }
        assert!(!c.is_complete());
        c.expire();
        assert_eq!(c.finish(), expected);
    }
}

#[test]
fn the_coordinator_goes_through_its_phases() {
    let mut c = Coordinator::new(vec![source("a"), source("b")], START, DEADLINE).unwrap();
    assert_eq!(c.phase, Phase::Dispatching);
    assert!(!c.record(0, body(feed_a(), START + 1).unwrap()));
    let requests = c.dispatch();
    assert_eq!(c.phase, Phase::AwaitingResults);
    assert_eq!(requests.len(), 2);
    assert_eq!(requests[0].index, 0);
    assert_eq!(requests[0].url, b"https://a.example/feed".to_vec());
    assert_eq!(requests[0].deadline, DEADLINE);
    assert_eq!(requests[1].index, 1);
    assert_eq!(c.dispatch(), Vec::new());
    assert!(c.record(0, body(feed_a(), START + 1).unwrap()));
    assert!(!c.record(0, body(feed_c(), START + 1).unwrap()));
    assert!(!c.record(2, body(feed_c(), START + 1).unwrap()));
    assert!(!c.is_complete());
    c.expire();
    assert_eq!(c.phase, Phase::Merging);
    assert!(!c.record(1, body(feed_c(), START + 1).unwrap()));
    let result = c.finish();
    assert_eq!(titles(&result), vec!["A1", "A2"]);
    assert_eq!(kinds(&result), vec![None, Some(FailureKind::Timeout)]);
}

#[test]
fn the_coordinator_is_complete_when_every_answer_is_in() {
    let mut c = Coordinator::new(vec![source("a"), source("b")], START, DEADLINE).unwrap();
    c.dispatch();
    assert!(c.record(1, failing(FetchReply::BadStatus { status: 500 }).unwrap()));
    assert!(c.record(0, body(feed_a(), START + 1).unwrap()));
    assert!(c.is_complete());
    let result = c.finish();
    assert_eq!(kinds(&result), vec![None, Some(FailureKind::BadStatus)]);
    assert_eq!(titles(&result), vec!["A1", "A2"]);
}

#[test]
fn answers_are_classified() {
    assert_eq!(classify(None, START, DEADLINE), RawFetchResult::Failed(timed_out()));
    assert_eq!(
        classify(body(b"x".to_vec(), START + 250), START, DEADLINE),
        RawFetchResult::Payload { content_type: b"application/rss+xml".to_vec(), bytes: b"x".to_vec(), duration_ms: 250 }
    );
    assert_eq!(
        classify(body(b"x".to_vec(), START - 1), START, DEADLINE),
        RawFetchResult::Payload { content_type: b"application/rss+xml".to_vec(), bytes: b"x".to_vec(), duration_ms: 0 }
    );
    assert_eq!(classify(body(b"x".to_vec(), DEADLINE + 1), START, DEADLINE), RawFetchResult::Failed(timed_out()));
    assert_eq!(classify(failing(FetchReply::TimedOut), START, DEADLINE), RawFetchResult::Failed(timed_out()));
    assert_eq!(
        classify(failing(FetchReply::BadStatus { status: 0 }), START, DEADLINE),
        RawFetchResult::Failed(Failure { kind: FailureKind::BadStatus, message: b"0".to_vec() })
    );
    assert_eq!(
        classify(failing(FetchReply::BadStatus { status: 65535 }), START, DEADLINE),
        RawFetchResult::Failed(Failure { kind: FailureKind::BadStatus, message: b"65535".to_vec() })
    );
    assert_eq!(
        classify(failing(FetchReply::Unreachable { detail: b"reset".to_vec() }), START, DEADLINE),
        RawFetchResult::Failed(Failure { kind: FailureKind::Unreachable, message: b"reset".to_vec() })
    );
    assert_eq!(timed_out(), Failure { kind: FailureKind::Timeout, message: b"deadline exceeded".to_vec() });
}

#[test]
fn an_item_without_a_date_takes_the_time_of_the_fetch() {
    let feed = rss(&[("No date", "https://a.example/1", "some day"), ("Dated", "https://a.example/2", "Tue, 02 Jan 2024 00:00:00 GMT")]);
    let outcome = process(&source("a"), body(feed, START + 77), START, DEADLINE);
    assert_eq!(outcome.failure, None);
    assert_eq!(outcome.source, b"a".to_vec());
    assert_eq!(outcome.items.len(), 2);
    assert!(outcome.items[0].undated);
    assert_eq!(outcome.items[0].published, START + 77);
    assert!(!outcome.items[1].undated);
    assert_eq!(outcome.items[1].published, 1704153600000);
    let result = aggregate(
        vec![source("a")],
        vec![body(rss(&[("No date", "l1", ""), ("Dated", "l2", "Tue, 02 Jan 2024 00:00:00 GMT")]), START + 77)],
        START,
        DEADLINE,
    )
    .unwrap();
    assert_eq!(titles(&result), vec!["No date", "Dated"]);
}

#[test]
fn the_hint_of_a_source_decides_its_format() {
    let mut atom = source("a");
    atom.format_hint = Some(FormatKind::Atom);
    let payload = b"<feed><entry><title>T &amp; t</title><link href=\"https://a.example/1/#top\"/><updated>2024-01-02T00:00:00Z</updated><summary> a  b </summary></entry></feed>";
    let outcome = read_payload(&atom, b"application/rss+xml", payload, START);
    assert_eq!(outcome.failure, None);
    assert_eq!(outcome.items.len(), 1);
    assert_eq!(outcome.items[0].title, b"T & t".to_vec());
    assert_eq!(outcome.items[0].body, b"a b".to_vec());
    assert_eq!(outcome.items[0].link, b"https://a.example/1".to_vec());
    assert_eq!(outcome.items[0].key, b"a|https://a.example/1".to_vec());
    assert_eq!(outcome.items[0].published, 1704153600000);
    let outcome = read_payload(&source("a"), b"application/rss+xml", payload, START);
    assert_eq!(outcome.failure.unwrap().kind, FailureKind::MalformedPayload);
    assert_eq!(outcome.items, Vec::new());
    let outcome = read_payload(&source("a"), b"text/plain", b"hello", START);
    assert_eq!(outcome.failure, Some(Failure { kind: FailureKind::UnknownFormat, message: b"no known format".to_vec() }));
}

#[test]
fn each_malformation_has_its_words() {
    let cases: Vec<(&[u8], &str)> = vec![
        (b"<rss><", "broken markup"),
        (b"<html></html><rss>", "wrong root element"),
        (b"<rss></channel>", "mismatched end tag"),
        (b"<rss><channel>", "unclosed element"),
        (b"{\"a\" 1}", "misplaced token"),
    ];
    for (payload, words) in cases {
        let s = source("a");
        let outcome = read_payload(&s, b"", payload, START);
        assert_eq!(outcome.failure, Some(Failure { kind: FailureKind::MalformedPayload, message: words.as_bytes().to_vec() }));
    }
}

#[test]
fn drafts_are_normalized() {
    let d = ItemDraft {
        title: b"  Hello &amp;  world ".to_vec(),
        body: b"<![x]]>".to_vec(),
        link: Vec::new(),
        date: b" 2024-01-02T00:00:00Z\n".to_vec(),
    };
    let item = normalize(&d, b"src", 42);
    assert_eq!(item.title, b"Hello & world".to_vec());
    assert_eq!(item.body, b"<![x]]>".to_vec());
    assert_eq!(item.link, Vec::new());
    assert_eq!(item.source, b"src".to_vec());
    assert_eq!(item.published, 1704153600000);
    assert!(!item.undated);
    assert_eq!(item.key.len(), 3 + 2 + 16);
    assert_eq!(&item.key[..5], b"src|#");
    let again = normalize(&d, b"src", 99);
    assert_eq!(item, again);
    let all = normalize_all(&vec![d.clone(), d], b"src", 42);
    assert_eq!(all, vec![item.clone(), item]);
    assert_eq!(normalize_all(&Vec::new(), b"src", 42), Vec::new());
}

#[test]
fn the_deadline_of_a_pass_is_start_plus_budget() {
    assert_eq!(overall_deadline(START, 10_000), DEADLINE);
    assert_eq!(overall_deadline(START, 0), START);
    assert_eq!(overall_deadline(-5, 10), 5);
    assert_eq!(overall_deadline(i64::MAX - 1, 10), i64::MAX);
    assert_eq!(overall_deadline(0, u64::MAX), i64::MAX);
    assert_eq!(DEFAULT_DEADLINE_MS, 10_000);
}

#[test]
fn the_fan_out_is_capped_by_the_configuration() {
    let unlimited = PassConfig::default();
    assert_eq!(unlimited.deadline_ms, DEFAULT_DEADLINE_MS);
    assert_eq!(unlimited.max_concurrent_fetches, None);
    assert_eq!(fan_out(&unlimited, 7), 7);
    assert_eq!(fan_out(&unlimited, 0), 0);
    let capped = PassConfig { deadline_ms: 1, max_concurrent_fetches: Some(3) };
    assert_eq!(fan_out(&capped, 7), 3);
    assert_eq!(fan_out(&capped, 3), 3);
    assert_eq!(fan_out(&capped, 2), 2);
    let zero = PassConfig { deadline_ms: 1, max_concurrent_fetches: Some(0) };
    assert_eq!(fan_out(&zero, 7), 7);
}

#[test]
fn the_input_of_the_command_is_checked() {
    assert_eq!(check_input(0, 0), Err(CommandError::NoSourcesConfigured));
    assert_eq!(check_input(0, 3), Err(CommandError::NoSourcesConfigured));
    assert_eq!(check_input(2, 3), Err(CommandError::InvalidInput));
    assert_eq!(check_input(2, 0), Err(CommandError::InvalidInput));
    assert_eq!(check_input(2, 2), Ok(()));
    let result = run_command(Vec::new(), vec![None], START, DEADLINE).unwrap();
    assert_eq!(result.items, Vec::new());
    assert_eq!(result.outcomes, Vec::new());
}

#[test]
fn a_pass_that_is_ended_at_once_reports_every_source_as_timed_out() {
    let c = Coordinator::new(vec![source("a"), source("b")], START, DEADLINE).unwrap();
    let result = c.finish();
    assert_eq!(result.items, Vec::new());
    assert_eq!(kinds(&result), vec![Some(FailureKind::Timeout), Some(FailureKind::Timeout)]);
    assert_eq!(result.outcomes[0].source, b"a".to_vec());
    assert_eq!(result.outcomes[1].source, b"b".to_vec());
}

#[test]
fn many_items_are_merged() {
    let mut items: Vec<(String, String, String)> = Vec::new();
    for i in 0..300 {
        let day = 1 + (i * 7) % 28;
        items.push((format!("T{}", i), format!("https://a.example/{}", i % 250), format!("2024-01-{:02}T00:00:00Z", day)));
    }
    let refs: Vec<(&str, &str, &str)> = items.iter().map(|(t, l, d)| (t.as_str(), l.as_str(), d.as_str())).collect();
    let mut atom = String::from("<feed>");
    for (t, l, d) in &refs {
        atom.push_str(&format!("<entry><title>{}</title><link href=\"{}\"/><updated>{}</updated></entry>", t, l, d));
    }
    atom.push_str("</feed>");
    let completion = Some(Completion {
        reply: FetchReply::Body { content_type: b"application/atom+xml".to_vec(), bytes: atom.into_bytes() },
        finished_at: START + 1,
    });
    let result = aggregate(vec![source("a")], vec![completion], START, DEADLINE).unwrap();
    assert_eq!(result.outcomes[0].delivered, 300);
    assert_eq!(result.items.len(), 250);
    for pair in result.items.windows(2) {
        assert!(
            pair[0].published > pair[1].published
                || (pair[0].published == pair[1].published && pair[0].key < pair[1].key)
        );
    }
}

#[test]
fn sources_of_three_formats_are_merged() {
    let rss_feed = rss(&[("From RSS", "https://r.example/1", "Mon, 01 Jan 2024 00:00:00 GMT")]);
    let atom_feed = b"<feed><entry><title>From Atom</title><link href=\"https://a.example/1\"/><updated>2024-01-03T00:00:00Z</updated></entry></feed>".to_vec();
    let json_feed = br#"{"version": "https://jsonfeed.org/version/1.1", "items": [{"title": "From JSON &amp; more", "url": "https://j.example/1/#frag", "date_published": "2024-01-02T00:00:00+00:00", "content_html": "<p>  body </p>"}]}"#.to_vec();
    let completions = vec![
        body(rss_feed, START + 1),
        Some(Completion {
            reply: FetchReply::Body { content_type: b"application/atom+xml".to_vec(), bytes: atom_feed },
            finished_at: START + 2,
        }),
        Some(Completion {
            reply: FetchReply::Body { content_type: b"application/feed+json".to_vec(), bytes: json_feed },
            finished_at: START + 3,
        }),
    ];
    let result = aggregate(vec![source("r"), source("a"), source("j")], completions, START, DEADLINE).unwrap();
    assert_eq!(titles(&result), vec!["From Atom", "From JSON & more", "From RSS"]);
    assert_eq!(kinds(&result), vec![None, None, None]);
    assert_eq!(result.items[1].key, b"j|https://j.example/1".to_vec());
    assert_eq!(result.items[1].body, b"<p> body </p>".to_vec());
    assert_eq!(result.items[1].published, 1704153600000);
}
