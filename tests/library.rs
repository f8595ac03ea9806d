use rssbot::dedup::{fingerprint, Entry};
use rssbot::persist::{decode, encode};
use rssbot::interval::{check_interval, next_interval, Limits, Outcome};
use rssbot::scheduler::{Delivery, FetchReport, FetchResult, Page, ERROR_LIMIT};
use rssbot::size::{parse_human_size, NumError, SizeError};
use rssbot::store::{Store, Subscription};

fn limits() -> Limits {
    Limits { min_interval: 60, max_interval: 43200 }
}

fn entry(id: &str) -> Entry {
    Entry { id: Some(id.to_string()), link: None, title: String::new(), published: None }
}

fn page(ids: &[&str]) -> FetchResult {
    FetchResult::Fetched(Page {
        title: "t".to_string(),
        etag: Some("e1".to_string()),
        last_modified: None,
        entries: ids.iter().map(|i| entry(i)).collect(),
    })
}

fn delivered(r: FetchReport) -> Vec<Delivery> {
    match r {
        FetchReport::Delivered(d) => d,
        other => panic!("expected deliveries, got {:?}", other),
    }
}

#[test]
fn test_parse_human_size() {
    assert_eq!(parse_human_size("2M").unwrap(), 2_097_152);
    assert_eq!(parse_human_size("2G").unwrap(), 2_147_483_648);
    assert_eq!(parse_human_size("2mb").unwrap(), 2_097_152);
    assert_eq!(parse_human_size("2097152").unwrap(), 2_097_152);
}

#[test]
fn human_size_units_and_blanks() {
    assert_eq!(parse_human_size(" 1 kB\n").unwrap_err(), SizeError::Number(NumError::InvalidDigit));
    assert_eq!(parse_human_size(" 1kB\n").unwrap(), 1024);
    assert_eq!(parse_human_size("3t").unwrap(), 3 * 1024u64.pow(4));
    assert_eq!(parse_human_size("+7").unwrap(), 7);
    assert_eq!(parse_human_size("0").unwrap(), 0);
}

#[test]
fn human_size_errors() {
    assert_eq!(parse_human_size(""), Err(SizeError::Empty));
    assert_eq!(parse_human_size("  bB "), Err(SizeError::Empty));
    assert_eq!(parse_human_size("2x"), Err(SizeError::InvalidUnit('x')));
    assert_eq!(parse_human_size("2X"), Err(SizeError::InvalidUnit('x')));
    assert_eq!(parse_human_size("k"), Err(SizeError::Number(NumError::Empty)));
    assert_eq!(parse_human_size("1.5m"), Err(SizeError::Number(NumError::InvalidDigit)));
    assert_eq!(parse_human_size("99999999999999999999"), Err(SizeError::Number(NumError::TooLarge)));
    assert_eq!(parse_human_size("20000000t"), Err(SizeError::Overflow));
    assert_eq!(parse_human_size("18446744073709551615").unwrap(), u64::MAX);
}

#[test]
fn interval_argument_check() {
    assert_eq!(check_interval("300".to_string()), Ok(()));
    assert_eq!(check_interval("1".to_string()), Ok(()));
    assert_eq!(check_interval("0".to_string()), Err("must >= 1".to_string()));
    assert_eq!(check_interval("".to_string()), Err("cannot parse integer from empty string".to_string()));
    assert_eq!(check_interval("5s".to_string()), Err("invalid digit found in string".to_string()));
    assert_eq!(
        check_interval("4294967296".to_string()),
        Err("number too large to fit in target type".to_string())
    );
    assert_eq!(check_interval("4294967295".to_string()), Ok(()));
}

#[test]
fn interval_adaptation() {
    let l = limits();
    assert_eq!(next_interval(300, Outcome::NewEntries, l), 150);
    assert_eq!(next_interval(150, Outcome::NothingNew, l), 180);
    assert_eq!(next_interval(300, Outcome::Failed, l), 600);
    assert_eq!(next_interval(100, Outcome::NewEntries, l), 60);
    assert_eq!(next_interval(40000, Outcome::Failed, l), 43200);
    assert_eq!(next_interval(43200, Outcome::NothingNew, l), 43200);
}

#[test]
fn fingerprint_prefers_id_then_link_then_title() {
    let mut e = Entry {
        id: Some("x".to_string()),
        link: Some("http://a/1".to_string()),
        title: "T".to_string(),
        published: Some("2020".to_string()),
    };
    assert_eq!(fingerprint(&e), "id:x");
    e.id = None;
    assert_eq!(fingerprint(&e), "link:http://a/1");
    e.link = None;
    assert_eq!(fingerprint(&e), "title:T\n2020");
    e.published = None;
    assert_eq!(fingerprint(&e), "title:T\n");
}

#[test]
fn interval_halves_on_news_then_grows() {
    let mut s = Store::new(limits());
    let id = s.subscribe(1, &"http://feed/a".to_string(), 0).unwrap();
    s.feeds[0].interval = 300;
    let d = delivered(s.apply_fetch(id, page(&["a", "b"]), 1000));
    assert_eq!(d.len(), 2);
    assert_eq!(s.feeds[0].interval, 150);
    assert_eq!(s.feeds[0].next_fetch, 1150);
    assert_eq!(s.feeds[0].etag, Some("e1".to_string()));
    let d = delivered(s.apply_fetch(id, FetchResult::NotModified, 2000));
    assert!(d.is_empty());
    assert_eq!(s.feeds[0].interval, 180);
    assert_eq!(s.feeds[0].next_fetch, 2180);
}

#[test]
fn failing_feed_removed_with_one_notice_each() {
    let mut s = Store::new(limits());
    let url = "http://feed/dead".to_string();
    let id = s.subscribe(10, &url, 0).unwrap();
    assert_eq!(s.subscribe(20, &url, 0), Some(id));
    assert_eq!(ERROR_LIMIT, 24);
    for n in 1..=24u32 {
        let d = delivered(s.apply_fetch(id, FetchResult::Failed, 0));
        assert!(d.is_empty());
        assert_eq!(s.feeds[0].error_count, n);
    }
    assert_eq!(s.feeds[0].interval, 43200);
    match s.apply_fetch(id, FetchResult::Failed, 0) {
        FetchReport::Removed(chats) => assert_eq!(chats, vec![10, 20]),
        other => panic!("expected removal, got {:?}", other),
    }
    assert!(s.feeds.is_empty());
    assert!(s.subs.is_empty());
    assert!(matches!(s.apply_fetch(id, FetchResult::Failed, 0), FetchReport::UnknownFeed));
}

#[test]
fn shared_feed_one_record_two_sends() {
    let mut s = Store::new(limits());
    let url = "http://feed/shared".to_string();
    let a = s.subscribe(1, &url, 0).unwrap();
    let b = s.subscribe(2, &url, 0).unwrap();
    assert_eq!(a, b);
    assert_eq!(s.feeds.len(), 1);
    let d = delivered(s.apply_fetch(a, page(&["new"]), 0));
    assert_eq!(d, vec![Delivery { chat: 1, entry: 0 }, Delivery { chat: 2, entry: 0 }]);
}

#[test]
fn refetch_of_same_entries_notifies_nobody() {
    let mut s = Store::new(limits());
    let id = s.subscribe(1, &"u".to_string(), 0).unwrap();
    assert_eq!(delivered(s.apply_fetch(id, page(&["a", "b", "c"]), 0)).len(), 3);
    assert!(delivered(s.apply_fetch(id, page(&["c", "a", "b"]), 0)).is_empty());
    assert!(delivered(s.apply_fetch(id, FetchResult::NotModified, 0)).is_empty());
    assert!(delivered(s.apply_fetch(id, page(&[]), 0)).is_empty());
}

#[test]
fn second_fetch_detects_only_additions() {
    let mut s = Store::new(limits());
    let id = s.subscribe(1, &"u".to_string(), 0).unwrap();
    assert_eq!(delivered(s.apply_fetch(id, page(&["a", "b"]), 0)).len(), 2);
    let d = delivered(s.apply_fetch(id, page(&["c", "b", "a", "d", "c"]), 0));
    assert_eq!(d, vec![Delivery { chat: 1, entry: 0 }, Delivery { chat: 1, entry: 3 }]);
    assert_eq!(s.feeds[0].error_count, 0);
}

#[test]
fn seen_list_is_capped() {
    let mut s = Store::new(limits());
    let id = s.subscribe(1, &"u".to_string(), 0).unwrap();
    let ids: Vec<String> = (0..1005).map(|i| i.to_string()).collect();
    let refs: Vec<&str> = ids.iter().map(|x| x.as_str()).collect();
    assert_eq!(delivered(s.apply_fetch(id, page(&refs), 0)).len(), 1005);
    assert_eq!(s.feeds[0].seen.len(), 1000);
    assert_eq!(s.feeds[0].seen[0], "id:5");
}

#[test]
fn undeliverable_chat_cascades_on_sweep() {
    let mut s = Store::new(limits());
    let a = s.subscribe(1, &"a".to_string(), 0).unwrap();
    let b = s.subscribe(1, &"b".to_string(), 0).unwrap();
    s.subscribe(2, &"b".to_string(), 0).unwrap();
    let removed = s.sweep(&vec![1]);
    assert_eq!(removed, vec![a]);
    assert_eq!(s.feeds.len(), 1);
    assert_eq!(s.feeds[0].id, b);
    assert_eq!(s.subs, vec![Subscription { chat: 2, feed: b }]);
    assert!(s.subscriptions(1).is_empty());
}

#[test]
fn remove_chat_then_sweep() {
    let mut s = Store::new(limits());
    let a = s.subscribe(7, &"a".to_string(), 0).unwrap();
    s.remove_chat(7);
    assert!(s.subscribers(a).is_empty());
    assert_eq!(s.feeds.len(), 1);
    assert_eq!(s.sweep(&vec![]), vec![a]);
    assert!(s.feeds.is_empty());
}

#[test]
fn unsubscribe_and_listing() {
    let mut s = Store::new(limits());
    let a = s.subscribe(1, &"a".to_string(), 5).unwrap();
    let b = s.subscribe(1, &"b".to_string(), 50).unwrap();
    s.subscribe(2, &"a".to_string(), 0).unwrap();
    assert_eq!(s.subscribe(1, &"a".to_string(), 0), Some(a));
    assert_eq!(s.subs.len(), 3);
    assert_eq!(s.subscriptions(1), vec![a, b]);
    assert_eq!(s.subscribers(a), vec![1, 2]);
    assert_eq!(s.list_due(10), vec![a]);
    assert_eq!(s.list_due(50), vec![a, b]);
    assert!(s.unsubscribe(1, a));
    assert!(!s.unsubscribe(1, a));
    assert_eq!(s.subscribers(a), vec![2]);
    assert_eq!(s.find_feed(b), Some(1));
    assert_eq!(s.find_url(&"b".to_string()), Some(1));
    assert_eq!(s.find_feed(99), None);
}

#[test]
fn persist_round_trip_keeps_everything() {
    let mut s = Store::new(limits());
    let a = s.subscribe(-5, &"http://a/;=~".to_string(), 3).unwrap();
    s.subscribe(i64::MIN, &"http://a/;=~".to_string(), 3).unwrap();
    let b = s.subscribe(i64::MAX, &"b".to_string(), 4).unwrap();
    delivered(s.apply_fetch(a, page(&["x", "ÿ;2"]), 100));
    s.apply_fetch(b, FetchResult::Failed, 7);
    let text = encode(&s);
    let t = decode(&text).unwrap();
    assert!(t.is_well_formed());
    assert_eq!(t.limits, s.limits);
    assert_eq!(t.next_id, s.next_id);
    assert_eq!(t.subs, s.subs);
    assert_eq!(t.feeds.len(), s.feeds.len());
    for (x, y) in t.feeds.iter().zip(s.feeds.iter()) {
        assert_eq!(x.id, y.id);
        assert_eq!(x.url, y.url);
        assert_eq!(x.title, y.title);
        assert_eq!(x.etag, y.etag);
        assert_eq!(x.last_modified, y.last_modified);
        assert_eq!(x.seen, y.seen);
        assert_eq!(x.interval, y.interval);
        assert_eq!(x.error_count, y.error_count);
        assert_eq!(x.next_fetch, y.next_fetch);
    }
    assert_eq!(encode(&t), text);
}

#[test]
fn persist_exact_text_and_rejects() {
    let mut s = Store::new(Limits { min_interval: 1, max_interval: 9 });
    s.subscribe(-3, &"ab".to_string(), 5).unwrap();
    assert_eq!(encode(&s), "1;9;1;1;0;2;ab0;~~0;1;0;5;1;-3;0;");
    assert!(decode("1;9;1;1;0;2;ab0;~~0;1;0;5;1;-3;0;").is_some());
    assert!(decode("").is_none());
    assert!(decode("1;9;1;1;0;2;ab0;~~0;1;0;5;1;-3;0;x").is_none());
    assert!(decode("1;9;1;1;0;2;ab0;~~0;1;0;5;1;-3;").is_none());
    assert!(decode("1;9;0;0;0;").is_some());
    assert!(decode("4294967296;9;0;0;0;").is_none());
    assert!(decode("1;9;0;0;18446744073709551616;").is_none());
    let bad = decode("5;1;0;0;0;").unwrap();
    assert!(!bad.is_well_formed());
}

#[test]
fn due_batch_takes_at_most_the_pool_size() {
    let mut s = Store::new(limits());
    let a = s.subscribe(1, &"a".to_string(), 1).unwrap();
    let b = s.subscribe(1, &"b".to_string(), 100).unwrap();
    let c = s.subscribe(1, &"c".to_string(), 2).unwrap();
    assert_eq!(s.due_batch(10, 1), vec![a]);
    assert_eq!(s.due_batch(10, 5), vec![a, c]);
    assert_eq!(s.due_batch(100, 2), vec![a, b]);
    assert!(s.due_batch(100, 0).is_empty());
    assert!(s.due_batch(0, 3).is_empty());
}
