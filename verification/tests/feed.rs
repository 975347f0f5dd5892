use feedburst::feed::{is_scheduled_from, FeedInfo, FilterType, UpdateSpec};
use feedburst::timedate::{Timestamp, Weekday};

fn info(policies: Vec<UpdateSpec>) -> FeedInfo {
    FeedInfo {
        name: "Test Feed".into(),
        url: "http://example.com/feed".into(),
        update_policies: policies,
        root: None,
        command: None,
    }
}

fn ts(s: &str) -> Timestamp {
    Timestamp::from_rfc3339(s).unwrap()
}

#[test]
fn batching_and_overlap_across_runs() {
    // policies: @ 2 new comics @ overlap 1 comics; empty log
    let info = info(vec![UpdateSpec::Comics(2), UpdateSpec::Overlap(1)]);
    let mut feed = info.read_feed("").unwrap();
    let now = ts("2024-01-05T12:00:00+00:00");

    let urls: Vec<String> = vec!["u1".into(), "u2".into(), "u3".into()];
    feed.add_new_comics(&urls);
    assert_eq!(feed.new_comics(), 3);
    assert!(feed.is_ready(&now));
    let batch = feed.get_reading_list();
    assert_eq!(batch, vec!["u1".to_string(), "u2".to_string(), "u3".to_string()]);

    // mark read, flush, and re-load as a later run would
    feed.read(&now);
    let log = feed.flush_bytes();
    feed.mark_flushed();
    assert_eq!(log, "<u1>\n<u2>\n<u3>\nread 2024-01-05T12:00:00+00:00\n");

    let feed2 = info.read_feed(&log).unwrap();
    assert_eq!(feed2.new_comics(), 0);
    let batch2 = feed2.get_reading_list();
    assert_eq!(batch2, vec!["u3".to_string()]);
}

#[test]
fn redelivered_items_are_not_duplicated() {
    // the log already holds u1; the fetch redelivers u1 and brings u2
    let info = info(vec![]);
    let mut feed = info.read_feed("<u1>\n").unwrap();
    assert_eq!(feed.new_comics(), 1);

    let urls: Vec<String> = vec!["u1".into(), "u2".into()];
    feed.add_new_comics(&urls);
    assert_eq!(feed.new_comics(), 2);
    assert_eq!(feed.flush_bytes(), "<u2>\n");
}

#[test]
fn record_is_idempotent_across_calls() {
    let info = info(vec![]);
    let mut feed = info.read_feed("").unwrap();
    let urls: Vec<String> = vec!["a".into(), "b".into(), "a".into()];
    feed.add_new_comics(&urls);
    assert_eq!(feed.new_comics(), 2);
    assert_eq!(feed.flush_bytes(), "<a>\n<b>\n");
    feed.add_new_comics(&urls);
    assert_eq!(feed.new_comics(), 2);
    assert_eq!(feed.flush_bytes(), "<a>\n<b>\n");
}

#[test]
fn no_checkpoint_always_scheduled() {
    // a feed whose log holds no checkpoint is scheduled whatever the policies
    let info = info(vec![
        UpdateSpec::Every(1000),
        UpdateSpec::On(Weekday::Mon),
        UpdateSpec::Comics(5),
    ]);
    let feed = info.read_feed("<u1>\n<u2>\n").unwrap();
    assert!(feed.is_scheduled(&ts("1999-01-01T00:00:00Z")));
    assert!(feed.is_scheduled(&ts("2049-06-15T23:59:59Z")));
}

#[test]
fn every_n_days_gate() {
    let info = info(vec![UpdateSpec::Every(3)]);
    // checkpoint at 2024-01-01 noon
    let feed = info.read_feed("<u0>\nread 2024-01-01T12:00:00+00:00\n<u1>\n").unwrap();
    // elapsed 2 days: blocked; at exactly 3 and beyond: due
    assert!(!feed.is_scheduled(&ts("2024-01-03T12:00:00+00:00")));
    assert!(!feed.is_scheduled(&ts("2024-01-04T11:59:59+00:00")));
    assert!(feed.is_scheduled(&ts("2024-01-04T12:00:00+00:00")));
    assert!(feed.is_scheduled(&ts("2024-02-01T12:00:00+00:00")));
    // a clock before the checkpoint is not "enough days elapsed"
    assert!(!feed.is_scheduled(&ts("2023-12-01T12:00:00+00:00")));
}

#[test]
fn is_ready_needs_new_items_and_count() {
    let now = ts("2024-01-05T12:00:00+00:00");
    let info2 = info(vec![UpdateSpec::Comics(2)]);

    let feed = info2.read_feed("").unwrap();
    assert!(!feed.is_ready(&now));

    let mut feed = info2.read_feed("").unwrap();
    let one: Vec<String> = vec!["u1".into()];
    feed.add_new_comics(&one);
    assert!(!feed.is_ready(&now));

    let two: Vec<String> = vec!["u2".into()];
    feed.add_new_comics(&two);
    assert!(feed.is_ready(&now));
}

#[test]
fn weekday_walk_crossings() {
    // checkpoint on a Tuesday; policy `on Thursday`; now the following
    // Friday (elapsed = 3): the walk Wed -> Thu -> Fri crosses Thursday
    let policies = vec![UpdateSpec::On(Weekday::Thu)];
    assert!(is_scheduled_from(&policies, 3, Weekday::Tue));
    // two days later (Wed, Thu) also crosses it
    assert!(is_scheduled_from(&policies, 2, Weekday::Tue));
    // one day later (Wed) does not
    assert!(!is_scheduled_from(&policies, 1, Weekday::Tue));
    // on the checkpoint day itself nothing has passed
    assert!(!is_scheduled_from(&policies, 0, Weekday::Tue));
    // a Saturday policy is missed in those three days
    assert!(!is_scheduled_from(&vec![UpdateSpec::On(Weekday::Sat)], 3, Weekday::Tue));
    // a full week always passes
    assert!(is_scheduled_from(&vec![UpdateSpec::On(Weekday::Sat)], 7, Weekday::Tue));
    // every-clause blocks regardless of weekday hits
    assert!(!is_scheduled_from(
        &vec![UpdateSpec::On(Weekday::Thu), UpdateSpec::Every(10)],
        3,
        Weekday::Tue,
    ));
}

#[test]
fn filters_gate_candidates() {
    let keep = info(vec![UpdateSpec::Filter(FilterType::KeepTitle, "^Chapter".into())]);
    assert!(keep.filter_title("Chapter 12"));
    assert!(!keep.filter_title("Guest week"));
    assert!(keep.filter_url("anything"));

    let ignore = info(vec![UpdateSpec::Filter(FilterType::IgnoreUrl, "ads".into())]);
    assert!(!ignore.filter_url("http://x/ads/1"));
    assert!(ignore.filter_url("http://x/comic/1"));
    assert!(ignore.filter_title("anything"));

    // clauses of one family intersect
    let both = info(vec![
        UpdateSpec::Filter(FilterType::KeepTitle, "^A".into()),
        UpdateSpec::Filter(FilterType::IgnoreTitle, "skip".into()),
    ]);
    assert!(both.filter_title("A good one"));
    assert!(!both.filter_title("A skip this"));
    assert!(!both.filter_title("B good"));
}

#[test]
fn reading_list_overlap_cap() {
    // overlap larger than what exists before the checkpoint
    let info = info(vec![UpdateSpec::Overlap(5)]);
    let feed = info.read_feed("<a>\n<b>\nread 2024-01-01T00:00:00Z\n<c>\n").unwrap();
    assert_eq!(
        feed.get_reading_list(),
        vec!["a".to_string(), "b".to_string(), "c".to_string()]
    );

    // without overlap only the unread tail comes back
    let info0 = FeedInfo { update_policies: vec![], ..info };
    let feed = info0.read_feed("<a>\n<b>\nread 2024-01-01T00:00:00Z\n<c>\n").unwrap();
    assert_eq!(feed.get_reading_list(), vec!["c".to_string()]);
}

#[test]
fn timestamp_parsing() {
    let t = ts("1970-01-02T00:00:00+00:00");
    assert_eq!(t.millis(), 86_400_000);
    assert_eq!(t.as_rfc3339(), "1970-01-02T00:00:00+00:00");

    let t = ts("1969-12-31T23:59:59+00:00");
    assert_eq!(t.millis(), -1000);

    assert!(Timestamp::from_rfc3339("2020-13-40T99:00:00Z").is_none());
    assert!(Timestamp::from_rfc3339("not a date").is_none());
    assert!(Timestamp::from_rfc3339("").is_none());
    assert!(Timestamp::from_rfc3339(" 2020-01-01T00:00:00Z").is_none());

    // offsets shift the denoted instant
    let a = ts("2020-01-01T00:00:00+00:00");
    let b = ts("2020-01-01T00:00:00+01:00");
    assert_eq!(a.millis() - b.millis(), 3_600_000);
}

#[test]
fn weekday_succ_cycles() {
    let mut d = Weekday::Mon;
    for _ in 0..7 {
        d = d.succ();
    }
    assert_eq!(d, Weekday::Mon);
    assert_eq!(Weekday::Sat.succ(), Weekday::Sun);
    assert_eq!(Weekday::Sun.succ(), Weekday::Mon);
}
