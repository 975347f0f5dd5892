use feedburst::error::{render_parse_error, ParseError};
use feedburst::feed::{serialize_events, FeedEvent, FeedInfo, FilterType, UpdateSpec};
use feedburst::parser::{parse_command, parse_config, parse_events};
use feedburst::timedate::{Timestamp, Weekday};

#[test]
fn test_config_parser() {
    let buf = r#"
"Questionable Content" <http://questionablecontent.net/QCRSS.xml> @ on Saturday @ every 10 days
"#;
    assert_eq!(
        parse_config(buf),
        Ok(vec![FeedInfo {
            name: "Questionable Content".into(),
            url: "http://questionablecontent.net/QCRSS.xml".into(),
            update_policies: vec![UpdateSpec::On(Weekday::Sat), UpdateSpec::Every(10)],
            root: None,
            command: None,
        }])
    );
}

#[test]
fn test_multi_feeds() {
    let buf = r#"

# Good and cute
"Goodbye To Halos" <http://goodbyetohalos.com/feed/> @ 3 new comics @ on Monday @ overlap 2 comics
# pe'i xamgu
"Electrum" <https://electrum.cubemelon.net/feed> @ On Thursday @ 5 new Comics

"Gunnerkrigg Court" <http://gunnerkrigg.com/rss.xml> @ 4 new comics @ on tuesday

"#;
    assert_eq!(
        parse_config(buf),
        Ok(vec![
            FeedInfo {
                name: "Goodbye To Halos".into(),
                url: "http://goodbyetohalos.com/feed/".into(),
                update_policies: vec![
                    UpdateSpec::Comics(3),
                    UpdateSpec::On(Weekday::Mon),
                    UpdateSpec::Overlap(2),
                ],
                root: None,
                command: None,
            },
            FeedInfo {
                name: "Electrum".into(),
                url: "https://electrum.cubemelon.net/feed".into(),
                update_policies: vec![UpdateSpec::On(Weekday::Thu), UpdateSpec::Comics(5)],
                root: None,
                command: None,
            },
            FeedInfo {
                name: "Gunnerkrigg Court".into(),
                url: "http://gunnerkrigg.com/rss.xml".into(),
                update_policies: vec![UpdateSpec::Comics(4), UpdateSpec::On(Weekday::Tue)],
                root: None,
                command: None,
            },
        ])
    )
}

#[test]
fn test_feed_root() {
    let buf = "\n\n\"Eth's Skin\" <http://www.eths-skin.com/rss>\n\nroot /hello/world\n\"Witchy\" <http://feeds.feedburner.com/WitchyComic?format=xml> @ on Wednesday\n\"Cucumber Quest\" <http://cucumber.gigidigi.com/feed/> @ on Sunday\nroot /oops/this/is/another/path\n\"Imogen Quest\" <http://imogenquest.net/?feed=rss2> @ on Friday\nroot\nroot \n\n\"Balderdash\" <http://www.balderdashcomic.com/rss.php>\n";

    assert_eq!(
        parse_config(buf),
        Ok(vec![
            FeedInfo {
                name: "Eth's Skin".into(),
                url: "http://www.eths-skin.com/rss".into(),
                update_policies: vec![],
                root: None,
                command: None,
            },
            FeedInfo {
                name: "Witchy".into(),
                url: "http://feeds.feedburner.com/WitchyComic?format=xml".into(),
                update_policies: vec![UpdateSpec::On(Weekday::Wed)],
                root: Some("/hello/world".into()),
                command: None,
            },
            FeedInfo {
                name: "Cucumber Quest".into(),
                url: "http://cucumber.gigidigi.com/feed/".into(),
                update_policies: vec![UpdateSpec::On(Weekday::Sun)],
                root: Some("/hello/world".into()),
                command: None,
            },
            FeedInfo {
                name: "Imogen Quest".into(),
                url: "http://imogenquest.net/?feed=rss2".into(),
                update_policies: vec![UpdateSpec::On(Weekday::Fri)],
                root: Some("/oops/this/is/another/path".into()),
                command: None,
            },
            FeedInfo {
                name: "Balderdash".into(),
                url: "http://www.balderdashcomic.com/rss.php".into(),
                update_policies: vec![],
                root: None,
                command: None,
            },
        ])
    )
}

#[test]
fn test_invalid_configs() {
    let bad_weekday = r#"
"Boozle" <http://boozle.sgoetter.com/feed/> @ on wendsday
"#;
    // the span covers the whole misspelled token, columns 49..=56
    assert_eq!(parse_config(bad_weekday), Err(ParseError::expected("a weekday", 2, (49, 56))));

    let bad_policy = r#"
"Boozle" <http://boozle.sgoetter.com/feed/> @ foo
"#;

    let ParseError::Expected { msg, row, .. } = parse_config(bad_policy).unwrap_err();
    assert!(msg.starts_with("a policy definition"));
    assert_eq!(row, 2);
}

#[test]
fn test_parse_events() {
    let input = r#"
<http://www.goodbyetohalos.com/comic/01137>

<http://www.goodbyetohalos.com/comic/01138-139>
 read 2017-07-17T03:21:21.492180+00:00
 <http://www.goodbyetohalos.com/comic/01140>
read 2017-07-18T23:41:58.130248+00:00
"#;
    assert_eq!(
        parse_events(input),
        Ok(vec![
            FeedEvent::ComicUrl("http://www.goodbyetohalos.com/comic/01137".into()),
            FeedEvent::ComicUrl("http://www.goodbyetohalos.com/comic/01138-139".into()),
            FeedEvent::Read(
                Timestamp::from_rfc3339("2017-07-17T03:21:21.492180+00:00").unwrap()
            ),
            FeedEvent::ComicUrl("http://www.goodbyetohalos.com/comic/01140".into()),
            FeedEvent::Read(
                Timestamp::from_rfc3339("2017-07-18T23:41:58.130248+00:00").unwrap()
            ),
        ])
    );

    assert!(parse_events("invalid").is_err());
}

#[test]
fn test_root_directive_is_case_insensitive() {
    let buf = "ROOT /case\n\"A\" <http://x>\nRoot\n\"B\" <http://y>\n";
    let feeds = parse_config(buf).unwrap();
    assert_eq!(feeds[0].root, Some("/case".to_string()));
    assert_eq!(feeds[1].root, None);
}

#[test]
fn test_filter_clauses_parse() {
    let buf = r#""Boozle" <http://x> @ keep title "^Boo" @ ignore url "ads" @ KEEP URL "comic" @ Ignore Title "guest""#;
    assert_eq!(
        parse_config(buf),
        Ok(vec![FeedInfo {
            name: "Boozle".into(),
            url: "http://x".into(),
            update_policies: vec![
                UpdateSpec::Filter(FilterType::KeepTitle, "^Boo".into()),
                UpdateSpec::Filter(FilterType::IgnoreUrl, "ads".into()),
                UpdateSpec::Filter(FilterType::KeepUrl, "comic".into()),
                UpdateSpec::Filter(FilterType::IgnoreTitle, "guest".into()),
            ],
            root: None,
            command: None,
        }])
    );
}

#[test]
fn test_invalid_regex_rejected_at_parse_time() {
    let buf = r#""Boozle" <http://x> @ keep title "(""#;
    let ParseError::Expected { msg, row, span } = parse_config(buf).unwrap_err();
    assert_eq!(msg, "a valid regular expression");
    assert_eq!(row, 1);
    assert_eq!(span, Some((33, 35)));
}

#[test]
fn test_config_error_positions() {
    // missing name quote
    let e = parse_config("oops").unwrap_err();
    let ParseError::Expected { msg, row, .. } = e;
    assert_eq!(msg, "character '\"'");
    assert_eq!(row, 1);

    // unterminated url
    let e = parse_config("\"A\" <http://x").unwrap_err();
    let ParseError::Expected { msg, span, .. } = e;
    assert_eq!(msg, "closing '>'");
    assert_eq!(span, Some((4, 13)));

    // number expected
    let e = parse_config("\"A\" <u> @ every x days").unwrap_err();
    let ParseError::Expected { msg, .. } = e;
    assert_eq!(msg, "digit");

    // a number too large for a machine word is rejected, not wrapped
    let e = parse_config("\"A\" <u> @ 99999999999999999999999999 new comics").unwrap_err();
    let ParseError::Expected { msg, .. } = e;
    assert_eq!(msg, "a smaller number");

    // missing unit word
    let e = parse_config("\"A\" <u> @ every 3 weeks").unwrap_err();
    let ParseError::Expected { msg, .. } = e;
    assert_eq!(msg, "either \"days\" or \"day\"");

    // root directive needs a space before its path
    let e = parse_config("root/nope").unwrap_err();
    let ParseError::Expected { msg, .. } = e;
    assert_eq!(msg, "whitespace");

    // whitespace must separate the name from the URL
    let e = parse_config("\"A\"<http://x>").unwrap_err();
    let ParseError::Expected { msg, span, .. } = e;
    assert_eq!(msg, "whitespace");
    assert_eq!(span, Some((3, 3)));

    // and must follow the unit word of a new-items clause
    let e = parse_config("\"A\" <u> @ 3 new comicsfoo").unwrap_err();
    let ParseError::Expected { msg, span, .. } = e;
    assert_eq!(msg, "whitespace");
    assert_eq!(span, Some((22, 22)));
}

#[test]
fn test_event_log_errors() {
    let e = parse_events("read not-a-date").unwrap_err();
    let ParseError::Expected { msg, row, span } = e;
    assert_eq!(msg, "a valid date");
    assert_eq!(row, 1);
    assert_eq!(span, Some((5, 5)));

    let e = parse_events("<unterminated").unwrap_err();
    let ParseError::Expected { msg, .. } = e;
    assert_eq!(msg, "closing '>'");

    let e = parse_events("what is this").unwrap_err();
    let ParseError::Expected { msg, span, .. } = e;
    assert!(msg.starts_with("a feed event"));
    assert_eq!(span, None);

    // only whitespace may follow the closing bracket of an item line
    let e = parse_events("<http://a> x").unwrap_err();
    let ParseError::Expected { msg, row, span } = e;
    assert_eq!(msg, "the end of the line");
    assert_eq!(row, 1);
    assert_eq!(span, Some((11, 11)));
    assert!(parse_events("<http://a>   \n").is_ok());
}

#[test]
fn test_events_round_trip_concrete() {
    let input = "<http://a.example/1>\nread 2020-02-02T02:02:02+00:00\n<http://a.example/2>\n";
    let events = parse_events(input).unwrap();
    let out = serialize_events(&events);
    assert_eq!(out, input);
    assert_eq!(parse_events(&out), Ok(events));
}

#[test]
fn test_parse_command_words() {
    assert_eq!(
        parse_command("firefox --new-tab @URL"),
        Ok(vec!["firefox".to_string(), "--new-tab".to_string(), "@URL".to_string()])
    );
    assert_eq!(parse_command("  open  "), Ok(vec!["open".to_string()]));
    assert!(parse_command("").is_err());
    assert!(parse_command("   ").is_err());
}

#[test]
fn test_weekday_error_span_covers_token() {
    let e = parse_config("\"Foo\" <http://x> @ on wendsday").unwrap_err();
    assert_eq!(e, ParseError::expected("a weekday", 1, (22, 29)));
}

#[test]
fn test_render_parse_error() {
    // the caret underline covers the misspelled token exactly
    let text = "\"Foo\" <http://x> @ on wendsday";
    let err = parse_config(text).unwrap_err();
    let rendered = render_parse_error("config", text, &err);
    assert_eq!(
        rendered,
        "Line 1: Error parsing config\n\n\"Foo\" <http://x> @ on wendsday\n                      ^^^^^^^^\nExpected a weekday"
    );

    // an error without a span renders a blank underline line
    let text = "nonsense";
    let err = parse_events(text).unwrap_err();
    let rendered = render_parse_error("the log", text, &err);
    assert_eq!(
        rendered,
        "Line 1: Error parsing the log\n\nnonsense\n\nExpected a feed event. One of:\n - \"<url>\"\n - \"read DATE\""
    );

    // the row picks the offending line out of a multi-line text
    let text = "\"A\" <http://a>\n\"B\" oops";
    let err = parse_config(text).unwrap_err();
    let rendered = render_parse_error("config", text, &err);
    assert_eq!(
        rendered,
        "Line 2: Error parsing config\n\n\"B\" oops\n    ^\nExpected character '<'"
    );
}
