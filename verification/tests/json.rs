use followup::json::{dashboard, parse_object, string, tweet};
use followup::model::{Dashboard, FollowUpDraft, Status, TrackedTweet};

fn pairs(v: &[(&str, &str)]) -> Vec<(String, String)> {
    v.iter().map(|(k, x)| (k.to_string(), x.to_string())).collect()
}

#[test]
fn quotes_and_escapes_strings() {
    assert_eq!(string("plain"), "\"plain\"");
    assert_eq!(string("a\"b\\c"), "\"a\\\"b\\\\c\"");
    assert_eq!(string("\n\r\t\u{8}\u{c}"), "\"\\n\\r\\t\\b\\f\"");
    assert_eq!(string("\u{1}\u{1f}\u{7f}"), "\"\\u0001\\u001f\\u007f\"");
    assert_eq!(string("\u{85}"), "\"\\u0085\"");
    assert_eq!(string("ğü/"), "\"ğü/\"");
    assert_eq!(string(""), "\"\"");
}

#[test]
fn parses_flat_objects() {
    assert_eq!(parse_object("{}").unwrap(), pairs(&[]));
    assert_eq!(parse_object("  { }  ").unwrap(), pairs(&[]));
    assert_eq!(
        parse_object("{\"a\":\"x\",\"b\": null , \"c\": 12 ,\"d\":true}").unwrap(),
        pairs(&[("a", "x"), ("b", ""), ("c", "12"), ("d", "true")])
    );
    assert_eq!(
        parse_object("{\"e\":\"q\\\"\\\\\\/\\n\\r\\t\\b\\f\"}").unwrap(),
        pairs(&[("e", "q\"\\/\n\r\t\u{8}\u{c}")])
    );
}

#[test]
fn parse_object_keeps_going_after_the_closing_brace_nowhere() {
    // what follows the closing brace is not read
    assert_eq!(parse_object("{\"a\":\"1\"} trailing").unwrap(), pairs(&[("a", "1")]));
}

#[test]
fn parse_object_reads_bytes_of_non_ascii_text_one_by_one() {
    let parsed = parse_object("{\"k\":\"é\"}").unwrap();
    assert_eq!(parsed[0].1, "\u{c3}\u{a9}");
}

#[test]
fn parse_object_reports_each_error() {
    assert_eq!(parse_object("").unwrap_err(), "expected {");
    assert_eq!(parse_object("[1]").unwrap_err(), "expected {");
    assert_eq!(parse_object("{a:1}").unwrap_err(), "expected \"");
    assert_eq!(parse_object("{\"a\" 1}").unwrap_err(), "expected :");
    assert_eq!(parse_object("{\"a\":\"1\" \"b\"}").unwrap_err(), "expected comma or closing brace");
    assert_eq!(parse_object("{\"a\":\"1").unwrap_err(), "unterminated string");
    assert_eq!(parse_object("{\"a\":\"\\").unwrap_err(), "incomplete escape");
    assert_eq!(parse_object("{\"a\":\"\\u0041\"}").unwrap_err(), "unsupported escape");
    assert_eq!(parse_object("{\"a\":1").unwrap_err(), "expected comma or closing brace");
}

#[test]
fn writes_tweets_and_dashboards() {
    let t = TrackedTweet {
        id: 1,
        tweet_id: "1".to_string(),
        author: "@me".to_string(),
        target: "@u".to_string(),
        tag: "#fu".to_string(),
        status: Status::Expired,
        text: "t".to_string(),
        created_at: "c".to_string(),
        expire_at: "e".to_string(),
        answered_at: None,
        answer_tweet_id: None,
        notes: Some("n".to_string()),
    };
    let one = tweet(&t);
    assert_eq!(
        one,
        "{\"id\":1,\"tweet_id\":\"1\",\"author\":\"@me\",\"target\":\"@u\",\"tag\":\"#fu\",\"status\":\"EXPIRED\",\"text\":\"t\",\"created_at\":\"c\",\"expire_at\":\"e\",\"answered_at\":null,\"answer_tweet_id\":null,\"notes\":\"n\"}"
    );
    let d = Dashboard {
        waiting: 0,
        answered: 2,
        expired: 1,
        closed: 3,
        tweets: vec![t.clone(), t],
        drafts: vec![FollowUpDraft {
            tweet_id: "1".to_string(),
            target: "@u".to_string(),
            days_waited: 4,
            text: "x".to_string(),
        }],
    };
    assert_eq!(
        dashboard(&d),
        format!(
            "{{\"counts\":{{\"WAITING\":0,\"ANSWERED\":2,\"EXPIRED\":1,\"CLOSED\":3}},\"tweets\":[{},{}],\"drafts\":[{{\"tweet_id\":\"1\",\"target\":\"@u\",\"days_waited\":4,\"text\":\"x\"}}]}}",
            one, one
        )
    );
}
