use followup::model::{Status, TrackedTweet};
use followup::store::{decode_tweet, encode_tweet, none_if_empty, MemoryStore, TweetStore};

fn record(id: u64, tweet_id: &str) -> TrackedTweet {
    TrackedTweet {
        id,
        tweet_id: tweet_id.to_string(),
        author: "@me".to_string(),
        target: "@you".to_string(),
        tag: "#fu7".to_string(),
        status: Status::Waiting,
        text: "@you hello #fu7".to_string(),
        created_at: "2026-05-05T00:00:00Z".to_string(),
        expire_at: "2026-05-12T00:00:00Z".to_string(),
        answered_at: None,
        answer_tweet_id: None,
        notes: None,
    }
}

#[test]
fn tweet_codec_round_trips() {
    let tweet = TrackedTweet {
        id: 1,
        tweet_id: "100".to_string(),
        author: "@me".to_string(),
        target: "@you".to_string(),
        tag: "#fu7".to_string(),
        status: Status::Waiting,
        text: "@you hello #fu7".to_string(),
        created_at: "2026-05-05T00:00:00Z".to_string(),
        expire_at: "2026-05-12T00:00:00Z".to_string(),
        answered_at: None,
        answer_tweet_id: None,
        notes: None,
    };
    assert_eq!(decode_tweet(&encode_tweet(&tweet)).unwrap(), tweet);
}

#[test]
fn codec_round_trips_escapes_and_options() {
    let mut t = record(42, "7\"x");
    t.status = Status::Answered;
    t.text = "line\nbreak\ttab \\ slash / quote \" back\u{8} feed\u{c}".to_string();
    t.answered_at = Some("2026-05-06T00:00:00Z".to_string());
    t.answer_tweet_id = Some("8".to_string());
    t.notes = Some("Answered by @you".to_string());
    assert_eq!(decode_tweet(&encode_tweet(&t)).unwrap(), t);
}

#[test]
fn encodes_a_record_as_one_json_object() {
    let t = record(3, "9");
    assert_eq!(
        encode_tweet(&t),
        "{\"id\":3,\"tweet_id\":\"9\",\"author\":\"@me\",\"target\":\"@you\",\"tag\":\"#fu7\",\"status\":\"WAITING\",\"text\":\"@you hello #fu7\",\"created_at\":\"2026-05-05T00:00:00Z\",\"expire_at\":\"2026-05-12T00:00:00Z\",\"answered_at\":null,\"answer_tweet_id\":null,\"notes\":null}"
    );
}

#[test]
fn decoding_fills_what_is_missing() {
    let t = decode_tweet("{\"tweet_id\":\"5\",\"status\":\"closed\",\"id\":\"x\"}").unwrap();
    assert_eq!(t.id, 0);
    assert_eq!(t.tweet_id, "5");
    assert_eq!(t.status, Status::Closed);
    assert_eq!(t.author, "");
    assert_eq!(t.notes, None);
    let u = decode_tweet("{\"status\":\"other\"}").unwrap();
    assert_eq!(u.status, Status::Waiting);
}

#[test]
fn decoding_reports_json_errors() {
    assert_eq!(decode_tweet("[]").unwrap_err(), "expected {");
    assert_eq!(decode_tweet("{\"a\" 1}").unwrap_err(), "expected :");
}

#[test]
fn empty_text_reads_as_none() {
    assert_eq!(none_if_empty(String::new()), None);
    assert_eq!(none_if_empty("x".to_string()), Some("x".to_string()));
}

#[test]
fn memory_store_files_by_tweet_id() {
    let mut store = MemoryStore::new();
    assert_eq!(store.next_id().unwrap(), 1);
    assert_eq!(store.next_id().unwrap(), 2);
    let a = store.add_tracked(record(1, "a")).unwrap();
    assert_eq!(a, record(1, "a"));
    // a second record with the same tweet id keeps the first
    let again = store.add_tracked(record(9, "a")).unwrap();
    assert_eq!(again.id, 1);
    store.add_tracked(record(2, "b")).unwrap();
    let mut b = record(2, "b");
    b.status = Status::Expired;
    store.save_tracked(b.clone()).unwrap();
    assert_eq!(store.get_by_tweet_id("b").unwrap(), Some(b));
    assert_eq!(store.get_by_tweet_id("c").unwrap(), None);
    assert_eq!(store.list_tracked(None).unwrap().len(), 2);
    let expired = store.list_tracked(Some(Status::Expired)).unwrap();
    assert_eq!(expired.len(), 1);
    assert_eq!(expired[0].tweet_id, "b");
    assert_eq!(store.list_tracked(Some(Status::Closed)).unwrap().len(), 0);
}

#[test]
fn saving_an_unknown_record_files_nothing() {
    let mut store = MemoryStore::new();
    store.save_tracked(record(1, "z")).unwrap();
    assert_eq!(store.get_by_tweet_id("z").unwrap(), None);
}

#[test]
fn control_characters_do_not_read_back() {
    // `\u` escapes are written for control characters but not read
    let mut t = record(1, "1");
    t.text = "bell\u{7}".to_string();
    assert_eq!(decode_tweet(&encode_tweet(&t)).unwrap_err(), "unsupported escape");
}
