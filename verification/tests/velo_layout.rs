use followup::model::{Status, TrackedTweet};
use followup::velo_layout::{
    filing, index_ids, index_text, index_with, listing_of, next_id_step, tweet_key, INDEX_KEY, NEXT_ID_KEY,
};

fn strings(v: &[&str]) -> Vec<String> {
    v.iter().map(|s| s.to_string()).collect()
}

fn rec(id: u64, tweet_id: &str, expire_at: &str, status: Status) -> TrackedTweet {
    TrackedTweet {
        id,
        tweet_id: tweet_id.to_string(),
        author: "@me".to_string(),
        target: "@x".to_string(),
        tag: "#fu".to_string(),
        status,
        text: "t".to_string(),
        created_at: "c".to_string(),
        expire_at: expire_at.to_string(),
        answered_at: None,
        answer_tweet_id: None,
        notes: None,
    }
}

#[test]
fn names_keys() {
    assert_eq!(tweet_key("12"), "followup:tweet:12");
    assert_eq!(INDEX_KEY, "followup:index:tracked_tweets");
    assert_eq!(NEXT_ID_KEY, "followup:meta:next_id");
}

#[test]
fn reads_and_writes_the_index() {
    assert_eq!(index_ids(None), strings(&[]));
    assert_eq!(index_ids(Some("")), strings(&[]));
    assert_eq!(index_ids(Some("a\n\nb\n")), strings(&["a", "b"]));
    assert_eq!(index_text(&strings(&[])), "");
    assert_eq!(index_text(&strings(&["a", "b", "c"])), "a\nb\nc");
    let ids = strings(&["10", "x y", "ç"]);
    assert_eq!(index_ids(Some(&index_text(&ids))), ids);
}

#[test]
fn adds_ids_once() {
    let ids = strings(&["a", "b"]);
    assert_eq!(index_with(&ids, "c"), Some(strings(&["a", "b", "c"])));
    assert_eq!(index_with(&ids, "b"), None);
}

#[test]
fn steps_the_id_counter() {
    assert_eq!(next_id_step(None).unwrap(), (1, "2".to_string()));
    assert_eq!(next_id_step(Some("41".to_string())).unwrap(), (41, "42".to_string()));
    assert_eq!(next_id_step(Some("x".to_string())).unwrap_err(), "invalid next id in Velo-Lite");
    assert_eq!(next_id_step(Some("-1".to_string())).unwrap_err(), "invalid next id in Velo-Lite");
    assert_eq!(
        next_id_step(Some(u64::MAX.to_string())).unwrap_err(),
        "id space exhausted"
    );
}

#[test]
fn lists_in_expiry_then_id_order() {
    let found = vec![
        Some(rec(3, "c", "2026-02-01T00:00:00Z", Status::Waiting)),
        None,
        Some(rec(1, "a", "2026-03-01T00:00:00Z", Status::Expired)),
        Some(rec(2, "b", "2026-02-01T00:00:00Z", Status::Waiting)),
        Some(rec(4, "d", "2026-01-15T00:00:00Z", Status::Waiting)),
    ];
    let all: Vec<String> = listing_of(&found, None).into_iter().map(|t| t.tweet_id).collect();
    assert_eq!(all, strings(&["d", "b", "c", "a"]));
    let waiting: Vec<String> =
        listing_of(&found, Some(Status::Waiting)).into_iter().map(|t| t.tweet_id).collect();
    assert_eq!(waiting, strings(&["d", "b", "c"]));
    assert!(listing_of(&found, Some(Status::Closed)).is_empty());
}

#[test]
fn ties_keep_the_order_found() {
    let found = vec![
        Some(rec(5, "first", "2026-01-01T00:00:00Z", Status::Waiting)),
        Some(rec(5, "second", "2026-01-01T00:00:00Z", Status::Waiting)),
        Some(rec(1, "short", "2026", Status::Waiting)),
    ];
    let ids: Vec<String> = listing_of(&found, None).into_iter().map(|t| t.tweet_id).collect();
    assert_eq!(ids, strings(&["short", "first", "second"]));
}

#[test]
fn counter_text_reads_back_as_the_next_id() {
    let (id, next) = next_id_step(Some("7".to_string())).unwrap();
    assert_eq!(id, 7);
    assert_eq!(next_id_step(Some(next)).unwrap().0, 8);
}

#[test]
fn filing_writes_record_then_index() {
    let t = rec(1, "9", "2026-01-01T00:00:00Z", Status::Waiting);
    let (filed, writes) = filing(None, Some("7"), &t).unwrap();
    assert_eq!(filed, t);
    assert_eq!(writes.len(), 2);
    assert_eq!(writes[0].0, "followup:tweet:9");
    assert_eq!(writes[0].1, followup::store::encode_tweet(&t));
    assert_eq!(writes[1], (INDEX_KEY.to_string(), "7\n9".to_string()));
    let (_, listed) = filing(None, Some("9"), &t).unwrap();
    assert_eq!(listed.len(), 1);
    let stored = followup::store::encode_tweet(&t);
    let (again, none) = filing(Some(&stored), None, &rec(5, "9", "x", Status::Closed)).unwrap();
    assert_eq!(again, t);
    assert!(none.is_empty());
    assert!(filing(Some("[]"), None, &t).is_err());
}
