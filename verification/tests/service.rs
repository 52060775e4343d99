use followup::date::{add_days_iso, epoch_to_iso, iso_to_epoch};
use followup::model::{IncomingTweet, Status};
use followup::service::{normalize_handle, FollowUpService};
use followup::store::MemoryStore;

fn tweet(id: &str, author: &str, text: &str, created_at: &str, reply_to: Option<&str>) -> IncomingTweet {
    IncomingTweet {
        tweet_id: id.to_string(),
        author: author.to_string(),
        text: text.to_string(),
        created_at: created_at.to_string(),
        in_reply_to_tweet_id: reply_to.map(|v| v.to_string()),
    }
}

#[test]
fn date_round_trip_and_add_days() {
    assert_eq!(iso_to_epoch("1970-01-01T00:00:00Z"), 0);
    assert_eq!(epoch_to_iso(0), "1970-01-01T00:00:00Z");
    assert_eq!(
        add_days_iso("2026-05-05T10:00:00Z", 7),
        "2026-05-12T10:00:00Z"
    );
}

#[test]
fn tracks_and_marks_answered() {
    let mut service = FollowUpService::new(MemoryStore::new());
    let record = service
        .ingest_tweet(IncomingTweet {
            tweet_id: "1".to_string(),
            author: "@me".to_string(),
            text: "@unity update? #fu30".to_string(),
            created_at: "2026-05-05T00:00:00Z".to_string(),
            in_reply_to_tweet_id: None,
        })
        .unwrap()
        .unwrap();
    assert_eq!(record.target, "@unity");
    assert_eq!(record.expire_at, "2026-06-04T00:00:00Z");

    assert!(service
        .ingest_reply(IncomingTweet {
            tweet_id: "2".to_string(),
            author: "@unity".to_string(),
            text: "yes".to_string(),
            created_at: "2026-05-06T00:00:00Z".to_string(),
            in_reply_to_tweet_id: Some("1".to_string()),
        })
        .unwrap());

    let dashboard = service.dashboard(None).unwrap();
    assert_eq!(dashboard.answered, 1);
    assert_eq!(dashboard.waiting, 0);
}

#[test]
fn expires_old_waiting_tweets() {
    let mut service = FollowUpService::new(MemoryStore::new());
    service
        .ingest_tweet(IncomingTweet {
            tweet_id: "old".to_string(),
            author: "@me".to_string(),
            text: "@company stale #fu1".to_string(),
            created_at: "2020-01-01T00:00:00Z".to_string(),
            in_reply_to_tweet_id: None,
        })
        .unwrap();
    assert_eq!(service.expire_due().unwrap(), 1);
    let dashboard = service.dashboard(None).unwrap();
    assert_eq!(dashboard.expired, 1);
    assert_eq!(dashboard.drafts.len(), 1);
}

#[test]
fn date_formats_and_reads_leap_days() {
    assert_eq!(epoch_to_iso(951_782_400), "2000-02-29T00:00:00Z");
    assert_eq!(iso_to_epoch("2000-02-29T00:00:00Z"), 951_782_400);
    assert_eq!(iso_to_epoch("2026-05-05T10:11:12Z"), 1_777_975_872);
    assert_eq!(epoch_to_iso(1_777_975_872), "2026-05-05T10:11:12Z");
    assert_eq!(add_days_iso("2024-02-28T12:00:00Z", 1), "2024-02-29T12:00:00Z");
    assert_eq!(add_days_iso("2025-12-31T23:59:59Z", 1), "2026-01-01T23:59:59Z");
}

#[test]
fn date_reads_short_or_broken_text_as_epoch_start() {
    assert_eq!(iso_to_epoch(""), 0);
    assert_eq!(iso_to_epoch("not a date"), 0);
    assert_eq!(epoch_to_iso(iso_to_epoch("garbage")), "1970-01-01T00:00:00Z");
}

#[test]
fn round_trip_law_on_values() {
    for e in [0u64, 59, 86_399, 86_400, 1_000_000_000, 4_102_444_800, 253_402_300_799] {
        assert_eq!(iso_to_epoch(&epoch_to_iso(e)), e);
    }
}

#[test]
fn add_days_law_on_values() {
    let iso = "2026-03-01T08:30:00Z";
    for days in [0u64, 1, 30, 365] {
        assert_eq!(iso_to_epoch(&add_days_iso(iso, days)), iso_to_epoch(iso) + days * 86_400);
    }
}

#[test]
fn normalizes_handles() {
    assert_eq!(normalize_handle("me"), "@me");
    assert_eq!(normalize_handle("  @you  "), "@you");
    assert_eq!(normalize_handle(""), "@");
}

#[test]
fn untagged_tweet_is_not_tracked() {
    let mut service = FollowUpService::new(MemoryStore::new());
    let r = service
        .ingest_tweet(tweet("5", "@me", "@unity hello", "2026-05-05T00:00:00Z", None))
        .unwrap();
    assert!(r.is_none());
    assert_eq!(service.dashboard(None).unwrap().tweets.len(), 0);
}

#[test]
fn tracked_record_carries_the_tweet() {
    let mut service = FollowUpService::new(MemoryStore::new());
    let t = service
        .ingest_tweet(tweet("7", "me", "Hey @Support did it ship? #FU14", "2026-01-01T00:00:00Z", None))
        .unwrap()
        .unwrap();
    assert_eq!(t.id, 1);
    assert_eq!(t.author, "@me");
    assert_eq!(t.target, "@Support");
    assert_eq!(t.tag, "#fu14");
    assert_eq!(t.status, Status::Waiting);
    assert_eq!(t.expire_at, "2026-01-15T00:00:00Z");
    assert_eq!(t.answered_at, None);
}

#[test]
fn ingesting_the_same_tweet_twice_keeps_the_first_record() {
    let mut service = FollowUpService::new(MemoryStore::new());
    let first = service
        .ingest_tweet(tweet("9", "@me", "@a q #fu7", "2026-01-01T00:00:00Z", None))
        .unwrap()
        .unwrap();
    let second = service
        .ingest_tweet(tweet("9", "@me", "@b other #fu30", "2026-02-01T00:00:00Z", None))
        .unwrap()
        .unwrap();
    assert_eq!(second, first);
    assert_eq!(service.dashboard(None).unwrap().tweets.len(), 1);
}

#[test]
fn reply_from_someone_else_does_not_answer() {
    let mut service = FollowUpService::new(MemoryStore::new());
    service
        .ingest_tweet(tweet("1", "@me", "@unity q #fu7", "2999-05-05T00:00:00Z", None))
        .unwrap();
    let answered = service
        .ingest_reply(tweet("2", "@other", "no", "2026-05-06T00:00:00Z", Some("1")))
        .unwrap();
    assert!(!answered);
    let not_a_reply = service
        .ingest_reply(tweet("3", "@unity", "x", "2026-05-06T00:00:00Z", None))
        .unwrap();
    assert!(!not_a_reply);
    let unknown = service
        .ingest_reply(tweet("4", "@unity", "x", "2026-05-06T00:00:00Z", Some("99")))
        .unwrap();
    assert!(!unknown);
    assert_eq!(service.dashboard(None).unwrap().waiting, 1);
}

#[test]
fn reply_matches_target_ignoring_case_and_notes_it() {
    let mut service = FollowUpService::new(MemoryStore::new());
    service
        .ingest_tweet(tweet("1", "@me", "@Unity q #fu7", "2026-05-05T00:00:00Z", None))
        .unwrap();
    assert!(service
        .ingest_reply(tweet("2", "UNITY", "yes", "2026-05-06T00:00:00Z", Some("1")))
        .unwrap());
    let d = service.dashboard(Some(Status::Answered)).unwrap();
    assert_eq!(d.tweets.len(), 1);
    let t = &d.tweets[0];
    assert_eq!(t.notes.as_deref(), Some("Answered by @UNITY"));
    assert_eq!(t.answered_at.as_deref(), Some("2026-05-06T00:00:00Z"));
    assert_eq!(t.answer_tweet_id.as_deref(), Some("2"));
    // an answered record is not answered again
    assert!(!service
        .ingest_reply(tweet("3", "@unity", "again", "2026-05-07T00:00:00Z", Some("1")))
        .unwrap());
}

#[test]
fn closes_waiting_tweets_by_hand() {
    let mut service = FollowUpService::new(MemoryStore::new());
    service
        .ingest_tweet(tweet("1", "@me", "@x q #fu7", "2999-01-01T00:00:00Z", None))
        .unwrap();
    assert!(service.close_manually("1", None).unwrap());
    assert!(!service.close_manually("1", None).unwrap());
    assert!(!service.close_manually("nope", Some("n".to_string())).unwrap());
    let d = service.dashboard(None).unwrap();
    assert_eq!(d.closed, 1);
    assert_eq!(d.tweets[0].notes.as_deref(), Some("Closed manually"));
    assert!(d.tweets[0].answered_at.is_some());
}

#[test]
fn close_keeps_given_notes() {
    let mut service = FollowUpService::new(MemoryStore::new());
    service
        .ingest_tweet(tweet("1", "@me", "@x q #fu7", "2999-01-01T00:00:00Z", None))
        .unwrap();
    assert!(service.close_manually("1", Some("done".to_string())).unwrap());
    let d = service.dashboard(Some(Status::Closed)).unwrap();
    assert_eq!(d.tweets[0].notes.as_deref(), Some("done"));
}

#[test]
fn expire_at_counts_only_due_waiting_tweets() {
    let mut service = FollowUpService::new(MemoryStore::new());
    service
        .ingest_tweet(tweet("a", "@me", "@x q #fu1", "2999-01-01T00:00:00Z", None))
        .unwrap();
    service
        .ingest_tweet(tweet("b", "@me", "@x q #fu30", "2999-01-01T00:00:00Z", None))
        .unwrap();
    // one second before the first expiry, nothing is due
    let first = iso_to_epoch("2999-01-02T00:00:00Z");
    assert_eq!(service.expire_due_at(first - 1).unwrap(), 0);
    assert_eq!(service.expire_due_at(first).unwrap(), 1);
    assert_eq!(service.expire_due_at(first).unwrap(), 0);
    let d = service.dashboard(Some(Status::Waiting)).unwrap();
    assert_eq!(d.tweets.len(), 1);
    assert_eq!(d.tweets[0].tweet_id, "b");
}

#[test]
fn dashboard_drafts_follow_ups_for_expired_tweets() {
    let mut service = FollowUpService::new(MemoryStore::new());
    service
        .ingest_tweet(tweet("old", "@me", "@company stale #fu1", "2020-01-01T00:00:00Z", None))
        .unwrap();
    let d = service.dashboard(Some(Status::Expired)).unwrap();
    assert_eq!(d.drafts.len(), 1);
    assert_eq!(d.drafts[0].tweet_id, "old");
    assert_eq!(d.drafts[0].target, "@company");
    assert_eq!(d.drafts[0].text, "@company bu konu hakkında bir güncelleme var mı?");
    assert!(d.drafts[0].days_waited > 365);
    let waiting = service.dashboard(Some(Status::Waiting)).unwrap();
    assert_eq!(waiting.drafts.len(), 0);
    assert_eq!(waiting.expired, 1);
}

#[test]
fn dashboard_json_lists_counts_first() {
    let mut service = FollowUpService::new(MemoryStore::new());
    let text = service.dashboard_json(None).unwrap();
    assert_eq!(
        text,
        "{\"counts\":{\"WAITING\":0,\"ANSWERED\":0,\"EXPIRED\":0,\"CLOSED\":0},\"tweets\":[],\"drafts\":[]}"
    );
}

#[test]
fn status_names_read_in_any_case() {
    assert_eq!(Status::parse("waiting"), Some(Status::Waiting));
    assert_eq!(Status::parse("Answered"), Some(Status::Answered));
    assert_eq!(Status::parse("EXPIRED"), Some(Status::Expired));
    assert_eq!(Status::parse("closed"), Some(Status::Closed));
    assert_eq!(Status::parse("open"), None);
    assert_eq!(Status::Waiting.as_str(), "WAITING");
    assert_eq!(Status::Closed.as_str(), "CLOSED");
    for s in [Status::Waiting, Status::Answered, Status::Expired, Status::Closed] {
        assert_eq!(Status::parse(s.as_str()), Some(s));
    }
}

#[test]
fn settled_records_do_not_change() {
    let mut service = FollowUpService::new(MemoryStore::new());
    service
        .ingest_tweet(tweet("1", "@me", "@x q #fu7", "2026-01-01T00:00:00Z", None))
        .unwrap();
    assert!(service
        .ingest_reply(tweet("2", "@x", "a", "2026-01-02T00:00:00Z", Some("1")))
        .unwrap());
    let before = service.dashboard(Some(Status::Answered)).unwrap().tweets;
    assert_eq!(service.expire_due_at(u64::MAX / 2).unwrap(), 0);
    assert!(!service.close_manually("1", None).unwrap());
    assert!(!service
        .ingest_reply(tweet("3", "@x", "b", "2026-01-03T00:00:00Z", Some("1")))
        .unwrap());
    let after = service.dashboard(Some(Status::Answered)).unwrap().tweets;
    assert_eq!(before, after);
}

#[test]
fn dashboard_counts_add_up() {
    let mut service = FollowUpService::new(MemoryStore::new());
    service.ingest_tweet(tweet("a", "@me", "@x q #fu7", "2999-01-01T00:00:00Z", None)).unwrap();
    service.ingest_tweet(tweet("b", "@me", "@x q #fu7", "2020-01-01T00:00:00Z", None)).unwrap();
    service.ingest_tweet(tweet("c", "@me", "@x q #fu7", "2999-01-01T00:00:00Z", None)).unwrap();
    service.close_manually("c", None).unwrap();
    let d = service.dashboard(None).unwrap();
    assert_eq!((d.waiting, d.answered, d.expired, d.closed), (1, 0, 1, 1));
    assert_eq!(d.waiting + d.answered + d.expired + d.closed, d.tweets.len());
}

#[test]
fn untagged_tweets_and_replies_take_no_id() {
    let mut service = FollowUpService::new(MemoryStore::new());
    assert!(service.ingest_tweet(tweet("u", "@me", "no tag here", "2999-01-01T00:00:00Z", None)).unwrap().is_none());
    let first = service
        .ingest_tweet(tweet("a", "@me", "@x q #fu7", "2999-01-01T00:00:00Z", None))
        .unwrap()
        .unwrap();
    assert_eq!(first.id, 1);
    assert!(!service.ingest_reply(tweet("r", "@x", "hi", "2999-01-02T00:00:00Z", None)).unwrap());
    assert!(service.ingest_reply(tweet("s", "@x", "hi", "2999-01-02T00:00:00Z", Some("a"))).unwrap());
    let second = service
        .ingest_tweet(tweet("b", "@me", "@y q #fu7", "2999-01-01T00:00:00Z", None))
        .unwrap()
        .unwrap();
    assert_eq!(second.id, 2);
}

#[test]
fn dashboard_shows_the_store_listing_order() {
    let mut service = FollowUpService::new(MemoryStore::new());
    for id in ["c", "a", "b"] {
        service.ingest_tweet(tweet(id, "@me", "@x q #fu7", "2999-01-01T00:00:00Z", None)).unwrap();
    }
    let ids: Vec<String> = service.dashboard(None).unwrap().tweets.into_iter().map(|t| t.tweet_id).collect();
    assert_eq!(ids, vec!["c".to_string(), "a".to_string(), "b".to_string()]);
}

#[test]
fn timestamp_text_order_is_time_order() {
    let secs = [0u64, 59, 86_399, 86_400, 951_782_400, 1_777_975_872, 253_402_300_799];
    for a in secs {
        for b in secs {
            assert_eq!(epoch_to_iso(a) < epoch_to_iso(b), a < b);
        }
    }
    // a text read as seconds and written again reads back as the same seconds
    let s = epoch_to_iso(iso_to_epoch("2026-13-40T99:00:00Z"));
    assert_eq!(iso_to_epoch(&epoch_to_iso(iso_to_epoch(&s))), iso_to_epoch(&s));
}
