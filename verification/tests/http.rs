use followup::http::{
    authorized, error_response, escape, handle_request, parse_tweet_body, query_value,
    render_dashboard, response,
};
use followup::model::{Dashboard, Status};
use followup::service::FollowUpService;
use followup::store::MemoryStore;

fn service() -> FollowUpService<MemoryStore> {
    FollowUpService::new(MemoryStore::new())
}

fn json_response(status: &str, body: &str) -> String {
    format!(
        "HTTP/1.1 {status}\r\nContent-Type: application/json\r\nContent-Length: {}\r\nConnection: close\r\n\r\n{body}",
        body.len()
    )
}

#[test]
fn writes_responses_with_byte_lengths() {
    assert_eq!(
        response("200 OK", "text/plain", "hé"),
        "HTTP/1.1 200 OK\r\nContent-Type: text/plain\r\nContent-Length: 3\r\nConnection: close\r\n\r\nhé"
    );
    assert_eq!(
        error_response("bad \"x\""),
        json_response("500 Internal Server Error", "{\"error\":\"bad \\\"x\\\"\"}")
    );
}

#[test]
fn escapes_html() {
    assert_eq!(escape("<a href=\"x\">&</a>"), "&lt;a href=&quot;x&quot;&gt;&amp;&lt;/a&gt;");
    assert_eq!(escape("plain 'text'"), "plain 'text'");
}

#[test]
fn checks_bearer_tokens() {
    let headers = vec!["Host: x".to_string(), "authorization:   Bearer s3cret  ".to_string()];
    assert!(authorized(None, &headers));
    assert!(authorized(Some("s3cret"), &headers));
    assert!(!authorized(Some("other"), &headers));
    assert!(!authorized(Some("s3cret"), &vec!["Authorization Bearer s3cret".to_string()]));
    assert!(!authorized(Some("s3cret"), &vec![]));
    assert!(authorized(Some("t"), &vec!["AUTHORIZATION: Bearer t".to_string()]));
    assert!(!authorized(Some("t"), &vec!["Authorization: bearer t".to_string()]));
}

#[test]
fn reads_query_values() {
    assert_eq!(query_value("/api/tweets?status=waiting", "status"), Some("waiting".to_string()));
    assert_eq!(query_value("/api/tweets?a=1&status=&b=2", "status"), Some(String::new()));
    assert_eq!(query_value("/api/tweets?a=1&b", "b"), None);
    assert_eq!(query_value("/api/tweets", "status"), None);
    assert_eq!(query_value("/x?s=1=2&s=3", "s"), Some("1=2".to_string()));
}

#[test]
fn reads_tweet_bodies() {
    let t = parse_tweet_body(
        "{\"tweet_id\":\"1\",\"author\":\"@a\",\"text\":\"hi\",\"created_at\":\"2026-01-01T00:00:00Z\",\"in_reply_to_tweet_id\":\"\"}",
    )
    .unwrap();
    assert_eq!(t.tweet_id, "1");
    assert_eq!(t.created_at, "2026-01-01T00:00:00Z");
    assert_eq!(t.in_reply_to_tweet_id, None);
    assert_eq!(parse_tweet_body("{\"author\":\"@a\"}").unwrap_err(), "missing tweet_id");
    assert_eq!(parse_tweet_body("{\"tweet_id\":\"1\"}").unwrap_err(), "missing author");
    assert_eq!(
        parse_tweet_body("{\"tweet_id\":\"1\",\"author\":\"@a\",\"text\":null}").unwrap_err(),
        "missing text"
    );
    assert_eq!(parse_tweet_body("nope").unwrap_err(), "expected {");
    let now = parse_tweet_body("{\"tweet_id\":\"1\",\"author\":\"@a\",\"text\":\"x\"}").unwrap();
    assert_eq!(now.created_at.len(), 20);
    assert!(now.created_at.ends_with('Z'));
}

#[test]
fn renders_empty_dashboard_page() {
    let d = Dashboard { waiting: 1, answered: 2, expired: 3, closed: 4, tweets: vec![], drafts: vec![] };
    let page = render_dashboard(&d);
    assert!(page.starts_with("<!doctype html><html lang=\"tr\">"));
    assert!(page.contains("<div class=\"stat\"><b>1</b>WAITING</div><div class=\"stat\"><b>2</b>ANSWERED</div><div class=\"stat\"><b>3</b>EXPIRED</div><div class=\"stat\"><b>4</b>CLOSED</div>"));
    assert!(page.contains("<tr><td colspan=\"6\" class=\"empty\">Henüz takip edilen tweet yok.</td></tr>"));
    assert!(page.ends_with("</tbody></table></main></body></html>"));
}

#[test]
fn health_and_unknown_routes() {
    let mut s = service();
    assert_eq!(
        handle_request(&mut s, "GET /health HTTP/1.1\r\nHost: x\r\n\r\n", Some("t")).unwrap(),
        json_response("200 OK", "{\"ok\":true}")
    );
    assert_eq!(
        handle_request(&mut s, "GET /nope HTTP/1.1\r\n\r\n", None).unwrap(),
        json_response("404 Not Found", "{\"error\":\"not found\"}")
    );
    assert_eq!(
        handle_request(&mut s, "POST /health HTTP/1.1\r\n\r\n", None).unwrap(),
        json_response("404 Not Found", "{\"error\":\"not found\"}")
    );
    assert_eq!(handle_request(&mut s, "", None).unwrap_err(), "empty request");
    assert_eq!(handle_request(&mut s, "\r\n\r\nbody", None).unwrap_err(), "empty request");
}

#[test]
fn api_routes_need_the_token() {
    let mut s = service();
    let refused = json_response("401 Unauthorized", "{\"error\":\"unauthorized\"}");
    assert_eq!(handle_request(&mut s, "GET /api/tweets HTTP/1.1\r\n\r\n", Some("k")).unwrap(), refused);
    assert_eq!(handle_request(&mut s, "POST /api/check HTTP/1.1\r\n\r\n", Some("k")).unwrap(), refused);
    assert_eq!(
        handle_request(&mut s, "POST /api/tweets/1/close HTTP/1.1\r\nAuthorization: Bearer x\r\n\r\n", Some("k")).unwrap(),
        refused
    );
    assert_eq!(
        handle_request(&mut s, "POST /api/check HTTP/1.1\r\nAuthorization: Bearer k\r\n\r\n", Some("k")).unwrap(),
        json_response("200 OK", "{\"expired\":0}")
    );
}

#[test]
fn ingest_tracks_answers_and_lists() {
    let mut s = service();
    let body = "{\"tweet_id\":\"1\",\"author\":\"@me\",\"text\":\"@unity news? #fu30\",\"created_at\":\"2999-05-05T00:00:00Z\"}";
    let req = format!("POST /api/ingest HTTP/1.1\r\nContent-Type: application/json\r\n\r\n{body}");
    let r = handle_request(&mut s, &req, None).unwrap();
    assert!(r.starts_with("HTTP/1.1 200 OK\r\n"));
    assert!(r.contains("\r\n\r\n{\"tracked\":{\"id\":1,\"tweet_id\":\"1\""));
    assert!(r.contains("\"expire_at\":\"2999-06-04T00:00:00Z\""));

    let untagged = "POST /api/ingest HTTP/1.1\r\n\r\n{\"tweet_id\":\"3\",\"author\":\"@me\",\"text\":\"hi\"}";
    assert_eq!(handle_request(&mut s, untagged, None).unwrap(), json_response("200 OK", "{\"tracked\":null}"));

    let reply = "POST /api/ingest HTTP/1.1\r\n\r\n{\"tweet_id\":\"2\",\"author\":\"@unity\",\"text\":\"soon\",\"in_reply_to_tweet_id\":\"1\"}";
    assert_eq!(
        handle_request(&mut s, reply, None).unwrap(),
        json_response("200 OK", "{\"answered\":true,\"tracked\":null}")
    );

    let list = handle_request(&mut s, "GET /api/tweets?status=answered HTTP/1.1\r\n\r\n", None).unwrap();
    assert!(list.contains("\"counts\":{\"WAITING\":0,\"ANSWERED\":1,\"EXPIRED\":0,\"CLOSED\":0}"));
    assert!(list.contains("\"status\":\"ANSWERED\""));
    let none = handle_request(&mut s, "GET /api/tweets?status=closed HTTP/1.1\r\n\r\n", None).unwrap();
    assert!(none.contains("\"tweets\":[]"));

    let bad = "POST /api/ingest HTTP/1.1\r\n\r\n{\"author\":\"@me\"}";
    assert_eq!(handle_request(&mut s, bad, None).unwrap_err(), "missing tweet_id");
}

#[test]
fn closes_through_the_api_and_shows_the_page() {
    let mut s = service();
    let body = "{\"tweet_id\":\"42\",\"author\":\"@me\",\"text\":\"@x <b> #fu7\",\"created_at\":\"2999-01-01T00:00:00Z\"}";
    handle_request(&mut s, &format!("POST /api/ingest HTTP/1.1\r\n\r\n{body}"), None).unwrap();
    assert_eq!(
        handle_request(&mut s, "POST /api/tweets/42/close HTTP/1.1\r\n\r\n", None).unwrap(),
        json_response("200 OK", "{\"closed\":true}")
    );
    assert_eq!(
        handle_request(&mut s, "POST /api/tweets/42/close HTTP/1.1\r\n\r\n", None).unwrap(),
        json_response("200 OK", "{\"closed\":false}")
    );
    let page = handle_request(&mut s, "GET / HTTP/1.1\r\n\r\n", Some("k")).unwrap();
    assert!(page.starts_with("HTTP/1.1 200 OK\r\nContent-Type: text/html; charset=utf-8\r\n"));
    assert!(page.contains("<b>1</b>CLOSED"));
    assert!(page.contains("<td>@x &lt;b&gt; #fu7</td>"));
    assert!(page.contains("<td>Closed manually</td>"));
    let d = s.dashboard(Some(Status::Closed)).unwrap();
    assert_eq!(d.tweets.len(), 1);
}

#[test]
fn close_route_takes_every_prefix_and_suffix_off() {
    let mut s = service();
    let body = "{\"tweet_id\":\"7\",\"author\":\"@me\",\"text\":\"@x q #fu7\",\"created_at\":\"2999-01-01T00:00:00Z\"}";
    handle_request(&mut s, &format!("POST /api/ingest HTTP/1.1\r\n\r\n{body}"), None).unwrap();
    assert_eq!(
        handle_request(&mut s, "POST /api/tweets//api/tweets/7/close/close?x=1 HTTP/1.1\r\n\r\n", None).unwrap(),
        json_response("200 OK", "{\"closed\":true}")
    );
}

#[test]
fn refused_requests_change_nothing() {
    let mut s = service();
    let body = "{\"tweet_id\":\"1\",\"author\":\"@me\",\"text\":\"@x q #fu7\",\"created_at\":\"2999-01-01T00:00:00Z\"}";
    let r = handle_request(&mut s, &format!("POST /api/ingest HTTP/1.1\r\n\r\n{body}"), Some("k")).unwrap();
    assert_eq!(r, json_response("401 Unauthorized", "{\"error\":\"unauthorized\"}"));
    assert_eq!(s.dashboard(None).unwrap().tweets.len(), 0);
}
