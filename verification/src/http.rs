//! The HTTP side of the service: the dashboard page, request parsing, access
//! tokens, routing, and response texts.
use vstd::prelude::*;
use vstd::utf8::encode_utf8;
use crate::date::{epoch_to_iso, iso_of, now_iso};
use crate::json::{parse_obj, parse_object, pair_views};
use crate::model::{
    Dashboard, IncomingTweet, IncomingView, Status, TrackedTweet, TweetView, opt_view, status_name,
    tweet_views,
};
use crate::service::{
    answers, changed_records_at, close_ok, closed_at_reading, dashboard_ok, dashboard_text, dated,
    expire_ok, extends, ingest_ok, new_records_at, one_more, reply_ok, FollowUpService,
    lemma_extends_self, lemma_extends_trans,
};
use crate::store::{lookup, non_empty, TweetStore};
use crate::text::{
    chars_of, decimal, lower, lower_all, lower_char, push_char, push_decimal, push_str,
    string_of_chars, vec_is,
    string_of_range, trim, trim_bounds,
};

verus! {

// ---------------------------------------------------------------------------
// The dashboard page
// ---------------------------------------------------------------------------

/// How the page writes one character of a value.
pub open spec fn html_char(c: char) -> Seq<char> {
    if c == '&' {
        "&amp;"@
    } else if c == '<' {
        "&lt;"@
    } else if c == '>' {
        "&gt;"@
    } else if c == '"' {
        "&quot;"@
    } else {
        seq![c]
    }
}

/// `escape`: `&`, `<`, `>` and `"` replaced by their HTML entities.
pub open spec fn html_escape(s: Seq<char>) -> Seq<char>
    decreases s.len(),
{
    if s.len() == 0 {
        seq![]
    } else {
        html_escape(s.drop_last()) + html_char(s.last())
    }
}

fn push_html_escaped(out: &mut String, s: &str)
    ensures
        final(out)@ == old(out)@ + html_escape(s@),
{
    let ghost start = out@;
    let v = chars_of(s);
    let mut i: usize = 0;
    while i < v.len()
        invariant
            0 <= i <= v.len(),
            v@ == s@,
            out@ == start + html_escape(v@.take(i as int)),
        decreases v.len() - i,
    {
        let c = v[i];
        if c == '&' {
            push_str(out, "&amp;");
        } else if c == '<' {
            push_str(out, "&lt;");
        } else if c == '>' {
            push_str(out, "&gt;");
        } else if c == '"' {
            push_str(out, "&quot;");
        } else {
            push_char(out, c);
        }
        assert(v@.take(i + 1).drop_last() =~= v@.take(i as int));
        assert(v@.take(i + 1).last() == c);
        assert(out@ =~= start + html_escape(v@.take(i + 1)));
        i = i + 1;
    }
    assert(v@.take(v.len() as int) =~= v@);
}

/// A value made safe for the page: `& < > "` written as entities.
pub fn escape(value: &str) -> (r: String)
    ensures
        r@ == html_escape(value@),
{
    let mut out = String::new();
    push_html_escaped(&mut out, value);
    assert(out@ =~= html_escape(value@));
    out
}

/// The table row of a tweet.
pub open spec fn row(t: TweetView) -> Seq<char> {
    "<tr><td><b class=\""@ + status_name(t.status) + "\">"@ + status_name(t.status)
        + "</b></td><td>"@ + html_escape(t.target) + "</td><td><code>"@ + html_escape(t.tag)
        + "</code></td><td>"@ + html_escape(t.expire_at) + "</td><td>"@ + html_escape(t.text)
        + "</td><td>"@ + html_escape(
        match t.notes {
            Some(n) => n,
            None => seq![],
        },
    ) + "</td></tr>"@
}

pub open spec fn rows(ts: Seq<TweetView>) -> Seq<char>
    decreases ts.len(),
{
    if ts.len() == 0 {
        seq![]
    } else {
        rows(ts.drop_last()) + row(ts.last())
    }
}

pub open spec fn empty_row() -> Seq<char> {
    "<tr><td colspan=\"6\" class=\"empty\">Henüz takip edilen tweet yok.</td></tr>"@
}

pub open spec fn page_top() -> Seq<char> {
    "<!doctype html><html lang=\"tr\"><head><meta charset=\"utf-8\"><meta name=\"viewport\" content=\"width=device-width,initial-scale=1\"><title>FollowUp</title><style>body{margin:0;font-family:system-ui,-apple-system,Segoe UI,sans-serif;background:#f6f8fb;color:#1f2933}header,main{padding:24px max(18px,5vw)}header{background:#fff;border-bottom:1px solid #d8dee8}h1{margin:0;font-size:28px}.stats{display:grid;grid-template-columns:repeat(auto-fit,minmax(140px,1fr));gap:12px;margin:22px 0}.stat{background:#fff;border:1px solid #d8dee8;border-radius:8px;padding:14px}.stat b{display:block;font-size:26px}table{width:100%;border-collapse:collapse;background:#fff;border:1px solid #d8dee8}td,th{padding:11px;border-bottom:1px solid #d8dee8;text-align:left;vertical-align:top}th{font-size:12px;color:#667085;background:#fbfcfe}.WAITING{color:#0f766e}.ANSWERED,.CLOSED{color:#087443}.EXPIRED{color:#b54708}.empty{text-align:center;color:#667085;padding:34px}</style></head><body><header><h1>FollowUp</h1><div>#fu tag'li sorular icin Velo-Lite destekli takip paneli</div></header><main><section class=\"stats\"><div class=\"stat\"><b>"@
}

pub open spec fn after_waiting() -> Seq<char> {
    "</b>WAITING</div><div class=\"stat\"><b>"@
}

pub open spec fn after_answered() -> Seq<char> {
    "</b>ANSWERED</div><div class=\"stat\"><b>"@
}

pub open spec fn after_expired() -> Seq<char> {
    "</b>EXPIRED</div><div class=\"stat\"><b>"@
}

pub open spec fn after_closed() -> Seq<char> {
    "</b>CLOSED</div></section><table><thead><tr><th>Status</th><th>Target</th><th>Tag</th><th>Expire</th><th>Tweet</th><th>Answer</th></tr></thead><tbody>"@
}

pub open spec fn page_bottom() -> Seq<char> {
    "</tbody></table></main></body></html>"@
}

/// The HTML page of a dashboard.
pub open spec fn page(d: Dashboard) -> Seq<char> {
    let ts = tweet_views(d.tweets@);
    page_top() + decimal(d.waiting as nat) + after_waiting() + decimal(d.answered as nat)
        + after_answered() + decimal(d.expired as nat) + after_expired() + decimal(d.closed as nat)
        + after_closed() + (if ts.len() == 0 {
        empty_row()
    } else {
        rows(ts)
    }) + page_bottom()
}

fn push_row(out: &mut String, t: &TrackedTweet)
    ensures
        final(out)@ == old(out)@ + row(t@),
{
    let ghost start = out@;
    push_str(out, "<tr><td><b class=\"");
    push_str(out, t.status.as_str());
    push_str(out, "\">");
    push_str(out, t.status.as_str());
    push_str(out, "</b></td><td>");
    push_html_escaped(out, t.target.as_str());
    push_str(out, "</td><td><code>");
    push_html_escaped(out, t.tag.as_str());
    push_str(out, "</code></td><td>");
    push_html_escaped(out, t.expire_at.as_str());
    push_str(out, "</td><td>");
    push_html_escaped(out, t.text.as_str());
    push_str(out, "</td><td>");
    match &t.notes {
        Some(n) => push_html_escaped(out, n.as_str()),
        None => push_html_escaped(out, ""),
    }
    proof {
        if t.notes.is_none() {
            reveal_strlit("");
        }
    }
    push_str(out, "</td></tr>");
    assert(out@ =~= start + row(t@));
}

/// The dashboard page: the four counts and one table row per tweet.
pub fn render_dashboard(data: &Dashboard) -> (r: String)
    ensures
        r@ == page(*data),
{
    let ghost ts = tweet_views(data.tweets@);
    let mut out = String::new();
    let o = &mut out;
    push_str(o, "<!doctype html><html lang=\"tr\"><head><meta charset=\"utf-8\"><meta name=\"viewport\" content=\"width=device-width,initial-scale=1\"><title>FollowUp</title><style>body{margin:0;font-family:system-ui,-apple-system,Segoe UI,sans-serif;background:#f6f8fb;color:#1f2933}header,main{padding:24px max(18px,5vw)}header{background:#fff;border-bottom:1px solid #d8dee8}h1{margin:0;font-size:28px}.stats{display:grid;grid-template-columns:repeat(auto-fit,minmax(140px,1fr));gap:12px;margin:22px 0}.stat{background:#fff;border:1px solid #d8dee8;border-radius:8px;padding:14px}.stat b{display:block;font-size:26px}table{width:100%;border-collapse:collapse;background:#fff;border:1px solid #d8dee8}td,th{padding:11px;border-bottom:1px solid #d8dee8;text-align:left;vertical-align:top}th{font-size:12px;color:#667085;background:#fbfcfe}.WAITING{color:#0f766e}.ANSWERED,.CLOSED{color:#087443}.EXPIRED{color:#b54708}.empty{text-align:center;color:#667085;padding:34px}</style></head><body><header><h1>FollowUp</h1><div>#fu tag'li sorular icin Velo-Lite destekli takip paneli</div></header><main><section class=\"stats\"><div class=\"stat\"><b>");
    push_decimal(o, data.waiting as u64);
    push_str(o, "</b>WAITING</div><div class=\"stat\"><b>");
    push_decimal(o, data.answered as u64);
    push_str(o, "</b>ANSWERED</div><div class=\"stat\"><b>");
    push_decimal(o, data.expired as u64);
    push_str(o, "</b>EXPIRED</div><div class=\"stat\"><b>");
    push_decimal(o, data.closed as u64);
    push_str(o, "</b>CLOSED</div></section><table><thead><tr><th>Status</th><th>Target</th><th>Tag</th><th>Expire</th><th>Tweet</th><th>Answer</th></tr></thead><tbody>");
    let ghost head = out@;
    if data.tweets.len() == 0 {
        push_str(&mut out, "<tr><td colspan=\"6\" class=\"empty\">Henüz takip edilen tweet yok.</td></tr>");
    } else {
        let mut i: usize = 0;
        while i < data.tweets.len()
            invariant
                0 <= i <= data.tweets.len(),
                ts == tweet_views(data.tweets@),
                out@ == head + rows(ts.take(i as int)),
            decreases data.tweets.len() - i,
        {
            push_row(&mut out, &data.tweets[i]);
            assert(ts.take(i + 1).drop_last() =~= ts.take(i as int));
            assert(ts.take(i + 1).last() == data.tweets@[i as int]@);
            i = i + 1;
        }
        assert(ts.take(data.tweets.len() as int) =~= ts);
    }
    let o = &mut out;
    push_str(o, "</tbody></table></main></body></html>");
    assert(out@ =~= page(*data));
    out
}

} // verus!

verus! {

// ---------------------------------------------------------------------------
// Splitting text
// ---------------------------------------------------------------------------

/// `i` is the index of the first `c` in `s`.
pub open spec fn first_at(s: Seq<char>, c: char, i: int) -> bool {
    0 <= i < s.len() && s[i] == c && forall|j: int| 0 <= j < i ==> s[j] != c
}

/// `str::split_once(c)`: the text before the first `c` and the text after it.
pub open spec fn split_once(s: Seq<char>, c: char) -> Option<(Seq<char>, Seq<char>)> {
    if exists|i: int| first_at(s, c, i) {
        let i = choose|i: int| first_at(s, c, i);
        Some((s.take(i), s.skip(i + 1)))
    } else {
        None
    }
}

pub proof fn lemma_first_at_unique(s: Seq<char>, c: char, i: int, j: int)
    requires
        first_at(s, c, i),
        first_at(s, c, j),
    ensures
        i == j,
{
    if i < j {
        assert(s[i] != c);
    } else if j < i {
        assert(s[j] != c);
    }
}

pub proof fn lemma_split_once_at(s: Seq<char>, c: char, i: int)
    requires
        first_at(s, c, i),
    ensures
        split_once(s, c) == Some((s.take(i), s.skip(i + 1))),
{
    let k = choose|k: int| first_at(s, c, k);
    lemma_first_at_unique(s, c, i, k);
}

/// Index of the first `c` in `v[lo..]`, if any.
pub fn find_char(v: &Vec<char>, lo: usize, c: char) -> (r: Option<usize>)
    requires
        lo <= v.len(),
    ensures
        match r {
            Some(i) => lo <= i < v.len() && first_at(v@.skip(lo as int), c, i - lo),
            None => !exists|i: int| first_at(v@.skip(lo as int), c, i),
        },
{
    let ghost s = v@.skip(lo as int);
    let mut i: usize = lo;
    while i < v.len()
        invariant
            lo <= i <= v.len(),
            s == v@.skip(lo as int),
            forall|j: int| lo <= j < i ==> v@[j] != c,
        decreases v.len() - i,
    {
        if v[i] == c {
            assert forall|j: int| 0 <= j < i - lo implies s[j] != c by {
                assert(s[j] == v@[j + lo]);
            }
            return Some(i);
        }
        i = i + 1;
    }
    assert forall|k: int| !first_at(s, c, k) by {
        if 0 <= k < s.len() {
            assert(s[k] == v@[k + lo]);
        }
    }
    None
}

/// `str::split(c)`: the pieces between the occurrences of `c`.
pub open spec fn split_all(s: Seq<char>, c: char) -> Seq<Seq<char>>
    decreases s.len(),
{
    match split_once(s, c) {
        None => seq![s],
        Some((a, b)) => {
            proof {
                let i = choose|i: int| first_at(s, c, i);
                assert(b.len() < s.len());
            }
            seq![a] + split_all(b, c)
        },
    }
}

// ---------------------------------------------------------------------------
// Access tokens
// ---------------------------------------------------------------------------

/// A header line `Authorization: Bearer <token>` (name in any ASCII case, value
/// trimmed).
pub open spec fn bearer_line(line: Seq<char>, token: Seq<char>) -> bool {
    match split_once(line, ':') {
        None => false,
        Some((name, value)) => lower_all(name) == "authorization"@ && trim(value) == "Bearer "@
            + token,
    }
}

/// Requests pass when no token is set, or when some header carries it.
pub open spec fn is_authorized(token: Option<Seq<char>>, headers: Seq<Seq<char>>) -> bool {
    match token {
        None => true,
        Some(t) => exists|i: int| 0 <= i < headers.len() && bearer_line(#[trigger] headers[i], t),
    }
}

pub open spec fn str_views(v: Seq<String>) -> Seq<Seq<char>> {
    v.map_values(|s: String| s@)
}

/// Whether `v[lo..hi]` holds exactly `lit`, ignoring ASCII case on `v`'s side.
fn range_lower_is(v: &Vec<char>, lo: usize, hi: usize, lit: &str) -> (r: bool)
    requires
        lo <= hi <= v.len(),
    ensures
        r == (lower_all(v@.subrange(lo as int, hi as int)) == lit@),
{
    let w = chars_of(lit);
    let ghost s = v@.subrange(lo as int, hi as int);
    if hi - lo != w.len() {
        assert(lower_all(s).len() != lit@.len());
        return false;
    }
    let mut k: usize = 0;
    while k < w.len()
        invariant
            w@ == lit@,
            hi - lo == w.len(),
            lo <= hi <= v.len(),
            s == v@.subrange(lo as int, hi as int),
            0 <= k <= w.len(),
            forall|j: int| 0 <= j < k ==> lower(#[trigger] s[j]) == w@[j],
        decreases w.len() - k,
    {
        assert(s[k as int] == v@[lo + k]);
        if lower_char(v[lo + k]) != w[k] {
            assert(lower_all(s)[k as int] != w@[k as int]);
            return false;
        }
        k = k + 1;
    }
    assert(lower_all(s) =~= w@);
    true
}

/// Whether `v[lo..hi]` holds exactly `a` followed by `b`.
fn range_is_concat(v: &Vec<char>, lo: usize, hi: usize, a: &str, b: &str) -> (r: bool)
    requires
        lo <= hi <= v.len(),
    ensures
        r == (v@.subrange(lo as int, hi as int) == a@ + b@),
{
    let mut w = chars_of(a);
    let wb = chars_of(b);
    let mut x: usize = 0;
    while x < wb.len()
        invariant
            0 <= x <= wb.len(),
            wb@ == b@,
            w@ == a@ + b@.take(x as int),
        decreases wb.len() - x,
    {
        w.push(wb[x]);
        assert(b@.take(x + 1) =~= b@.take(x as int).push(b@[x as int]));
        assert(a@ + b@.take(x + 1) =~= (a@ + b@.take(x as int)).push(b@[x as int]));
        x = x + 1;
    }
    assert(b@.take(b@.len() as int) =~= b@);
    let ghost s = v@.subrange(lo as int, hi as int);
    if hi - lo != w.len() {
        return false;
    }
    let mut k: usize = 0;
    while k < w.len()
        invariant
            w@ == a@ + b@,
            hi - lo == w.len(),
            lo <= hi <= v.len(),
            s == v@.subrange(lo as int, hi as int),
            0 <= k <= w.len(),
            forall|j: int| 0 <= j < k ==> #[trigger] s[j] == w@[j],
        decreases w.len() - k,
    {
        assert(s[k as int] == v@[lo + k]);
        if v[lo + k] != w[k] {
            return false;
        }
        k = k + 1;
    }
    assert(s =~= w@);
    true
}

/// `authorized`: whether a request with these header lines may use the API.
pub fn authorized(api_token: Option<&str>, headers: &Vec<String>) -> (r: bool)
    ensures
        r == is_authorized(
            match api_token {
                Some(t) => Some(t@),
                None => None,
            },
            str_views(headers@),
        ),
{
    let expected = match api_token {
        Some(t) => t,
        None => {
            return true;
        },
    };
    let ghost hs = str_views(headers@);
    let mut i: usize = 0;
    while i < headers.len()
        invariant
            0 <= i <= headers.len(),
            hs == str_views(headers@),
            api_token == Some(expected),
            forall|j: int| 0 <= j < i ==> !bearer_line(#[trigger] hs[j], expected@),
        decreases headers.len() - i,
    {
        let v = chars_of(headers[i].as_str());
        assert(hs[i as int] == v@);
        match find_char(&v, 0, ':') {
            Some(colon) => {
                assert(v@.skip(0) =~= v@);
                proof {
                    lemma_split_once_at(v@, ':', colon as int);
                }
                let name_ok = range_lower_is(&v, 0, colon, "authorization");
                let value = crate::parser::copy_range(&v, colon + 1, v.len());
                assert(value@ =~= v@.skip(colon + 1));
                assert(v@.take(colon as int) =~= v@.subrange(0, colon as int));
                let (lo, hi) = trim_bounds(&value);
                if name_ok && range_is_concat(&value, lo, hi, "Bearer ", expected) {
                    assert(bearer_line(hs[i as int], expected@));
                    assert(is_authorized(Some(expected@), hs));
                    return true;
                }
            },
            None => {
                assert(v@.skip(0) =~= v@);
            },
        }
        i = i + 1;
    }
    false
}

} // verus!

verus! {

// ---------------------------------------------------------------------------
// Query strings
// ---------------------------------------------------------------------------

/// The value of the first `key=value` piece whose key is `name`.
pub open spec fn find_param(parts: Seq<Seq<char>>, name: Seq<char>) -> Option<Seq<char>>
    decreases parts.len(),
{
    if parts.len() == 0 {
        None
    } else {
        match split_once(parts[0], '=') {
            Some((k, v)) => if k == name {
                Some(v)
            } else {
                find_param(parts.drop_first(), name)
            },
            None => find_param(parts.drop_first(), name),
        }
    }
}

/// `query_value`: the value of parameter `name` in the query string of `path`.
pub open spec fn query_param(path: Seq<char>, name: Seq<char>) -> Option<Seq<char>> {
    match split_once(path, '?') {
        None => None,
        Some((_, q)) => find_param(split_all(q, '&'), name),
    }
}

/// Index of the first `c` in `v[lo..hi]`, if any.
pub fn find_in(v: &Vec<char>, lo: usize, hi: usize, c: char) -> (r: Option<usize>)
    requires
        lo <= hi <= v.len(),
    ensures
        match r {
            Some(i) => lo <= i < hi && first_at(v@.subrange(lo as int, hi as int), c, i - lo),
            None => !exists|i: int| first_at(v@.subrange(lo as int, hi as int), c, i),
        },
{
    let ghost s = v@.subrange(lo as int, hi as int);
    let mut i: usize = lo;
    while i < hi
        invariant
            lo <= i <= hi <= v.len(),
            s == v@.subrange(lo as int, hi as int),
            forall|j: int| lo <= j < i ==> v@[j] != c,
        decreases hi - i,
    {
        if v[i] == c {
            assert forall|j: int| 0 <= j < i - lo implies s[j] != c by {
                assert(s[j] == v@[j + lo]);
            }
            return Some(i);
        }
        i = i + 1;
    }
    assert forall|k: int| !first_at(s, c, k) by {
        if 0 <= k < s.len() {
            assert(s[k] == v@[k + lo]);
        }
    }
    None
}

/// Whether `v[lo..hi]` holds exactly `lit`.
fn range_is(v: &Vec<char>, lo: usize, hi: usize, lit: &str) -> (r: bool)
    requires
        lo <= hi <= v.len(),
    ensures
        r == (v@.subrange(lo as int, hi as int) == lit@),
{
    let r = range_is_concat(v, lo, hi, lit, "");
    proof {
        reveal_strlit("");
        assert(lit@ + ""@ =~= lit@);
    }
    r
}

pub fn query_value(path: &str, name: &str) -> (r: Option<String>)
    ensures
        match r {
            Some(v) => query_param(path@, name@) == Some(v@),
            None => query_param(path@, name@) is None,
        },
{
    let v = chars_of(path);
    assert(v@.subrange(0, v@.len() as int) =~= v@);
    let q = match find_in(&v, 0, v.len(), '?') {
        Some(q) => q,
        None => {
            return None;
        },
    };
    proof {
        lemma_split_once_at(v@, '?', q as int);
    }
    let mut pos: usize = q + 1;
    assert(v@.skip(q + 1) =~= v@.subrange(pos as int, v@.len() as int));
    loop
        invariant
            q + 1 <= pos <= v.len(),
            v@ == path@,
            query_param(path@, name@) == find_param(
                split_all(v@.subrange(pos as int, v@.len() as int), '&'),
                name@,
            ),
        decreases v.len() - pos,
    {
        let ghost rest = v@.subrange(pos as int, v@.len() as int);
        let end: usize = match find_in(&v, pos, v.len(), '&') {
            Some(amp) => {
                proof {
                    lemma_split_once_at(rest, '&', amp - pos);
                    assert(rest.take(amp - pos) =~= v@.subrange(pos as int, amp as int));
                    assert(rest.skip(amp - pos + 1) =~= v@.subrange(amp + 1, v@.len() as int));
                }
                amp
            },
            None => v.len(),
        };
        let ghost piece = v@.subrange(pos as int, end as int);
        let ghost parts = split_all(rest, '&');
        assert(parts[0] == piece) by {
            if end == v.len() {
                assert(rest =~= piece);
            }
        }
        match find_in(&v, pos, end, '=') {
            Some(eq) => {
                proof {
                    lemma_split_once_at(piece, '=', eq - pos);
                    assert(piece.take(eq - pos) =~= v@.subrange(pos as int, eq as int));
                    assert(piece.skip(eq - pos + 1) =~= v@.subrange(eq + 1, end as int));
                }
                if range_is(&v, pos, eq, name) {
                    return Some(string_of_range(&v, eq + 1, end));
                }
                assert(find_param(parts, name@) == find_param(parts.drop_first(), name@));
            },
            None => {
                assert(find_param(parts, name@) == find_param(parts.drop_first(), name@));
            },
        }
        if end == v.len() {
            assert(parts.drop_first().len() == 0);
            return None;
        }
        assert(parts.drop_first() =~= split_all(v@.subrange(end + 1, v@.len() as int), '&'));
        pos = end + 1;
    }
}

// ---------------------------------------------------------------------------
// Request bodies
// ---------------------------------------------------------------------------

/// The text of a body field, when present and not empty.
pub open spec fn body_field(p: Seq<(Seq<char>, Seq<char>)>, name: Seq<char>) -> Option<Seq<char>> {
    non_empty(lookup(p, name))
}

/// The tweet a request body describes, apart from `created_at` when that is
/// missing: the required fields in the order they are checked, each with its error.
pub open spec fn body_tweet(body: Seq<char>) -> Result<IncomingView, Seq<char>> {
    match parse_obj(body) {
        Err(e) => Err(e),
        Ok(p) => if body_field(p, "tweet_id"@) is None {
            Err("missing tweet_id"@)
        } else if body_field(p, "author"@) is None {
            Err("missing author"@)
        } else if body_field(p, "text"@) is None {
            Err("missing text"@)
        } else {
            Ok(
                IncomingView {
                    tweet_id: lookup(p, "tweet_id"@),
                    author: lookup(p, "author"@),
                    text: lookup(p, "text"@),
                    created_at: lookup(p, "created_at"@),
                    in_reply_to_tweet_id: body_field(p, "in_reply_to_tweet_id"@),
                },
            )
        },
    }
}

/// `t` is what `parse_tweet_body` gives for `body`: a missing `created_at` is the
/// time of the call.
#[verifier::opaque]
pub open spec fn body_gives(body: Seq<char>, t: IncomingView) -> bool {
    match body_tweet(body) {
        Err(_) => false,
        Ok(b) => {
            &&& t.tweet_id == b.tweet_id
            &&& t.author == b.author
            &&& t.text == b.text
            &&& t.in_reply_to_tweet_id == b.in_reply_to_tweet_id
            &&& if b.created_at.len() > 0 {
                t.created_at == b.created_at
            } else {
                exists|e: u64| t.created_at == #[trigger] iso_of(e as nat)
            }
        },
    }
}

fn field_of(pairs: &Vec<(String, String)>, name: &str) -> (r: Option<String>)
    ensures
        crate::model::opt_view(r) == body_field(pair_views(pairs@), name@),
{
    crate::store::none_if_empty(crate::store::get(pairs, name))
}

fn owned(s: &str) -> (r: String)
    ensures
        r@ == s@,
{
    s.to_owned()
}

/// The fields of the tweet an ingest body describes, and whether it gives
/// `created_at` (left empty when it does not).
fn body_parts(body: &str) -> (r: Result<(IncomingTweet, bool), String>)
    ensures
        match r {
            Ok((t, given)) => body_tweet(body@) matches Ok(b) && t.tweet_id@ == b.tweet_id
                && t.author@ == b.author && t.text@ == b.text && opt_view(t.in_reply_to_tweet_id)
                == b.in_reply_to_tweet_id && given == (b.created_at.len() > 0) && (given
                ==> t.created_at@ == b.created_at),
            Err(e) => body_tweet(body@) == Err::<IncomingView, Seq<char>>(e@),
        },
{
    let fields = match parse_object(body) {
        Ok(f) => f,
        Err(e) => {
            return Err(e);
        },
    };
    let tweet_id = match field_of(&fields, "tweet_id") {
        Some(v) => v,
        None => {
            return Err(owned("missing tweet_id"));
        },
    };
    let author = match field_of(&fields, "author") {
        Some(v) => v,
        None => {
            return Err(owned("missing author"));
        },
    };
    let text = match field_of(&fields, "text") {
        Some(v) => v,
        None => {
            return Err(owned("missing text"));
        },
    };
    let (created_at, given) = match field_of(&fields, "created_at") {
        Some(v) => (v, true),
        None => (String::new(), false),
    };
    let in_reply_to_tweet_id = field_of(&fields, "in_reply_to_tweet_id");
    Ok((IncomingTweet { tweet_id, author, text, created_at, in_reply_to_tweet_id }, given))
}

pub fn parse_tweet_body(body: &str) -> (r: Result<IncomingTweet, String>)
    ensures
        match r {
            Ok(t) => body_tweet(body@) is Ok && body_gives(body@, t@),
            Err(e) => body_tweet(body@) == Err::<IncomingView, Seq<char>>(e@),
        },
{
    let (mut t, given) = body_parts(body)?;
    if !given {
        t.created_at = now_iso();
    }
    assert(body_gives(body@, t@)) by {
        reveal(body_gives);
    }
    Ok(t)
}

/// How reading an ingest body used the clock, from the readings `rb` to `ra`:
/// one reading when the body gives no `created_at`, else none.
pub open spec fn body_clock(body: Seq<char>, rb: Seq<u64>, ra: Seq<u64>) -> bool {
    match body_tweet(body) {
        Ok(b) => if b.created_at.len() > 0 {
            ra == rb
        } else {
            one_more(rb, ra)
        },
        Err(_) => ra == rb,
    }
}

/// The time an ingest body gives its tweet: its `created_at`, else the last of
/// the clock `readings`, the one taken for it.
pub open spec fn body_stamp(body: Seq<char>, readings: Seq<u64>) -> Seq<char> {
    match body_tweet(body) {
        Ok(b) => if b.created_at.len() > 0 {
            b.created_at
        } else {
            iso_of(readings.last() as nat)
        },
        Err(_) => iso_of(readings.last() as nat),
    }
}

/// `parse_tweet_body` with the service's clock dating a body without
/// `created_at`.
fn tweet_from_body<S: TweetStore>(service: &mut FollowUpService<S>, body: &str) -> (r: Result<
    IncomingTweet,
    String,
>)
    ensures
        match r {
            Ok(t) => body_tweet(body@) is Ok && body_gives(body@, t@),
            Err(e) => body_tweet(body@) == Err::<IncomingView, Seq<char>>(e@),
        },
        r matches Ok(t) ==> body_clock(body@, old(service).readings(), final(service).readings())
            && t.created_at@ == body_stamp(body@, final(service).readings()),
        r is Err ==> *final(service) == *old(service),
        final(service).records() == old(service).records(),
        final(service).dependable() == old(service).dependable(),
        final(service).id_state() == old(service).id_state(),
{
    let (mut t, given) = body_parts(body)?;
    if !given {
        let now = service.read_clock();
        proof {
            assert(service.readings().drop_last() =~= old(service).readings());
        }
        t.created_at = epoch_to_iso(now);
    }
    assert(body_gives(body@, t@)) by {
        reveal(body_gives);
    }
    Ok(t)
}

// ---------------------------------------------------------------------------
// Responses
// ---------------------------------------------------------------------------

/// An HTTP/1.1 response with the given status line, content type and body; the
/// length counts the body's UTF-8 bytes.
pub open spec fn response_text(status: Seq<char>, content_type: Seq<char>, body: Seq<char>) -> Seq<
    char,
> {
    "HTTP/1.1 "@ + status + "\r\nContent-Type: "@ + content_type + "\r\nContent-Length: "@
        + decimal(encode_utf8(body).len()) + "\r\nConnection: close\r\n\r\n"@ + body
}

/// `response`, as text.
pub fn response(status: &str, content_type: &str, body: &str) -> (r: String)
    ensures
        r@ == response_text(status@, content_type@, body@),
{
    let mut out = String::new();
    push_str(&mut out, "HTTP/1.1 ");
    push_str(&mut out, status);
    push_str(&mut out, "\r\nContent-Type: ");
    push_str(&mut out, content_type);
    push_str(&mut out, "\r\nContent-Length: ");
    let n: usize = body.as_bytes().len();
    push_decimal(&mut out, n as u64);
    push_str(&mut out, "\r\nConnection: close\r\n\r\n");
    push_str(&mut out, body);
    assert(out@ =~= response_text(status@, content_type@, body@));
    out
}

/// The body of a 500 response for an error.
pub open spec fn error_body(err: Seq<char>) -> Seq<char> {
    "{\"error\":"@ + crate::json::quoted(err) + "}"@
}

/// The response sent when handling a request failed.
pub fn error_response(err: &str) -> (r: String)
    ensures
        r@ == response_text("500 Internal Server Error"@, "application/json"@, error_body(err@)),
{
    let mut body = String::new();
    push_str(&mut body, "{\"error\":");
    crate::json::push_quoted(&mut body, err);
    push_str(&mut body, "}");
    assert(body@ =~= error_body(err@));
    response("500 Internal Server Error", "application/json", body.as_str())
}

} // verus!

verus! {

// ---------------------------------------------------------------------------
// Requests
// ---------------------------------------------------------------------------

pub open spec fn blank_line() -> Seq<char> {
    seq!['\r', '\n', '\r', '\n']
}

/// A blank line (`\r\n\r\n`) starts at `i` in `s`.
pub open spec fn blank_at(s: Seq<char>, i: int) -> bool {
    0 <= i && i + 4 <= s.len() && s.subrange(i, i + 4) == blank_line()
}

/// `i` is where the first blank line of `s` starts.
pub open spec fn first_blank(s: Seq<char>, i: int) -> bool {
    &&& blank_at(s, i)
    &&& forall|j: int| 0 <= j < i ==> !#[trigger] blank_at(s, j)
}

/// `s.split("\r\n\r\n").next()`.
pub open spec fn before_blank(s: Seq<char>) -> Seq<char> {
    if exists|i: int| first_blank(s, i) {
        s.take(choose|i: int| first_blank(s, i))
    } else {
        s
    }
}

/// The request head: the text before the first blank line.
pub open spec fn head_of(s: Seq<char>) -> Seq<char> {
    before_blank(s)
}

/// The request body: the piece between the first and the second blank line (or
/// the end), empty when there is no blank line.
pub open spec fn body_of(s: Seq<char>) -> Seq<char> {
    if exists|i: int| first_blank(s, i) {
        before_blank(s.skip((choose|i: int| first_blank(s, i)) + 4))
    } else {
        seq![]
    }
}

pub open spec fn strip_cr(a: Seq<char>) -> Seq<char> {
    if a.len() > 0 && a.last() == '\r' {
        a.drop_last()
    } else {
        a
    }
}

/// `str::lines`: pieces ended by `\n` or `\r\n`; a last piece without `\n` keeps
/// any `\r`.
pub open spec fn lines(s: Seq<char>) -> Seq<Seq<char>>
    decreases s.len(),
{
    if s.len() == 0 {
        seq![]
    } else {
        match split_once(s, '\n') {
            None => seq![s],
            Some((a, b)) => {
                proof {
                    let i = choose|i: int| first_at(s, '\n', i);
                    assert(b.len() < s.len());
                }
                seq![strip_cr(a)] + lines(b)
            },
        }
    }
}

/// Where a request goes.
pub enum Route {
    Home,
    Health,
    Tweets,
    Check,
    Ingest,
    Close(Seq<char>),
    NotFound,
}

pub open spec fn starts_with(s: Seq<char>, p: Seq<char>) -> bool {
    p.len() <= s.len() && s.take(p.len() as int) == p
}

pub open spec fn ends_with(s: Seq<char>, p: Seq<char>) -> bool {
    p.len() <= s.len() && s.skip(s.len() - p.len()) == p
}

/// `str::trim_start_matches(p)` for a non-empty `p`.
pub open spec fn strip_prefixes(s: Seq<char>, p: Seq<char>) -> Seq<char>
    decreases s.len(),
{
    if p.len() > 0 && starts_with(s, p) {
        strip_prefixes(s.skip(p.len() as int), p)
    } else {
        s
    }
}

/// `str::trim_end_matches(p)` for a non-empty `p`.
pub open spec fn strip_suffixes(s: Seq<char>, p: Seq<char>) -> Seq<char>
    decreases s.len(),
{
    if p.len() > 0 && ends_with(s, p) {
        strip_suffixes(s.take(s.len() - p.len()), p)
    } else {
        s
    }
}

/// The route of a method and a path (without its query string).
pub open spec fn route_of(method: Seq<char>, route: Seq<char>) -> Route {
    if method == "GET"@ && route == "/"@ {
        Route::Home
    } else if method == "GET"@ && route == "/health"@ {
        Route::Health
    } else if method == "GET"@ && route == "/api/tweets"@ {
        Route::Tweets
    } else if method == "POST"@ && route == "/api/check"@ {
        Route::Check
    } else if method == "POST"@ && route == "/api/ingest"@ {
        Route::Ingest
    } else if method == "POST"@ && starts_with(route, "/api/tweets/"@) && ends_with(
        route,
        "/close"@,
    ) {
        Route::Close(strip_suffixes(strip_prefixes(route, "/api/tweets/"@), "/close"@))
    } else {
        Route::NotFound
    }
}

/// The parts of a request: method, path, header lines and body. The request line
/// is the first line of the head; its first two words are the method (default
/// empty) and the path (default `/`).
pub open spec fn request_parts(req: Seq<char>) -> (Seq<char>, Seq<char>, Seq<Seq<char>>, Seq<char>) {
    let ls = lines(head_of(req));
    let ws = crate::parser::words(ls[0]);
    (
        if ws.len() > 0 {
            ws[0]
        } else {
            seq![]
        },
        if ws.len() > 1 {
            ws[1]
        } else {
            "/"@
        },
        ls.drop_first(),
        body_of(req),
    )
}

/// The path without its query string.
pub open spec fn route_path(path: Seq<char>) -> Seq<char> {
    match split_once(path, '?') {
        Some((a, _)) => a,
        None => path,
    }
}

pub open spec fn json_type() -> Seq<char> {
    "application/json"@
}

pub open spec fn ok_status() -> Seq<char> {
    "200 OK"@
}

pub open spec fn bool_text(b: bool) -> Seq<char> {
    if b {
        "true"@
    } else {
        "false"@
    }
}

pub open spec fn unauthorized_text() -> Seq<char> {
    response_text("401 Unauthorized"@, json_type(), "{\"error\":\"unauthorized\"}"@)
}

/// The body answering an ingest request.
pub open spec fn tracked_body(r: Option<TweetView>) -> Seq<char> {
    match r {
        Some(t) => "{\"tracked\":"@ + crate::json::tweet_json(t) + "}"@,
        None => "{\"tracked\":null}"@,
    }
}

/// The status asked for by the `status` query parameter, if it names one.
pub open spec fn status_query(path: Seq<char>) -> Option<Status> {
    match query_param(path, "status"@) {
        Some(v) => crate::model::status_named(v),
        None => None,
    }
}

/// The routes that need the API token.
pub open spec fn api_route(route: Route) -> bool {
    route is Tweets || route is Check || route is Ingest || route is Close
}

/// `text` shows the dashboard page, made after expiring what was due.
pub open spec fn shown_page(
    before: Map<Seq<char>, TweetView>,
    after: Map<Seq<char>, TweetView>,
    text: Seq<char>,
) -> bool {
    exists|d: Dashboard|
        #[trigger] dashboard_ok(before, after, None, d) && text == response_text(
            ok_status(),
            "text/html; charset=utf-8"@,
            page(d),
        )
}

/// `text` lists the tweets with the status that `path` asks for, as JSON.
pub open spec fn listed(
    before: Map<Seq<char>, TweetView>,
    after: Map<Seq<char>, TweetView>,
    path: Seq<char>,
    text: Seq<char>,
) -> bool {
    exists|d: Dashboard|
        #[trigger] dashboard_ok(before, after, status_query(path), d) && text == response_text(
            ok_status(),
            json_type(),
            dashboard_text(d),
        )
}

/// `text` tells how many records expired at some moment.
pub open spec fn checked(
    before: Map<Seq<char>, TweetView>,
    after: Map<Seq<char>, TweetView>,
    text: Seq<char>,
) -> bool {
    exists|now: u64, n: usize|
        #[trigger] expire_ok(before, after, now, n as nat) && text == response_text(
            ok_status(),
            json_type(),
            "{\"expired\":"@ + decimal(n as nat) + "}"@,
        )
}

/// `text` tells whether the record of `id` was closed by hand.
pub open spec fn closed_by_hand(
    before: Map<Seq<char>, TweetView>,
    after: Map<Seq<char>, TweetView>,
    id: Seq<char>,
    text: Seq<char>,
) -> bool {
    exists|b: bool|
        #[trigger] close_ok(before, after, id, None, b) && text == response_text(
            ok_status(),
            json_type(),
            "{\"closed\":"@ + bool_text(b) + "}"@,
        )
}

/// `text` is the response to `req`, which took the records from `before` to `after`.
pub open spec fn handled(
    before: Map<Seq<char>, TweetView>,
    after: Map<Seq<char>, TweetView>,
    req: Seq<char>,
    token: Option<Seq<char>>,
    text: Seq<char>,
) -> bool {
    let (method, path, headers, body) = request_parts(req);
    let route = route_of(method, route_path(path));
    if api_route(route) && !is_authorized(token, headers) {
        text == unauthorized_text() && after == before
    } else {
        match route {
            Route::Health => text == response_text(ok_status(), json_type(), "{\"ok\":true}"@)
                && after == before,
            Route::NotFound => text == response_text(
                "404 Not Found"@,
                json_type(),
                "{\"error\":\"not found\"}"@,
            ) && after == before,
            Route::Home => shown_page(before, after, text),
            Route::Tweets => listed(before, after, path, text),
            Route::Check => checked(before, after, text),
            Route::Ingest => ingested(before, after, body, text),
            Route::Close(id) => closed_by_hand(before, after, id, text),
        }
    }
}

/// `text` shows the dashboard page, made with the clock readings `times`.
pub open spec fn home_at(
    before: Map<Seq<char>, TweetView>,
    after: Map<Seq<char>, TweetView>,
    times: Seq<u64>,
    text: Seq<char>,
) -> bool {
    exists|d: Dashboard|
        #[trigger] dated(before, after, d, times) && text == response_text(
            ok_status(),
            "text/html; charset=utf-8"@,
            page(d),
        )
}

/// `text` lists tweets as JSON, made with the clock readings `times`.
pub open spec fn tweets_at(
    before: Map<Seq<char>, TweetView>,
    after: Map<Seq<char>, TweetView>,
    times: Seq<u64>,
    text: Seq<char>,
) -> bool {
    exists|d: Dashboard|
        #[trigger] dated(before, after, d, times) && text == response_text(
            ok_status(),
            json_type(),
            dashboard_text(d),
        )
}

/// `text` tells how many records expired at the clock reading `now`.
pub open spec fn checked_at(
    before: Map<Seq<char>, TweetView>,
    after: Map<Seq<char>, TweetView>,
    now: u64,
    text: Seq<char>,
) -> bool {
    exists|n: usize|
        #[trigger] expire_ok(before, after, now, n as nat) && text == response_text(
            ok_status(),
            json_type(),
            "{\"expired\":"@ + decimal(n as nat) + "}"@,
        )
}

/// What the clock readings that answering `req` took, from `rb` to `ra`, were
/// for: the dashboard's expiry and drafts, the expiry of a check, the date of an
/// ingested tweet without `created_at`, the time of closing by hand.
pub open spec fn served(
    before: Map<Seq<char>, TweetView>,
    after: Map<Seq<char>, TweetView>,
    req: Seq<char>,
    token: Option<Seq<char>>,
    rb: Seq<u64>,
    ra: Seq<u64>,
    text: Seq<char>,
) -> bool {
    let (method, path, headers, body) = request_parts(req);
    let route = route_of(method, route_path(path));
    if api_route(route) && !is_authorized(token, headers) {
        ra == rb
    } else {
        match route {
            Route::Home => home_at(before, after, ra.skip(rb.len() as int), text),
            Route::Tweets => tweets_at(before, after, ra.skip(rb.len() as int), text),
            Route::Check => one_more(rb, ra) && checked_at(before, after, ra.last(), text),
            Route::Ingest => body_clock(body, rb, ra) && new_records_at(
                before,
                after,
                body_stamp(body, ra),
            ) && changed_records_at(before, after, body_stamp(body, ra)),
            Route::Close(id) => closed_at_reading(before, after, id, None, rb, ra),
            _ => ra == rb,
        }
    }
}

/// `text` answers an ingest request with this body, which took the records from
/// `before` to `after`.
pub open spec fn ingested(
    before: Map<Seq<char>, TweetView>,
    after: Map<Seq<char>, TweetView>,
    body: Seq<char>,
    text: Seq<char>,
) -> bool {
    exists|t: IncomingView, mid: Map<Seq<char>, TweetView>|
        body_gives(body, t) && #[trigger] ingest_step(before, mid, after, t, text)
}

/// Ingesting `t` in two steps: the reply step takes `before` to `mid`, then, unless
/// the reply answered a record, tracking takes `mid` to `after`.
#[verifier::opaque]
pub open spec fn ingest_step(
    before: Map<Seq<char>, TweetView>,
    mid: Map<Seq<char>, TweetView>,
    after: Map<Seq<char>, TweetView>,
    t: IncomingView,
    text: Seq<char>,
) -> bool {
    if t.in_reply_to_tweet_id is Some && reply_ok(before, mid, t, true) {
        after == mid && text == response_text(
            ok_status(),
            json_type(),
            "{\"answered\":true,\"tracked\":null}"@,
        )
    } else {
        &&& (t.in_reply_to_tweet_id is Some ==> reply_ok(before, mid, t, false))
        &&& (t.in_reply_to_tweet_id is None ==> mid == before)
        &&& exists|r: Option<TweetView>|
            #[trigger] ingest_ok(mid, after, t, r) && text == response_text(
                ok_status(),
                json_type(),
                tracked_body(r),
            )
    }
}

} // verus!

verus! {

proof fn lemma_first_blank_unique(s: Seq<char>, i: int, j: int)
    requires
        first_blank(s, i),
        first_blank(s, j),
    ensures
        i == j,
{
    if i < j {
        assert(!blank_at(s, i));
    } else if j < i {
        assert(!blank_at(s, j));
    }
}

/// Index of the first blank line in `v[lo..]`, if any.
fn find_blank(v: &Vec<char>, lo: usize) -> (r: Option<usize>)
    requires
        lo <= v.len(),
    ensures
        match r {
            Some(i) => lo <= i && i + 4 <= v.len() && first_blank(v@.skip(lo as int), i - lo),
            None => !exists|i: int| first_blank(v@.skip(lo as int), i),
        },
{
    let ghost s = v@.skip(lo as int);
    let mut j: usize = lo;
    while v.len() >= 4 && j <= v.len() - 4
        invariant
            lo <= j,
            s == v@.skip(lo as int),
            lo <= v.len(),
            forall|k: int| 0 <= k < j - lo ==> !#[trigger] blank_at(s, k),
        decreases v.len() - j,
    {
        if v[j] == '\r' && v[j + 1] == '\n' && v[j + 2] == '\r' && v[j + 3] == '\n' {
            assert(s.subrange(j - lo, j - lo + 4) =~= blank_line());
            return Some(j);
        }
        assert(!blank_at(s, j - lo)) by {
            if blank_at(s, j - lo) {
                let w = s.subrange(j - lo, j - lo + 4);
                assert(w[0] == v@[j as int]);
                assert(w[1] == v@[j + 1]);
                assert(w[2] == v@[j + 2]);
                assert(w[3] == v@[j + 3]);
            }
        }
        j = j + 1;
    }
    assert forall|i: int| !first_blank(s, i) by {
        if first_blank(s, i) {
            assert(blank_at(s, i));
        }
    }
    None
}

/// End of `before_blank(v[lo..])`, and where the rest starts after the blank line.
fn blank_split(v: &Vec<char>, lo: usize) -> (r: (usize, Option<usize>))
    requires
        lo <= v.len(),
    ensures
        lo <= r.0 <= v.len(),
        v@.subrange(lo as int, r.0 as int) == before_blank(v@.skip(lo as int)),
        match r.1 {
            Some(next) => next == r.0 + 4 && next <= v.len() && exists|i: int| first_blank(v@.skip(lo as int), i) && next == lo + (choose|i: int| first_blank(v@.skip(lo as int), i)) + 4,
            None => (!exists|i: int| first_blank(v@.skip(lo as int), i)) && r.0 == v.len(),
        },
{
    let ghost s = v@.skip(lo as int);
    match find_blank(v, lo) {
        Some(i) => {
            proof {
                let k = choose|k: int| first_blank(s, k);
                lemma_first_blank_unique(s, i - lo, k);
                assert(s.take(i - lo) =~= v@.subrange(lo as int, i as int));
            }
            (i, Some(i + 4))
        },
        None => {
            assert(s =~= v@.subrange(lo as int, v@.len() as int));
            (v.len(), None)
        },
    }
}

/// `str::lines` of `v[lo..hi]`.
fn split_lines(v: &Vec<char>, lo: usize, hi: usize) -> (r: Vec<Vec<char>>)
    requires
        lo <= hi <= v.len(),
    ensures
        crate::parser::views(r@) == lines(v@.subrange(lo as int, hi as int)),
{
    let mut out: Vec<Vec<char>> = Vec::new();
    let mut pos: usize = lo;
    assert(crate::parser::views(out@) + lines(v@.subrange(lo as int, hi as int)) =~= lines(
        v@.subrange(lo as int, hi as int),
    ));
    while pos < hi
        invariant
            lo <= pos <= hi <= v.len(),
            lines(v@.subrange(lo as int, hi as int)) == crate::parser::views(out@) + lines(
                v@.subrange(pos as int, hi as int),
            ),
        decreases hi - pos,
    {
        let ghost rest = v@.subrange(pos as int, hi as int);
        let ghost before = crate::parser::views(out@);
        match find_in(v, pos, hi, '\n') {
            None => {
                let piece = crate::parser::copy_range(v, pos, hi);
                out.push(piece);
                assert(crate::parser::views(out@) =~= before.push(rest));
                assert(lines(rest) =~= seq![rest]);
                assert(lines(v@.subrange(hi as int, hi as int)) =~= Seq::<Seq<char>>::empty());
                assert(crate::parser::views(out@) + Seq::<Seq<char>>::empty() =~= crate::parser::views(out@));
                assert(before + lines(rest) =~= crate::parser::views(out@));
                pos = hi;
            },
            Some(nl) => {
                proof {
                    lemma_split_once_at(rest, '\n', nl - pos);
                    assert(rest.take(nl - pos) =~= v@.subrange(pos as int, nl as int));
                    assert(rest.skip(nl - pos + 1) =~= v@.subrange(nl + 1, hi as int));
                }
                let end: usize = if nl > pos && v[nl - 1] == '\r' {
                    nl - 1
                } else {
                    nl
                };
                let piece = crate::parser::copy_range(v, pos, end);
                assert(piece@ =~= strip_cr(v@.subrange(pos as int, nl as int)));
                out.push(piece);
                assert(crate::parser::views(out@) =~= before.push(piece@));
                assert(lines(rest) =~= seq![piece@] + lines(v@.subrange(nl + 1, hi as int)));
                assert(before + lines(rest) =~= crate::parser::views(out@) + lines(
                    v@.subrange(nl + 1, hi as int),
                ));
                pos = nl + 1;
            },
        }
    }
    assert(lines(v@.subrange(pos as int, hi as int)) =~= Seq::<Seq<char>>::empty());
    assert(crate::parser::views(out@) + Seq::<Seq<char>>::empty() =~= crate::parser::views(out@));
    out
}

} // verus!

verus! {

// ---------------------------------------------------------------------------
// Routing
// ---------------------------------------------------------------------------

/// Where a request goes, as the handler acts on it.
pub enum Endpoint {
    Home,
    Health,
    Tweets,
    Check,
    Ingest,
    Close(String),
    NotFound,
}

pub open spec fn endpoint_route(e: Endpoint) -> Route {
    match e {
        Endpoint::Home => Route::Home,
        Endpoint::Health => Route::Health,
        Endpoint::Tweets => Route::Tweets,
        Endpoint::Check => Route::Check,
        Endpoint::Ingest => Route::Ingest,
        Endpoint::Close(id) => Route::Close(id@),
        Endpoint::NotFound => Route::NotFound,
    }
}

/// The path up to its query string.
fn route_part(path: &Vec<char>) -> (r: Vec<char>)
    ensures
        r@ == route_path(path@),
{
    assert(path@.skip(0) =~= path@);
    match find_char(path, 0, '?') {
        Some(q) => {
            proof {
                lemma_split_once_at(path@, '?', q as int);
                assert(path@.take(q as int) =~= path@.subrange(0, q as int));
            }
            crate::parser::copy_range(path, 0, q)
        },
        None => {
            assert(path@.subrange(0, path@.len() as int) =~= path@);
            crate::parser::copy_range(path, 0, path.len())
        },
    }
}

/// Whether the route starts with `/api/tweets/`.
fn has_tweets_prefix(v: &Vec<char>) -> (r: bool)
    ensures
        r == starts_with(v@, "/api/tweets/"@),
{
    proof {
        reveal_strlit("/api/tweets/");
    }
    if v.len() < 12 {
        return false;
    }
    let r = range_is(v, 0, 12, "/api/tweets/");
    assert(v@.take(12) =~= v@.subrange(0, 12));
    r
}

/// Whether the route ends with `/close`.
fn has_close_suffix(v: &Vec<char>) -> (r: bool)
    ensures
        r == ends_with(v@, "/close"@),
{
    proof {
        reveal_strlit("/close");
    }
    if v.len() < 6 {
        return false;
    }
    let r = range_is(v, v.len() - 6, v.len(), "/close");
    assert(v@.skip(v@.len() - 6) =~= v@.subrange(v.len() - 6, v.len() as int));
    r
}

/// The tweet id in a `/api/tweets/<id>/close` route: every leading
/// `/api/tweets/` and then every trailing `/close` taken off.
fn close_id(v: &Vec<char>) -> (r: String)
    ensures
        r@ == strip_suffixes(strip_prefixes(v@, "/api/tweets/"@), "/close"@),
{
    let ghost p = "/api/tweets/"@;
    let ghost q = "/close"@;
    proof {
        reveal_strlit("/api/tweets/");
        reveal_strlit("/close");
    }
    let mut lo: usize = 0;
    assert(v@.subrange(0, v@.len() as int) =~= v@);
    while v.len() - lo >= 12 && range_is(v, lo, lo + 12, "/api/tweets/")
        invariant
            lo <= v.len(),
            p == "/api/tweets/"@,
            p.len() == 12,
            strip_prefixes(v@, p) == strip_prefixes(v@.subrange(lo as int, v@.len() as int), p),
        decreases v.len() - lo,
    {
        proof {
            let s = v@.subrange(lo as int, v@.len() as int);
            assert(s.take(12) =~= v@.subrange(lo as int, lo + 12));
            assert(s.skip(12) =~= v@.subrange(lo + 12, v@.len() as int));
        }
        lo = lo + 12;
    }
    proof {
        let s = v@.subrange(lo as int, v@.len() as int);
        if s.len() >= 12 {
            assert(s.take(12) =~= v@.subrange(lo as int, lo + 12));
        }
        assert(!starts_with(s, p));
    }
    let mut hi: usize = v.len();
    while hi - lo >= 6 && range_is(v, hi - 6, hi, "/close")
        invariant
            lo <= hi <= v.len(),
            q == "/close"@,
            q.len() == 6,
            strip_suffixes(strip_prefixes(v@, p), q) == strip_suffixes(
                v@.subrange(lo as int, hi as int),
                q,
            ),
            strip_prefixes(v@, p) == v@.subrange(lo as int, v@.len() as int),
        decreases hi - lo,
    {
        proof {
            let s = v@.subrange(lo as int, hi as int);
            assert(s.skip(s.len() - 6) =~= v@.subrange(hi - 6, hi as int));
            assert(s.take(s.len() - 6) =~= v@.subrange(lo as int, hi - 6));
        }
        hi = hi - 6;
    }
    proof {
        let s = v@.subrange(lo as int, hi as int);
        if s.len() >= 6 {
            assert(s.skip(s.len() - 6) =~= v@.subrange(hi - 6, hi as int));
        }
        assert(!ends_with(s, q));
    }
    string_of_range(v, lo, hi)
}

/// The endpoint of a method and a route.
fn endpoint_of(method: &Vec<char>, route: &Vec<char>) -> (r: Endpoint)
    ensures
        endpoint_route(r) == route_of(method@, route@),
{
    let get = vec_is(method, "GET");
    let post = vec_is(method, "POST");
    if get && vec_is(route, "/") {
        Endpoint::Home
    } else if get && vec_is(route, "/health") {
        Endpoint::Health
    } else if get && vec_is(route, "/api/tweets") {
        Endpoint::Tweets
    } else if post && vec_is(route, "/api/check") {
        Endpoint::Check
    } else if post && vec_is(route, "/api/ingest") {
        Endpoint::Ingest
    } else if post && has_tweets_prefix(route) && has_close_suffix(route) {
        Endpoint::Close(close_id(route))
    } else {
        Endpoint::NotFound
    }
}

} // verus!

verus! {

// ---------------------------------------------------------------------------
// Handling a request
// ---------------------------------------------------------------------------

pub open spec fn token_view(token: Option<&str>) -> Option<Seq<char>> {
    match token {
        Some(t) => Some(t@),
        None => None,
    }
}

/// The parts of a request, as `request_parts` gives them, when its head has a line.
struct RequestParts {
    method: Vec<char>,
    path: Vec<char>,
    headers: Vec<String>,
    body: String,
}

/// A copy of `v`.
fn copy_all(v: &Vec<char>) -> (r: Vec<char>)
    ensures
        r@ == v@,
{
    assert(v@.subrange(0, v@.len() as int) =~= v@);
    crate::parser::copy_range(v, 0, v.len())
}

/// Splits a request into method, path, header lines and body; `None` when the
/// head holds no line.
fn request_of(request: &str) -> (r: Option<RequestParts>)
    ensures
        r is None <==> lines(head_of(request@)).len() == 0,
        r matches Some(p) ==> request_parts(request@) == (
            p.method@,
            p.path@,
            str_views(p.headers@),
            p.body@,
        ),
{
    let v = chars_of(request);
    assert(v@.skip(0) =~= v@);
    let (head_end, next) = blank_split(&v, 0);
    let body = match next {
        Some(n) => {
            let (body_end, _) = blank_split(&v, n);
            string_of_range(&v, n, body_end)
        },
        None => String::new(),
    };
    assert(body@ == body_of(request@));
    let ls = split_lines(&v, 0, head_end);
    let ghost lv = crate::parser::views(ls@);
    assert(lv == lines(head_of(request@)));
    if ls.len() == 0 {
        return None;
    }
    let ws = crate::parser::split_words(&ls[0]);
    let ghost wv = crate::parser::views(ws@);
    assert(wv == crate::parser::words(lv[0]));
    let method = if ws.len() > 0 {
        copy_all(&ws[0])
    } else {
        Vec::new()
    };
    let path = if ws.len() > 1 {
        copy_all(&ws[1])
    } else {
        chars_of("/")
    };
    let mut headers: Vec<String> = Vec::new();
    let mut i: usize = 1;
    while i < ls.len()
        invariant
            1 <= i <= ls.len(),
            lv == crate::parser::views(ls@),
            str_views(headers@) == lv.subrange(1, i as int),
        decreases ls.len() - i,
    {
        let h = string_of_chars(&ls[i]);
        let ghost before = str_views(headers@);
        headers.push(h);
        assert(str_views(headers@) =~= before.push(h@));
        assert(lv.subrange(1, i + 1) =~= lv.subrange(1, i as int).push(lv[i as int]));
        i = i + 1;
    }
    assert(lv.subrange(1, lv.len() as int) =~= lv.drop_first());
    assert(method@ == (if wv.len() > 0 { wv[0] } else { Seq::<char>::empty() }));
    Some(RequestParts { method, path, headers, body })
}

} // verus!

verus! {

/// `GET /`: the dashboard page.
fn answer_home<S: TweetStore>(service: &mut FollowUpService<S>) -> (r: Result<String, String>)
    ensures
        r matches Ok(text) ==> shown_page(old(service).records(), final(service).records(), text@),
        r is Err ==> !old(service).dependable(),
        final(service).id_state() == old(service).id_state(),
        old(service).dependable() ==> r is Ok,
        extends(old(service).readings(), final(service).readings()),
        r matches Ok(text) ==> home_at(
            old(service).records(),
            final(service).records(),
            final(service).readings().skip(old(service).readings().len() as int),
            text@,
        ),
{
    let d = service.dashboard(None)?;
    let html = render_dashboard(&d);
    let r = response("200 OK", "text/html; charset=utf-8", html.as_str());
    assert(dashboard_ok(old(service).records(), service.records(), None, d));
    assert(dated(
        old(service).records(),
        service.records(),
        d,
        service.readings().skip(old(service).readings().len() as int),
    ));
    Ok(r)
}

/// `GET /api/tweets`: the dashboard as JSON, for the status the query asks for.
fn answer_tweets<S: TweetStore>(service: &mut FollowUpService<S>, path: &Vec<char>) -> (r: Result<
    String,
    String,
>)
    ensures
        r matches Ok(text) ==> listed(old(service).records(), final(service).records(), path@, text@),
        r is Err ==> !old(service).dependable(),
        final(service).id_state() == old(service).id_state(),
        old(service).dependable() ==> r is Ok,
        extends(old(service).readings(), final(service).readings()),
        r matches Ok(text) ==> tweets_at(
            old(service).records(),
            final(service).records(),
            final(service).readings().skip(old(service).readings().len() as int),
            text@,
        ),
{
    let p = string_of_chars(path);
    let status = match query_value(p.as_str(), "status") {
        Some(v) => Status::parse(v.as_str()),
        None => None,
    };
    assert(status == status_query(path@));
    let body = service.dashboard_json(status)?;
    let r = response("200 OK", "application/json", body.as_str());
    proof {
        let d = choose|d: Dashboard|
            dashboard_ok(old(service).records(), service.records(), status, d) && body@
                == #[trigger] dashboard_text(d);
        assert(dashboard_ok(old(service).records(), service.records(), status, d));
        let times = service.readings().skip(old(service).readings().len() as int);
        let d2 = choose|d: Dashboard|
            dated(old(service).records(), service.records(), d, times) && dashboard_ok(
                old(service).records(),
                service.records(),
                status,
                d,
            ) && body@ == #[trigger] dashboard_text(d);
        assert(dated(old(service).records(), service.records(), d2, times));
    }
    Ok(r)
}

/// `POST /api/check`: expires what is due and tells how many expired.
fn answer_check<S: TweetStore>(service: &mut FollowUpService<S>) -> (r: Result<String, String>)
    ensures
        r matches Ok(text) ==> checked(old(service).records(), final(service).records(), text@),
        r is Err ==> !old(service).dependable(),
        final(service).id_state() == old(service).id_state(),
        old(service).dependable() ==> r is Ok,
        one_more(old(service).readings(), final(service).readings()),
        r matches Ok(text) ==> checked_at(
            old(service).records(),
            final(service).records(),
            final(service).readings().last(),
            text@,
        ),
{
    let n = service.expire_due()?;
    let mut body = String::new();
    push_str(&mut body, "{\"expired\":");
    push_decimal(&mut body, n as u64);
    push_str(&mut body, "}");
    let r = response("200 OK", "application/json", body.as_str());
    proof {
        let now = choose|now: u64| #[trigger]
            expire_ok(old(service).records(), service.records(), now, n as nat);
        assert(expire_ok(old(service).records(), service.records(), now, n as nat));
        assert(expire_ok(old(service).records(), service.records(), service.readings().last(), n as nat));
    }
    Ok(r)
}

/// `POST /api/tweets/<id>/close`: closes a waiting record by hand.
fn answer_close<S: TweetStore>(service: &mut FollowUpService<S>, id: &String) -> (r: Result<
    String,
    String,
>)
    ensures
        r matches Ok(text) ==> closed_by_hand(old(service).records(), final(service).records(), id@, text@),
        r is Err ==> !old(service).dependable(),
        final(service).id_state() == old(service).id_state(),
        old(service).dependable() ==> r is Ok,
        extends(old(service).readings(), final(service).readings()),
        r is Ok ==> closed_at_reading(
            old(service).records(),
            final(service).records(),
            id@,
            None,
            old(service).readings(),
            final(service).readings(),
        ),
{
    let b = service.close_manually(id.as_str(), None)?;
    let mut body = String::new();
    push_str(&mut body, "{\"closed\":");
    if b {
        push_str(&mut body, "true");
    } else {
        push_str(&mut body, "false");
    }
    push_str(&mut body, "}");
    let r = response("200 OK", "application/json", body.as_str());
    assert(close_ok(old(service).records(), service.records(), id@, None, b));
    Ok(r)
}

/// `POST /api/ingest`: a reply first answers the record it replies to, if it can;
/// otherwise the tweet is tracked when tagged.
/// The tweet an ingest body describes replies to a record it answers.
pub open spec fn answers_reply(records: Map<Seq<char>, TweetView>, body: Seq<char>) -> bool {
    match body_tweet(body) {
        Ok(b) => match b.in_reply_to_tweet_id {
            Some(p) => records.contains_key(p) && answers(records[p], b),
            None => false,
        },
        Err(_) => false,
    }
}

proof fn lemma_body_gives_fields(body: Seq<char>, t: IncomingView)
    requires
        body_gives(body, t),
    ensures
        body_tweet(body) matches Ok(b) && t.tweet_id == b.tweet_id && t.author == b.author && t.text
            == b.text && t.in_reply_to_tweet_id == b.in_reply_to_tweet_id,
{
    reveal(body_gives);
}

proof fn lemma_ingested(
    before: Map<Seq<char>, TweetView>,
    mid: Map<Seq<char>, TweetView>,
    after: Map<Seq<char>, TweetView>,
    body: Seq<char>,
    t: IncomingView,
    text: Seq<char>,
)
    requires
        body_gives(body, t),
        ingest_step(before, mid, after, t, text),
    ensures
        ingested(before, after, body, text),
{
}

proof fn lemma_answered_step(
    before: Map<Seq<char>, TweetView>,
    mid: Map<Seq<char>, TweetView>,
    t: IncomingView,
    text: Seq<char>,
)
    requires
        t.in_reply_to_tweet_id is Some,
        reply_ok(before, mid, t, true),
        text == response_text(ok_status(), json_type(), "{\"answered\":true,\"tracked\":null}"@),
    ensures
        ingest_step(before, mid, mid, t, text),
{
    reveal(ingest_step);
}

proof fn lemma_tracked_step(
    before: Map<Seq<char>, TweetView>,
    mid: Map<Seq<char>, TweetView>,
    after: Map<Seq<char>, TweetView>,
    t: IncomingView,
    rv: Option<TweetView>,
    text: Seq<char>,
)
    requires
        t.in_reply_to_tweet_id is Some ==> reply_ok(before, mid, t, false),
        t.in_reply_to_tweet_id is None ==> mid == before,
        ingest_ok(mid, after, t, rv),
        text == response_text(ok_status(), json_type(), tracked_body(rv)),
    ensures
        ingest_step(before, mid, after, t, text),
{
    reveal(ingest_step);
    if t.in_reply_to_tweet_id is Some {
        assert(!reply_ok(before, mid, t, true));
    }
}

fn answer_ingest<S: TweetStore>(service: &mut FollowUpService<S>, body: &str) -> (r: Result<
    String,
    String,
>)
    ensures
        r matches Ok(text) ==> ingested(old(service).records(), final(service).records(), body@, text@),
        body_tweet(body@) matches Err(e) ==> (r matches Err(x) && x@ == e),
        answers_reply(old(service).records(), body@)
            ==> final(service).id_state() == old(service).id_state(),
        old(service).dependable() && old(service).id_state().1 && body_tweet(body@) is Ok
            ==> r is Ok,
        r is Err ==> body_tweet(body@) is Err
            || !(old(service).dependable() && old(service).id_state().1),
        extends(old(service).readings(), final(service).readings()),
        r is Ok ==> body_clock(body@, old(service).readings(), final(service).readings())
            && new_records_at(
            old(service).records(),
            final(service).records(),
            body_stamp(body@, final(service).readings()),
        ) && changed_records_at(
            old(service).records(),
            final(service).records(),
            body_stamp(body@, final(service).readings()),
        ),
{
    proof {
        lemma_extends_self(old(service).readings(), old(service).readings());
    }
    let input = tweet_from_body(service, body)?;
    let ghost t = input@;
    let ghost stamp = body_stamp(body@, service.readings());
    proof {
        lemma_body_gives_fields(body@, t);
        lemma_extends_self(old(service).readings(), service.readings());
        assert(t.created_at == stamp);
    }
    let ghost before = service.records();
    let answered = if input.in_reply_to_tweet_id.is_some() {
        service.ingest_reply(input.copied())?
    } else {
        false
    };
    let ghost mid = service.records();
    if answered {
        let text = response("200 OK", "application/json", "{\"answered\":true,\"tracked\":null}");
        proof {
            lemma_answered_step(before, mid, t, text@);
            lemma_ingested(before, mid, mid, body@, t, text@);
            let parent = t.in_reply_to_tweet_id->0;
            assert(mid == before.insert(parent, crate::service::answered(before[parent], t)));
            assert forall|k: Seq<char>| mid.contains_key(k) && !before.contains_key(k) implies (
            #[trigger] mid[k]).created_at == stamp by {
                assert(k == parent);
            }
            assert forall|k: Seq<char>|
                before.contains_key(k) && mid.contains_key(k) && #[trigger] mid[k] != before[k]
                implies mid[k].answered_at == Some(stamp) by {
                assert(k == parent);
            }
        }
        Ok(text)
    } else {
        let outcome = service.ingest_tweet(input)?;
        let payload = tracked_payload(&outcome);
        let text = response("200 OK", "application/json", payload.as_str());
        proof {
            let rv: Option<TweetView> = match outcome {
                Some(tw) => Some(tw@),
                None => None,
            };
            lemma_tracked_step(before, mid, service.records(), t, rv, text@);
            lemma_ingested(before, mid, service.records(), body@, t, text@);
            let after = service.records();
            assert(mid == before);
            assert forall|k: Seq<char>| after.contains_key(k) && !before.contains_key(k) implies (
            #[trigger] after[k]).created_at == stamp by {
                let rec = outcome->0;
                let f = crate::parser::followup_of(t.text).unwrap();
                let id = choose|id: u64| rec@ == #[trigger] crate::service::tracked_from(
                    t,
                    id,
                    f.0,
                    f.1,
                    f.2,
                );
            }
            assert forall|k: Seq<char>|
                before.contains_key(k) && after.contains_key(k) && #[trigger] after[k] != before[k]
                implies after[k].answered_at == Some(stamp) by {
            }
        }
        Ok(text)
    }
}

/// The body answering an ingest request that tracked `outcome`.
fn tracked_payload(outcome: &Option<TrackedTweet>) -> (r: String)
    ensures
        r@ == tracked_body(
            match outcome {
                Some(t) => Some(t@),
                None => None,
            },
        ),
{
    let mut payload = String::new();
    match outcome {
        Some(tw) => {
            push_str(&mut payload, "{\"tracked\":");
            let j = crate::json::tweet(tw);
            push_str(&mut payload, j.as_str());
            push_str(&mut payload, "}");
        },
        None => {
            push_str(&mut payload, "{\"tracked\":null}");
        },
    }
    payload
}

} // verus!

verus! {

/// A request that the handler answers without the store: one refused for want of
/// the token, the health check, or one for no known route.
pub open spec fn answered_directly(req: Seq<char>, token: Option<Seq<char>>) -> bool {
    let (method, path, headers, _) = request_parts(req);
    let route = route_of(method, route_path(path));
    &&& lines(head_of(req)).len() > 0
    &&& ((api_route(route) && !is_authorized(token, headers)) || route is Health
        || route is NotFound)
}

/// The request is routed to `POST /api/ingest`.
pub open spec fn asks_ingest(req: Seq<char>) -> bool {
    let (method, path, _, _) = request_parts(req);
    route_of(method, route_path(path)) is Ingest
}

/// The error of an authorized ingest request whose body describes no tweet.
pub open spec fn refused_body(req: Seq<char>, token: Option<Seq<char>>) -> Option<Seq<char>> {
    let (method, path, headers, body) = request_parts(req);
    if lines(head_of(req)).len() > 0 && route_of(method, route_path(path)) is Ingest
        && is_authorized(token, headers) {
        match body_tweet(body) {
            Err(e) => Some(e),
            Ok(_) => None,
        }
    } else {
        None
    }
}

/// Answers one HTTP request: routes it, checks the API token on the API routes,
/// and runs the service operation the route names. An error is a failure of the
/// store or an ingest body that describes no tweet; the caller answers it with
/// `error_response`.
pub fn handle_request<S: TweetStore>(
    service: &mut FollowUpService<S>,
    request: &str,
    api_token: Option<&str>,
) -> (r: Result<String, String>)
    ensures
        lines(head_of(request@)).len() == 0 ==> (r matches Err(e) && e@ == "empty request"@),
        r matches Ok(text) ==> handled(
            old(service).records(),
            final(service).records(),
            request@,
            token_view(api_token),
            text@,
        ),
        answered_directly(request@, token_view(api_token)) ==> r is Ok,
        old(service).dependable() && lines(head_of(request@)).len() > 0 && !asks_ingest(request@)
            ==> r is Ok,
        answered_directly(request@, token_view(api_token)) ==> *final(service) == *old(service),
        old(service).dependable() && old(service).id_state().1 && lines(head_of(request@)).len() > 0
            && refused_body(request@, token_view(api_token)) is None ==> r is Ok,
        r is Err ==> lines(head_of(request@)).len() == 0 || refused_body(
            request@,
            token_view(api_token),
        ) is Some || !(old(service).dependable() && old(service).id_state().1),
        r is Err && !asks_ingest(request@) ==> lines(head_of(request@)).len() == 0
            || !old(service).dependable(),
        !asks_ingest(request@) || answers_reply(old(service).records(), request_parts(request@).3)
            ==> final(service).id_state() == old(service).id_state(),
        refused_body(request@, token_view(api_token)) matches Some(e) ==> (r matches Err(x) && x@
            == e),
        extends(old(service).readings(), final(service).readings()),
        r matches Ok(text) ==> served(
            old(service).records(),
            final(service).records(),
            request@,
            token_view(api_token),
            old(service).readings(),
            final(service).readings(),
            text@,
        ),
{
    proof {
        lemma_extends_self(old(service).readings(), old(service).readings());
    }
    let parts = match request_of(request) {
        Some(p) => p,
        None => {
            return Err(owned("empty request"));
        },
    };
    let route = route_part(&parts.path);
    let endpoint = endpoint_of(&parts.method, &route);
    let api = match endpoint {
        Endpoint::Tweets | Endpoint::Check | Endpoint::Ingest | Endpoint::Close(_) => true,
        _ => false,
    };
    if api && !authorized(api_token, &parts.headers) {
        return Ok(response("401 Unauthorized", "application/json", "{\"error\":\"unauthorized\"}"));
    }
    match endpoint {
        Endpoint::Home => answer_home(service),
        Endpoint::Health => Ok(response("200 OK", "application/json", "{\"ok\":true}")),
        Endpoint::Tweets => answer_tweets(service, &parts.path),
        Endpoint::Check => answer_check(service),
        Endpoint::Ingest => answer_ingest(service, parts.body.as_str()),
        Endpoint::Close(id) => answer_close(service, &id),
        Endpoint::NotFound => Ok(
            response("404 Not Found", "application/json", "{\"error\":\"not found\"}"),
        ),
    }
}

} // verus!
