//! The command line: reading options, the help text, and what each command
//! does to the store and prints.
use vstd::prelude::*;
use vstd::utf8::encode_utf8;
use crate::date::iso_of;
use crate::http::{bool_text, str_views};
use crate::json::quoted;
use crate::model::{Dashboard, IncomingTweet, IncomingView, Status, TweetView, status_named};
use crate::service::{
    changed_records_at, close_ok, dashboard_ok, dashboard_text, dated, expire_ok, extends,
    ingest_ok, new_records_at, one_more, reply_ok, FollowUpService, lemma_extends_self, lemma_extends_trans,
};
use crate::store::TweetStore;
use crate::text::{decimal, parse_int, push_decimal, push_str, same_text, trim};

verus! {

// ---------------------------------------------------------------------------
// Options
// ---------------------------------------------------------------------------

/// The argument right after the first `name` that has one.
pub open spec fn arg_value(args: Seq<Seq<char>>, name: Seq<char>) -> Option<Seq<char>>
    decreases args.len(),
{
    if args.len() < 2 {
        None
    } else if args[0] == name {
        Some(args[1])
    } else {
        arg_value(args.drop_first(), name)
    }
}

/// The value given for option `name`, if any.
pub fn optional(args: &Vec<String>, name: &str) -> (r: Option<String>)
    ensures
        match r {
            Some(v) => arg_value(str_views(args@), name@) == Some(v@),
            None => arg_value(str_views(args@), name@) is None,
        },
{
    let ghost all = str_views(args@);
    let mut i: usize = 0;
    assert(all.skip(0) =~= all);
    while args.len() > 0 && i < args.len() - 1
        invariant
            0 <= i <= args.len(),
            all == str_views(args@),
            arg_value(all, name@) == arg_value(all.skip(i as int), name@),
        decreases args.len() - i,
    {
        let ghost rest = all.skip(i as int);
        if same_text(args[i].as_str(), name) {
            assert(rest[0] == args@[i as int]@);
            assert(rest[1] == args@[i + 1]@);
            let v = args[i + 1].clone();
            return Some(v);
        }
        assert(rest.drop_first() =~= all.skip(i + 1));
        i = i + 1;
    }
    None
}

/// The value given for option `name`, or the error naming it.
pub fn required(args: &Vec<String>, name: &str) -> (r: Result<String, String>)
    ensures
        match r {
            Ok(v) => arg_value(str_views(args@), name@) == Some(v@),
            Err(e) => arg_value(str_views(args@), name@) is None && e@ == "missing "@ + name@,
        },
{
    match optional(args, name) {
        Some(v) => Ok(v),
        None => {
            let mut e = String::new();
            push_str(&mut e, "missing ");
            push_str(&mut e, name);
            Err(e)
        },
    }
}

// ---------------------------------------------------------------------------
// Settings
// ---------------------------------------------------------------------------

/// The port to listen on: the setting when it reads as a `u16`, else 8000.
pub fn port_setting(value: Option<&str>) -> (r: u16)
    ensures
        r == match value {
            Some(v) => match parse_int(encode_utf8(v@), 0, 65535) {
                Some(p) => p as u16,
                None => 8000u16,
            },
            None => 8000u16,
        },
{
    match value {
        Some(v) => {
            let b = v.as_bytes();
            assert(b@.subrange(0, b@.len() as int) =~= b@);
            match crate::text::parse_unsigned(b, 0, b.len(), 65535) {
                Some(p) => p as u16,
                None => 8000,
            }
        },
        None => 8000,
    }
}

/// The API token: the setting unless it is blank.
pub fn token_setting(value: Option<String>) -> (r: Option<String>)
    ensures
        match value {
            Some(v) => if trim(v@).len() == 0 {
                r is None
            } else {
                r == Some(v)
            },
            None => r is None,
        },
{
    match value {
        Some(v) => {
            let chars = crate::text::chars_of(v.as_str());
            let (lo, hi) = crate::text::trim_bounds(&chars);
            if lo == hi {
                None
            } else {
                Some(v)
            }
        },
        None => None,
    }
}

// ---------------------------------------------------------------------------
// Help
// ---------------------------------------------------------------------------

pub open spec fn help() -> Seq<char> {
    "FollowUp\n\nCommands:\n  serve\n  add --tweet-id ID --author @you --text TEXT [--created-at ISO]\n  reply --tweet-id ID --author @target --text TEXT --in-reply-to ID [--created-at ISO]\n  list [--status WAITING|ANSWERED|EXPIRED|CLOSED]\n  check\n  close TWEET_ID"@
}

/// The help text.
pub fn help_text() -> (r: String)
    ensures
        r@ == help(),
{
    "FollowUp\n\nCommands:\n  serve\n  add --tweet-id ID --author @you --text TEXT [--created-at ISO]\n  reply --tweet-id ID --author @target --text TEXT --in-reply-to ID [--created-at ISO]\n  list [--status WAITING|ANSWERED|EXPIRED|CLOSED]\n  check\n  close TWEET_ID".to_owned()
}

} // verus!

verus! {

// ---------------------------------------------------------------------------
// Commands
// ---------------------------------------------------------------------------

/// The error `add` (or, with `reply`, `reply`) reports for the first option it
/// misses.
pub open spec fn missing_arg(args: Seq<Seq<char>>, reply: bool) -> Option<Seq<char>> {
    if arg_value(args, "--tweet-id"@) is None {
        Some("missing --tweet-id"@)
    } else if arg_value(args, "--author"@) is None {
        Some("missing --author"@)
    } else if arg_value(args, "--text"@) is None {
        Some("missing --text"@)
    } else if reply && arg_value(args, "--in-reply-to"@) is None {
        Some("missing --in-reply-to"@)
    } else {
        None
    }
}

/// The error a command reports before it reaches the store.
pub open spec fn command_error(command: Seq<char>, args: Seq<Seq<char>>) -> Option<Seq<char>> {
    if command == "add"@ {
        missing_arg(args, false)
    } else if command == "reply"@ {
        missing_arg(args, true)
    } else if command == "close"@ && args.len() == 0 {
        Some("missing tweet id"@)
    } else {
        None
    }
}

/// The commands that use the store.
pub open spec fn store_command(command: Seq<char>) -> bool {
    command == "add"@ || command == "reply"@ || command == "list"@ || command == "check"@
        || command == "close"@
}

/// `t` is the tweet that `add` (or, with `reply`, `reply`) builds from its
/// options; without `--created-at` it was made at the time of the call.
pub open spec fn args_give(args: Seq<Seq<char>>, reply: bool, t: IncomingView) -> bool {
    &&& arg_value(args, "--tweet-id"@) == Some(t.tweet_id)
    &&& arg_value(args, "--author"@) == Some(t.author)
    &&& arg_value(args, "--text"@) == Some(t.text)
    &&& t.in_reply_to_tweet_id == (if reply {
        arg_value(args, "--in-reply-to"@)
    } else {
        None
    })
    &&& match arg_value(args, "--created-at"@) {
        Some(c) => t.created_at == c,
        None => exists|e: u64| t.created_at == #[trigger] iso_of(e as nat),
    }
}

/// How `add` or `reply` used the clock, from the readings `before` to `after`:
/// not at all when `--created-at` is given, else for one reading.
pub open spec fn clock_use(args: Seq<Seq<char>>, before: Seq<u64>, after: Seq<u64>) -> bool {
    match arg_value(args, "--created-at"@) {
        Some(_) => after == before,
        None => one_more(before, after),
    }
}

/// The time `add` or `reply` gives its tweet: the `--created-at` value, else
/// the last of the clock `readings`, the one the command took.
pub open spec fn stamp(args: Seq<Seq<char>>, readings: Seq<u64>) -> Seq<char> {
    match arg_value(args, "--created-at"@) {
        Some(c) => c,
        None => iso_of(readings.last() as nat),
    }
}

/// The status `list` asks for.
pub open spec fn status_arg(args: Seq<Seq<char>>) -> Option<Status> {
    match arg_value(args, "--status"@) {
        Some(v) => status_named(v),
        None => None,
    }
}

/// The line `add` prints for the record it returned, if any.
pub open spec fn tracked_line(r: Option<TweetView>) -> Seq<char> {
    "{\"tracked\":"@ + (match r {
        Some(t) => quoted(t.tweet_id),
        None => "null"@,
    }) + "}"@
}

/// `add`: the tweet from the options was tracked if tagged.
#[verifier::opaque]
pub open spec fn added(
    before: Map<Seq<char>, TweetView>,
    after: Map<Seq<char>, TweetView>,
    args: Seq<Seq<char>>,
    out: Seq<char>,
) -> bool {
    exists|t: IncomingView, r: Option<TweetView>|
        args_give(args, false, t) && #[trigger] ingest_ok(before, after, t, r) && out
            == tracked_line(r)
}

/// `reply`: the reply from the options answered its record, or not.
#[verifier::opaque]
pub open spec fn replied(
    before: Map<Seq<char>, TweetView>,
    after: Map<Seq<char>, TweetView>,
    args: Seq<Seq<char>>,
    out: Seq<char>,
) -> bool {
    exists|t: IncomingView, b: bool|
        args_give(args, true, t) && #[trigger] reply_ok(before, after, t, b) && out
            == "{\"answered\":"@ + bool_text(b) + "}"@
}

/// `list`: what was due expired, then the dashboard of the asked status.
#[verifier::opaque]
pub open spec fn listed_all(
    before: Map<Seq<char>, TweetView>,
    after: Map<Seq<char>, TweetView>,
    args: Seq<Seq<char>>,
    out: Seq<char>,
) -> bool {
    exists|mid: Map<Seq<char>, TweetView>, now: u64, n: nat, d: Dashboard|
        #![trigger expire_ok(before, mid, now, n), dashboard_ok(mid, after, status_arg(args), d)]
        expire_ok(before, mid, now, n) && dashboard_ok(mid, after, status_arg(args), d) && out
            == dashboard_text(d)
}

/// `check`: what was due expired; the line tells how many.
#[verifier::opaque]
pub open spec fn expired_line(
    before: Map<Seq<char>, TweetView>,
    after: Map<Seq<char>, TweetView>,
    out: Seq<char>,
) -> bool {
    exists|now: u64, n: usize|
        #[trigger] expire_ok(before, after, now, n as nat) && out == "{\"expired\":"@ + decimal(
            n as nat,
        ) + "}"@
}

/// `close`: the line tells whether the record of `id` was closed by hand.
#[verifier::opaque]
pub open spec fn closed_line(
    before: Map<Seq<char>, TweetView>,
    after: Map<Seq<char>, TweetView>,
    id: Seq<char>,
    out: Seq<char>,
) -> bool {
    exists|b: bool|
        #[trigger] close_ok(before, after, id, None, b) && out == "{\"closed\":"@ + bool_text(b)
            + "}"@
}

/// `out` is what `command` with `args` printed, having taken the records from
/// `before` to `after`. A command of no store use prints the help.
pub open spec fn ran(
    before: Map<Seq<char>, TweetView>,
    after: Map<Seq<char>, TweetView>,
    command: Seq<char>,
    args: Seq<Seq<char>>,
    out: Seq<char>,
) -> bool {
    if command == "add"@ {
        added(before, after, args, out)
    } else if command == "reply"@ {
        replied(before, after, args, out)
    } else if command == "list"@ {
        listed_all(before, after, args, out)
    } else if command == "check"@ {
        expired_line(before, after, out)
    } else if command == "close"@ {
        closed_line(before, after, args[0], out)
    } else {
        out == help() && after == before
    }
}

/// `list` with the clock readings `times` it took: what was due at `times[0]`
/// expired, then the dashboard took the rest.
#[verifier::opaque]
pub open spec fn listed_at(
    before: Map<Seq<char>, TweetView>,
    after: Map<Seq<char>, TweetView>,
    args: Seq<Seq<char>>,
    times: Seq<u64>,
    out: Seq<char>,
) -> bool {
    exists|mid: Map<Seq<char>, TweetView>, n: nat, d: Dashboard|
        #![trigger expire_ok(before, mid, times[0], n), dated(mid, after, d, times.drop_first())]
        times.len() >= 1 && expire_ok(before, mid, times[0], n) && dashboard_ok(
            mid,
            after,
            status_arg(args),
            d,
        ) && dated(mid, after, d, times.drop_first()) && out == dashboard_text(d)
}

/// `check` at the clock reading `now`: what was due then expired; the line tells
/// how many.
pub open spec fn checked_at(
    before: Map<Seq<char>, TweetView>,
    after: Map<Seq<char>, TweetView>,
    now: u64,
    out: Seq<char>,
) -> bool {
    exists|n: usize|
        #[trigger] expire_ok(before, after, now, n as nat) && out == "{\"expired\":"@ + decimal(
            n as nat,
        ) + "}"@
}

/// What the clock readings taken by `command`, from `rb` to `ra`, were for.
pub open spec fn clocked(
    before: Map<Seq<char>, TweetView>,
    after: Map<Seq<char>, TweetView>,
    command: Seq<char>,
    args: Seq<Seq<char>>,
    rb: Seq<u64>,
    ra: Seq<u64>,
    out: Seq<char>,
) -> bool {
    if command == "add"@ {
        clock_use(args, rb, ra) && new_records_at(before, after, stamp(args, ra))
    } else if command == "reply"@ {
        clock_use(args, rb, ra) && changed_records_at(before, after, stamp(args, ra))
    } else if command == "list"@ {
        listed_at(before, after, args, ra.skip(rb.len() as int), out)
    } else if command == "check"@ {
        one_more(rb, ra) && checked_at(before, after, ra.last(), out)
    } else {
        true
    }
}

} // verus!

verus! {

proof fn lemma_reading_split(r0: Seq<u64>, r1: Seq<u64>, r2: Seq<u64>)
    requires
        one_more(r0, r1),
        extends(r1, r2),
    ensures
        r2.skip(r0.len() as int).len() >= 1,
        r2.skip(r0.len() as int)[0] == r1.last(),
        r2.skip(r0.len() as int).drop_first() == r2.skip(r1.len() as int),
{
    assert(r2.take(r1.len() as int)[r0.len() as int] == r2[r0.len() as int]);
    assert(r2.skip(r0.len() as int).drop_first() =~= r2.skip(r1.len() as int));
}

proof fn lemma_listed_at(
    before: Map<Seq<char>, TweetView>,
    mid: Map<Seq<char>, TweetView>,
    after: Map<Seq<char>, TweetView>,
    args: Seq<Seq<char>>,
    r0: Seq<u64>,
    r1: Seq<u64>,
    r2: Seq<u64>,
    out: Seq<char>,
    n: nat,
    d: Dashboard,
)
    requires
        one_more(r0, r1),
        extends(r1, r2),
        expire_ok(before, mid, r1.last(), n),
        dated(mid, after, d, r2.skip(r1.len() as int)),
        dashboard_ok(mid, after, status_arg(args), d),
        out == dashboard_text(d),
    ensures
        listed_at(before, after, args, r2.skip(r0.len() as int), out),
{
    let times = r2.skip(r0.len() as int);
    lemma_reading_split(r0, r1, r2);
    let rest = times.drop_first();
    assert(rest == r2.skip(r1.len() as int));
    assert(dated(mid, after, d, rest));
    assert(expire_ok(before, mid, times[0], n));
    reveal(listed_at);
}

proof fn lemma_added(
    before: Map<Seq<char>, TweetView>,
    after: Map<Seq<char>, TweetView>,
    args: Seq<Seq<char>>,
    t: IncomingView,
    r: Option<TweetView>,
    out: Seq<char>,
)
    requires
        args_give(args, false, t),
        ingest_ok(before, after, t, r),
        out == tracked_line(r),
    ensures
        added(before, after, args, out),
{
    reveal(added);
}

proof fn lemma_replied(
    before: Map<Seq<char>, TweetView>,
    after: Map<Seq<char>, TweetView>,
    args: Seq<Seq<char>>,
    t: IncomingView,
    b: bool,
    out: Seq<char>,
)
    requires
        args_give(args, true, t),
        reply_ok(before, after, t, b),
        out == "{\"answered\":"@ + bool_text(b) + "}"@,
    ensures
        replied(before, after, args, out),
{
    reveal(replied);
}

/// The tweet that `add` or `reply` describes with its options; without
/// `--created-at` it is dated by a reading of the service's clock.
fn tweet_from_args<S: TweetStore>(
    service: &mut FollowUpService<S>,
    args: &Vec<String>,
    reply: bool,
) -> (r: Result<IncomingTweet, String>)
    ensures
        match r {
            Ok(t) => missing_arg(str_views(args@), reply) is None && args_give(
                str_views(args@),
                reply,
                t@,
            ),
            Err(e) => missing_arg(str_views(args@), reply) == Some(e@),
        },
        r matches Ok(t) ==> clock_use(str_views(args@), old(service).readings(), final(service).readings())
            && t.created_at@ == stamp(str_views(args@), final(service).readings()),
        r is Err ==> *final(service) == *old(service),
        final(service).records() == old(service).records(),
        final(service).dependable() == old(service).dependable(),
        final(service).id_state() == old(service).id_state(),
        forall|s: Option<Status>| #[trigger] final(service).listed(s) == old(service).listed(s),
{
    proof {
        reveal_strlit("missing ");
        reveal_strlit("--tweet-id");
        reveal_strlit("--author");
        reveal_strlit("--text");
        reveal_strlit("--in-reply-to");
        reveal_strlit("missing --tweet-id");
        reveal_strlit("missing --author");
        reveal_strlit("missing --text");
        reveal_strlit("missing --in-reply-to");
        assert("missing "@ + "--tweet-id"@ =~= "missing --tweet-id"@);
        assert("missing "@ + "--author"@ =~= "missing --author"@);
        assert("missing "@ + "--text"@ =~= "missing --text"@);
        assert("missing "@ + "--in-reply-to"@ =~= "missing --in-reply-to"@);
    }
    let tweet_id = required(args, "--tweet-id")?;
    let author = required(args, "--author")?;
    let text = required(args, "--text")?;
    let in_reply_to_tweet_id = if reply {
        Some(required(args, "--in-reply-to")?)
    } else {
        None
    };
    let created_at = match optional(args, "--created-at") {
        Some(c) => c,
        None => {
            let now = service.read_clock();
            proof {
                assert(service.readings().drop_last() =~= old(service).readings());
            }
            crate::date::epoch_to_iso(now)
        },
    };
    Ok(IncomingTweet { tweet_id, author, text, created_at, in_reply_to_tweet_id })
}

/// `add`.
fn run_add<S: TweetStore>(service: &mut FollowUpService<S>, args: &Vec<String>) -> (r: Result<
    String,
    String,
>)
    ensures
        missing_arg(str_views(args@), false) matches Some(e) ==> (r matches Err(x) && x@ == e),
        missing_arg(str_views(args@), false) is Some ==> *final(service) == *old(service),
        old(service).dependable() && old(service).id_state().1 && missing_arg(str_views(args@), false)
            is None ==> r is Ok,
        r matches Ok(out) ==> added(
            old(service).records(),
            final(service).records(),
            str_views(args@),
            out@,
        ),
        extends(old(service).readings(), final(service).readings()),
        r is Ok ==> clock_use(str_views(args@), old(service).readings(), final(service).readings()),
        r is Ok ==> new_records_at(
            old(service).records(),
            final(service).records(),
            stamp(str_views(args@), final(service).readings()),
        ),
{
    let ghost a = str_views(args@);
    proof {
        lemma_extends_self(old(service).readings(), old(service).readings());
    }
    let tweet = tweet_from_args(service, args, false)?;
    let ghost t = tweet@;
    let ghost mid = service.readings();
    proof {
        lemma_extends_self(old(service).readings(), mid);
    }
    let outcome = service.ingest_tweet(tweet)?;
    proof {
        let before = old(service).records();
        let after = service.records();
        assert forall|k: Seq<char>| after.contains_key(k) && !before.contains_key(k) implies (
        #[trigger] after[k]).created_at == stamp(a, mid) by {
            let rec = outcome->0;
            let f = crate::parser::followup_of(t.text).unwrap();
            let id = choose|id: u64| rec@ == #[trigger] crate::service::tracked_from(
                t,
                id,
                f.0,
                f.1,
                f.2,
            );
        }
    }
    let mut out = String::new();
    push_str(&mut out, "{\"tracked\":");
    match &outcome {
        Some(tw) => {
            let q = crate::json::string(tw.tweet_id.as_str());
            push_str(&mut out, q.as_str());
        },
        None => {
            push_str(&mut out, "null");
        },
    }
    push_str(&mut out, "}");
    proof {
        let rv: Option<TweetView> = match outcome {
            Some(tw) => Some(tw@),
            None => None,
        };
        assert(out@ =~= tracked_line(rv));
        lemma_added(old(service).records(), service.records(), str_views(args@), t, rv, out@);
    }
    Ok(out)
}

/// `reply`.
fn run_reply<S: TweetStore>(service: &mut FollowUpService<S>, args: &Vec<String>) -> (r: Result<
    String,
    String,
>)
    ensures
        missing_arg(str_views(args@), true) matches Some(e) ==> (r matches Err(x) && x@ == e),
        missing_arg(str_views(args@), true) is Some ==> *final(service) == *old(service),
        old(service).dependable() && missing_arg(str_views(args@), true) is None ==> r is Ok,
        r matches Ok(out) ==> replied(
            old(service).records(),
            final(service).records(),
            str_views(args@),
            out@,
        ),
        extends(old(service).readings(), final(service).readings()),
        r is Ok ==> clock_use(str_views(args@), old(service).readings(), final(service).readings()),
        r is Ok ==> changed_records_at(
            old(service).records(),
            final(service).records(),
            stamp(str_views(args@), final(service).readings()),
        ),
{
    let ghost a = str_views(args@);
    proof {
        lemma_extends_self(old(service).readings(), old(service).readings());
    }
    let tweet = tweet_from_args(service, args, true)?;
    let ghost t = tweet@;
    let ghost mid = service.readings();
    proof {
        lemma_extends_self(old(service).readings(), mid);
    }
    let b = service.ingest_reply(tweet)?;
    proof {
        let before = old(service).records();
        let after = service.records();
        assert forall|k: Seq<char>|
            before.contains_key(k) && after.contains_key(k) && #[trigger] after[k] != before[k]
            implies after[k].answered_at == Some(stamp(a, mid)) by {
            assert(k == t.in_reply_to_tweet_id->0);
        }
    }
    let mut out = String::new();
    push_str(&mut out, "{\"answered\":");
    if b {
        push_str(&mut out, "true");
    } else {
        push_str(&mut out, "false");
    }
    push_str(&mut out, "}");
    proof {
        lemma_replied(old(service).records(), service.records(), str_views(args@), t, b, out@);
    }
    Ok(out)
}

/// `list`.
fn run_list<S: TweetStore>(service: &mut FollowUpService<S>, args: &Vec<String>) -> (r: Result<
    String,
    String,
>)
    ensures
        r matches Ok(out) ==> listed_all(
            old(service).records(),
            final(service).records(),
            str_views(args@),
            out@,
        ),
        old(service).dependable() ==> r is Ok,
        extends(old(service).readings(), final(service).readings()),
        r matches Ok(out) ==> listed_at(
            old(service).records(),
            final(service).records(),
            str_views(args@),
            final(service).readings().skip(old(service).readings().len() as int),
            out@,
        ),
{
    let status = match optional(args, "--status") {
        Some(v) => Status::parse(v.as_str()),
        None => None,
    };
    assert(status == status_arg(str_views(args@)));
    let ghost r0 = service.readings();
    let res = service.expire_due();
    proof {
        lemma_extends_self(r0, service.readings());
    }
    res?;
    let ghost mid = service.records();
    let ghost r1 = service.readings();
    let res2 = service.dashboard_json(status);
    proof {
        lemma_extends_trans(r0, r1, service.readings());
    }
    let out = res2?;
    proof {
        let n1 = choose|n: nat| #[trigger] expire_ok(old(service).records(), mid, r1.last(), n);
        let d1 = choose|d: Dashboard|
            dated(mid, service.records(), d, service.readings().skip(r1.len() as int))
                && dashboard_ok(mid, service.records(), status, d) && out@ == #[trigger] dashboard_text(d);
        lemma_listed_at(
            old(service).records(),
            mid,
            service.records(),
            str_views(args@),
            r0,
            r1,
            service.readings(),
            out@,
            n1,
            d1,
        );
    }
    proof {
        reveal(listed_all);
        let (now, n) = choose|now: u64, n: nat| #[trigger] expire_ok(old(service).records(), mid, now, n);
        let d = choose|d: Dashboard|
            dashboard_ok(mid, service.records(), status, d) && out@ == #[trigger] dashboard_text(d);
        assert(expire_ok(old(service).records(), mid, now, n) && dashboard_ok(
            mid,
            service.records(),
            status_arg(str_views(args@)),
            d,
        ));
    }
    Ok(out)
}

/// `check`.
fn run_check<S: TweetStore>(service: &mut FollowUpService<S>) -> (r: Result<String, String>)
    ensures
        r matches Ok(out) ==> expired_line(old(service).records(), final(service).records(), out@),
        old(service).dependable() ==> r is Ok,
        one_more(old(service).readings(), final(service).readings()),
        r matches Ok(out) ==> checked_at(
            old(service).records(),
            final(service).records(),
            final(service).readings().last(),
            out@,
        ),
{
    let n = service.expire_due()?;
    let mut out = String::new();
    push_str(&mut out, "{\"expired\":");
    push_decimal(&mut out, n as u64);
    push_str(&mut out, "}");
    proof {
        reveal(expired_line);
        let now = choose|now: u64| #[trigger]
            expire_ok(old(service).records(), service.records(), now, n as nat);
        assert(expire_ok(old(service).records(), service.records(), now, n as nat));
        assert(expire_ok(old(service).records(), service.records(), service.readings().last(), n as nat));
    }
    Ok(out)
}

/// `close`.
fn run_close<S: TweetStore>(service: &mut FollowUpService<S>, args: &Vec<String>) -> (r: Result<
    String,
    String,
>)
    ensures
        args.len() == 0 ==> (r matches Err(x) && x@ == "missing tweet id"@),
        args.len() == 0 ==> *final(service) == *old(service),
        old(service).dependable() && args.len() > 0 ==> r is Ok,
        r matches Ok(out) ==> args.len() > 0 && closed_line(
            old(service).records(),
            final(service).records(),
            args@[0]@,
            out@,
        ),
        extends(old(service).readings(), final(service).readings()),
{
    proof {
        lemma_extends_self(old(service).readings(), old(service).readings());
    }
    if args.len() == 0 {
        return Err("missing tweet id".to_owned());
    }
    let b = service.close_manually(args[0].as_str(), None)?;
    let mut out = String::new();
    push_str(&mut out, "{\"closed\":");
    if b {
        push_str(&mut out, "true");
    } else {
        push_str(&mut out, "false");
    }
    push_str(&mut out, "}");
    assert(closed_line(old(service).records(), service.records(), args@[0]@, out@)) by {
        reveal(closed_line);
        assert(close_ok(old(service).records(), service.records(), args@[0]@, None, b));
    }
    Ok(out)
}

/// Runs one command of the command line (`serve` aside, which listens for
/// requests) and returns the line it prints. A command it does not know prints
/// the help.
pub fn run_command<S: TweetStore>(
    service: &mut FollowUpService<S>,
    command: &str,
    args: &Vec<String>,
) -> (r: Result<String, String>)
    ensures
        command_error(command@, str_views(args@)) matches Some(e) ==> (r matches Err(x) && x@
            == e),
        !store_command(command@) ==> r is Ok && *final(service) == *old(service),
        command_error(command@, str_views(args@)) is Some ==> *final(service) == *old(service),
        old(service).dependable() && command_error(command@, str_views(args@)) is None
            && command@ != "add"@ ==> r is Ok,
        old(service).dependable() && old(service).id_state().1 && command_error(
            command@,
            str_views(args@),
        ) is None ==> r is Ok,
        r is Err ==> command_error(command@, str_views(args@)) is Some
            || !(old(service).dependable() && old(service).id_state().1),
        r matches Ok(out) ==> ran(
            old(service).records(),
            final(service).records(),
            command@,
            str_views(args@),
            out@,
        ),
        extends(old(service).readings(), final(service).readings()),
        r matches Ok(out) ==> clocked(
            old(service).records(),
            final(service).records(),
            command@,
            str_views(args@),
            old(service).readings(),
            final(service).readings(),
            out@,
        ),
{
    proof {
        lemma_extends_self(old(service).readings(), old(service).readings());
    }
    proof {
        reveal_strlit("list");
        reveal_strlit("check");
        reveal_strlit("close");
        assert("list"@.len() == 4 && "check"@.len() == 5 && "close"@[1] == 'l' && "check"@[1]
            == 'h');
    }
    assert(str_views(args@).len() == args@.len());
    if same_text(command, "add") {
        run_add(service, args)
    } else if same_text(command, "reply") {
        run_reply(service, args)
    } else if same_text(command, "list") {
        run_list(service, args)
    } else if same_text(command, "check") {
        run_check(service)
    } else if same_text(command, "close") {
        run_close(service, args)
    } else {
        Ok(help_text())
    }
}

} // verus!

verus! {

/// `add` without `--created-at` reads the clock once and dates the tweet it
/// tracks by that reading: every record it adds was made then.
pub proof fn lemma_add_dated_by_clock(
    before: Map<Seq<char>, TweetView>,
    after: Map<Seq<char>, TweetView>,
    args: Seq<Seq<char>>,
    rb: Seq<u64>,
    ra: Seq<u64>,
    out: Seq<char>,
    k: Seq<char>,
)
    requires
        clocked(before, after, "add"@, args, rb, ra, out),
        arg_value(args, "--created-at"@) is None,
        after.contains_key(k),
        !before.contains_key(k),
    ensures
        ra.len() == rb.len() + 1,
        ra.drop_last() == rb,
        after[k].created_at == iso_of(ra.last() as nat),
{
}

} // verus!
