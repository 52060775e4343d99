//! The follow-up service: tracking tagged questions, recording answers,
//! expiring and closing them, and the dashboard.
use vstd::prelude::*;
use vstd::utf8::encode_utf8;
use crate::date::{Clock, add_days_iso, epoch_of, epoch_to_iso, iso_of, iso_plus_days, iso_to_epoch};
use crate::json::dashboard_json;
use crate::model::{
    Dashboard, DraftView, FollowUpDraft, IncomingTweet, IncomingView, Status, TrackedTweet,
    TweetView, draft_views, tweet_views,
};
use crate::parser::{followup_of, parse_followup};
use crate::store::{TweetStore, listing, matches_status};
use crate::text::{chars_of, lower, lower_all, lower_char, push_str, trim, trimmed};

verus! {

// ---------------------------------------------------------------------------
// Handles
// ---------------------------------------------------------------------------

/// An account handle trimmed of white space, with a leading `@`.
pub open spec fn normalized(handle: Seq<char>) -> Seq<char> {
    let t = trim(handle);
    if t.len() > 0 && t[0] == '@' {
        t
    } else {
        seq!['@'] + t
    }
}

pub fn normalize_handle(handle: &str) -> (r: String)
    ensures
        r@ == normalized(handle@),
{
    let t = trimmed(handle);
    let v = chars_of(t.as_str());
    if v.len() > 0 && v[0] == '@' {
        t
    } else {
        let mut out = String::new();
        crate::text::push_char(&mut out, '@');
        push_str(&mut out, t.as_str());
        assert(out@ =~= seq!['@'] + trim(handle@));
        out
    }
}

/// `str::eq_ignore_ascii_case`.
pub fn same_ignoring_case(a: &str, b: &str) -> (r: bool)
    ensures
        r == (lower_all(a@) == lower_all(b@)),
{
    let x = chars_of(a);
    let y = chars_of(b);
    if x.len() != y.len() {
        assert(lower_all(a@).len() != lower_all(b@).len());
        return false;
    }
    let mut i: usize = 0;
    while i < x.len()
        invariant
            x@ == a@,
            y@ == b@,
            x.len() == y.len(),
            0 <= i <= x.len(),
            forall|k: int| 0 <= k < i ==> lower(#[trigger] x@[k]) == lower(y@[k]),
        decreases x.len() - i,
    {
        if lower_char(x[i]) != lower_char(y[i]) {
            assert(lower_all(a@)[i as int] != lower_all(b@)[i as int]);
            return false;
        }
        i = i + 1;
    }
    assert(lower_all(a@) =~= lower_all(b@));
    true
}

// ---------------------------------------------------------------------------
// What each operation does to a record
// ---------------------------------------------------------------------------

/// The record a tagged tweet starts as.
pub open spec fn tracked_from(
    t: IncomingView,
    id: u64,
    tag: Seq<char>,
    days: int,
    target: Seq<char>,
) -> TweetView {
    TweetView {
        id,
        tweet_id: t.tweet_id,
        author: normalized(t.author),
        target,
        tag,
        status: Status::Waiting,
        text: t.text,
        created_at: t.created_at,
        expire_at: iso_plus_days(encode_utf8(t.created_at), days as nat),
        answered_at: None,
        answer_tweet_id: None,
        notes: None,
    }
}

/// What tracking `tweet` did: `r` is the record returned, if any.
pub open spec fn ingest_ok(
    before: Map<Seq<char>, TweetView>,
    after: Map<Seq<char>, TweetView>,
    tweet: IncomingView,
    r: Option<TweetView>,
) -> bool {
    &&& followup_of(tweet.text) is None ==> (r is None && after == before)
    &&& followup_of(tweet.text) is Some ==> r is Some
    &&& r matches Some(t) ==> if before.contains_key(tweet.tweet_id) {
        &&& t == before[tweet.tweet_id]
        &&& after == before
    } else {
        &&& starts_as(tweet, t)
        &&& after == before.insert(tweet.tweet_id, t)
    }
}

/// What recording `tweet` as a reply did: `b` tells whether it answered a record.
pub open spec fn reply_ok(
    before: Map<Seq<char>, TweetView>,
    after: Map<Seq<char>, TweetView>,
    tweet: IncomingView,
    b: bool,
) -> bool {
    match tweet.in_reply_to_tweet_id {
        None => !b && after == before,
        Some(parent) => {
            &&& b == (before.contains_key(parent) && answers(before[parent], tweet))
            &&& b ==> after == before.insert(parent, answered(before[parent], tweet))
            &&& !b ==> after == before
        },
    }
}

/// What expiring at time `now` did: `n` records expired.
pub open spec fn expire_ok(
    before: Map<Seq<char>, TweetView>,
    after: Map<Seq<char>, TweetView>,
    now: u64,
    n: nat,
) -> bool {
    &&& after == expired_map(before, now)
    &&& exists|v: Seq<TweetView>| #[trigger] listing(before, Some(Status::Waiting), v) && n == count_due(v, now)
}

/// What closing `id` by hand did: `b` tells whether a waiting record was closed.
pub open spec fn close_ok(
    before: Map<Seq<char>, TweetView>,
    after: Map<Seq<char>, TweetView>,
    id: Seq<char>,
    notes: Option<Seq<char>>,
    b: bool,
) -> bool {
    &&& b == (before.contains_key(id) && before[id].status == Status::Waiting)
    &&& b ==> exists|e: u64| after == before.insert(id, #[trigger] closed(before[id], iso_of(e as nat), notes))
    &&& !b ==> after == before
}

/// `t` is the record that the tagged tweet `tweet` starts as, for some id.
pub open spec fn starts_as(tweet: IncomingView, t: TweetView) -> bool {
    match followup_of(tweet.text) {
        Some((tag, days, target)) => exists|id: u64| t == #[trigger] tracked_from(tweet, id, tag, days, target),
        None => false,
    }
}

/// A reply answers a record that is still waiting when its author, normalized,
/// is the record's target up to ASCII case.
pub open spec fn answers(rec: TweetView, reply: IncomingView) -> bool {
    rec.status == Status::Waiting && lower_all(normalized(reply.author)) == lower_all(rec.target)
}

pub open spec fn answered(rec: TweetView, reply: IncomingView) -> TweetView {
    TweetView {
        status: Status::Answered,
        answered_at: Some(reply.created_at),
        answer_tweet_id: Some(reply.tweet_id),
        notes: Some("Answered by "@ + normalized(reply.author)),
        ..rec
    }
}

/// A reply that would answer the record it replies to.
pub open spec fn answerable(records: Map<Seq<char>, TweetView>, reply: IncomingView) -> bool {
    match reply.in_reply_to_tweet_id {
        Some(p) => records.contains_key(p) && answers(records[p], reply),
        None => false,
    }
}

/// A waiting record whose expiry time has come by `now`.
pub open spec fn due(t: TweetView, now: u64) -> bool {
    t.status == Status::Waiting && epoch_of(encode_utf8(t.expire_at)) <= now
}

pub open spec fn expired(t: TweetView) -> TweetView {
    TweetView { status: Status::Expired, ..t }
}

/// The records once every due record has expired.
pub open spec fn expired_map(m: Map<Seq<char>, TweetView>, now: u64) -> Map<Seq<char>, TweetView> {
    Map::new(
        |k: Seq<char>| m.contains_key(k),
        |k: Seq<char>|
            if due(m[k], now) {
                expired(m[k])
            } else {
                m[k]
            },
    )
}

pub open spec fn count_due(v: Seq<TweetView>, now: u64) -> nat
    decreases v.len(),
{
    if v.len() == 0 {
        0
    } else {
        count_due(v.drop_last(), now) + if due(v.last(), now) {
            1nat
        } else {
            0nat
        }
    }
}

pub open spec fn closing_note(notes: Option<Seq<char>>) -> Seq<char> {
    match notes {
        Some(n) => n,
        None => "Closed manually"@,
    }
}

pub open spec fn closed(rec: TweetView, at: Seq<char>, notes: Option<Seq<char>>) -> TweetView {
    TweetView {
        status: Status::Closed,
        answered_at: Some(at),
        notes: Some(closing_note(notes)),
        ..rec
    }
}

pub open spec fn count_status(v: Seq<TweetView>, s: Status) -> nat
    decreases v.len(),
{
    if v.len() == 0 {
        0
    } else {
        count_status(v.drop_last(), s) + if v.last().status == s {
            1nat
        } else {
            0nat
        }
    }
}

/// The expired records of `v`, in order.
pub open spec fn expired_of(v: Seq<TweetView>) -> Seq<TweetView>
    decreases v.len(),
{
    if v.len() == 0 {
        seq![]
    } else if v.last().status == Status::Expired {
        expired_of(v.drop_last()).push(v.last())
    } else {
        expired_of(v.drop_last())
    }
}

pub open spec fn draft_suffix() -> Seq<char> {
    " bu konu hakkında bir güncelleme var mı?"@
}

/// The draft for an expired record, `now` seconds after the epoch.
pub open spec fn draft_for(t: TweetView, now: u64) -> DraftView {
    let created = epoch_of(encode_utf8(t.created_at));
    DraftView {
        tweet_id: t.tweet_id,
        target: t.target,
        days_waited: ((if now >= created {
            now - created
        } else {
            0
        }) / 86400) as u64,
        text: t.target + draft_suffix(),
    }
}

/// `d` is a dashboard of the records `after`, which are the records `before`
/// once the due ones have expired: the tweets with the asked status, the counts
/// over all records, and one draft per expired tweet shown.
pub open spec fn dashboard_ok(
    before: Map<Seq<char>, TweetView>,
    after: Map<Seq<char>, TweetView>,
    status: Option<Status>,
    d: Dashboard,
) -> bool {
    &&& exists|now: u64, n: nat| #[trigger] expire_ok(before, after, now, n)
    &&& listing(after, status, tweet_views(d.tweets@))
    &&& exists|all: Seq<TweetView>|
        {
            &&& #[trigger] listing(after, None, all)
            &&& d.waiting == count_status(all, Status::Waiting)
            &&& d.answered == count_status(all, Status::Answered)
            &&& d.expired == count_status(all, Status::Expired)
            &&& d.closed == count_status(all, Status::Closed)
        }
    &&& d.drafts.len() == expired_of(tweet_views(d.tweets@)).len()
    &&& forall|j: int|
        0 <= j < d.drafts.len() ==> drafted(#[trigger] d.drafts@[j]@, expired_of(tweet_views(d.tweets@))[j])
}

/// `b` is `a` with more readings after it.
pub open spec fn extends(a: Seq<u64>, b: Seq<u64>) -> bool {
    a.len() <= b.len() && b.take(a.len() as int) == a
}

/// Readings added after readings added are readings added.
pub proof fn lemma_extends_trans(a: Seq<u64>, b: Seq<u64>, c: Seq<u64>)
    requires
        extends(a, b),
        extends(b, c),
    ensures
        extends(a, c),
{
    assert(c.take(a.len() as int) =~= c.take(b.len() as int).take(a.len() as int));
}

/// A sequence of readings extends itself, and one more reading extends it.
pub proof fn lemma_extends_self(a: Seq<u64>, b: Seq<u64>)
    ensures
        extends(a, a),
        one_more(a, b) ==> extends(a, b),
{
    assert(a.take(a.len() as int) =~= a);
    if one_more(a, b) {
        assert(b.take(a.len() as int) =~= b.drop_last());
    }
}

/// Every record that is in `after` and not in `before` was made at `at`.
pub open spec fn new_records_at(
    before: Map<Seq<char>, TweetView>,
    after: Map<Seq<char>, TweetView>,
    at: Seq<char>,
) -> bool {
    forall|k: Seq<char>|
        after.contains_key(k) && !before.contains_key(k) ==> (#[trigger] after[k]).created_at == at
}

/// Every record of `before` that `after` holds otherwise was answered at `at`.
pub open spec fn changed_records_at(
    before: Map<Seq<char>, TweetView>,
    after: Map<Seq<char>, TweetView>,
    at: Seq<char>,
) -> bool {
    forall|k: Seq<char>|
        before.contains_key(k) && after.contains_key(k) && #[trigger] after[k] != before[k]
            ==> after[k].answered_at == Some(at)
}

/// Closing `id` by hand, from the readings `rb` to `ra`: a waiting record is
/// closed at the one reading taken; otherwise the clock is not read.
pub open spec fn closed_at_reading(
    before: Map<Seq<char>, TweetView>,
    after: Map<Seq<char>, TweetView>,
    id: Seq<char>,
    notes: Option<Seq<char>>,
    rb: Seq<u64>,
    ra: Seq<u64>,
) -> bool {
    if before.contains_key(id) && before[id].status == Status::Waiting {
        one_more(rb, ra) && after == before.insert(id, closed(before[id], iso_of(ra.last() as nat), notes))
    } else {
        ra == rb && after == before
    }
}

/// `b` is `a` with one more reading.
pub open spec fn one_more(a: Seq<u64>, b: Seq<u64>) -> bool {
    b.len() == a.len() + 1 && b.drop_last() == a
}

/// The dashboard `d` was made with the clock readings `times`: what was due at
/// `times[0]` expired, and draft `j` counts the days waited up to `times[j + 1]`.
pub open spec fn dated(
    before: Map<Seq<char>, TweetView>,
    after: Map<Seq<char>, TweetView>,
    d: Dashboard,
    times: Seq<u64>,
) -> bool {
    &&& times.len() == d.drafts.len() + 1
    &&& exists|n: nat| #[trigger] expire_ok(before, after, times[0], n)
    &&& forall|j: int|
        0 <= j < d.drafts.len() ==> #[trigger] d.drafts@[j]@ == draft_for(
            expired_of(tweet_views(d.tweets@))[j],
            times[j + 1],
        )
}

/// `d` is the draft for `t` at some moment.
pub open spec fn drafted(d: DraftView, t: TweetView) -> bool {
    exists|now: u64| d == #[trigger] draft_for(t, now)
}

// ---------------------------------------------------------------------------
// The service
// ---------------------------------------------------------------------------

pub struct FollowUpService<S: TweetStore> {
    store: S,
    clock: Clock,
}

impl<S: TweetStore> FollowUpService<S> {
    /// The records of the underlying store.
    pub closed spec fn records(&self) -> Map<Seq<char>, TweetView> {
        self.store.records()
    }

    /// Whether the underlying store answers every read and write without an error.
    pub closed spec fn dependable(&self) -> bool {
        self.store.dependable()
    }

    /// The id the store hands out next, and whether it has one left.
    pub closed spec fn id_state(&self) -> (u64, bool) {
        (self.store.upcoming_id(), self.store.ids_left())
    }

    /// The records with the given status in the order the store lists them.
    pub closed spec fn listed(&self, status: Option<Status>) -> Seq<TweetView> {
        self.store.listed(status)
    }

    /// The readings of the system clock that the service has taken, oldest first.
    pub closed spec fn readings(&self) -> Seq<u64> {
        self.clock.readings()
    }

    /// Reads the system clock for the caller; the store is left alone.
    pub fn read_clock(&mut self) -> (r: u64)
        ensures
            final(self).readings() == old(self).readings().push(r),
            final(self).records() == old(self).records(),
            final(self).dependable() == old(self).dependable(),
            final(self).id_state() == old(self).id_state(),
            forall|s: Option<Status>| #[trigger] final(self).listed(s) == old(self).listed(s),
    {
        self.clock.read()
    }

    pub fn new(store: S) -> (r: Self)
        ensures
            r.records() == store.records(),
            r.dependable() == store.dependable(),
            r.id_state() == (store.upcoming_id(), store.ids_left()),
            forall|s: Option<Status>| #[trigger] r.listed(s) == store.listed(s),
            r.readings() == Seq::<u64>::empty(),
    {
        FollowUpService { store, clock: Clock::new() }
    }

    /// Tracks a tweet that carries a `#fu` tag and a mention. A tweet whose id is
    /// already on file keeps its record; a new record takes the next id from the
    /// store.
    pub fn ingest_tweet(&mut self, tweet: IncomingTweet) -> (r: Result<Option<TrackedTweet>, String>)
        ensures
            followup_of(tweet.text@) is None ==> (r matches Ok(None) && *final(self) == *old(self)),
            followup_of(tweet.text@) is Some && old(self).dependable() && old(self).id_state().1
                ==> r matches Ok(Some(_)),
            !old(self).records().contains_key(tweet.tweet_id@) ==> (r matches Ok(Some(t)) ==> t.id
                == old(self).id_state().0),
            followup_of(tweet.text@) is Some && r is Ok ==> final(self).id_state().1
                == (old(self).id_state().0 < u64::MAX),
            followup_of(tweet.text@) is Some && r is Ok && old(self).id_state().0 < u64::MAX
                ==> final(self).id_state().0 == old(self).id_state().0 + 1,
            r is Err ==> followup_of(tweet.text@) is Some
                && !(old(self).dependable() && old(self).id_state().1),
            final(self).dependable() == old(self).dependable(),
            final(self).readings() == old(self).readings(),
            r matches Ok(o) ==> ingest_ok(
                old(self).records(),
                final(self).records(),
                tweet@,
                match o {
                    Some(t) => Some(t@),
                    None => None,
                },
            ),
    {
        let parsed = match parse_followup(tweet.text.as_str()) {
            Some(p) => p,
            None => {
                return Ok(None);
            },
        };
        let ghost tag_v = parsed.tag@;
        let ghost target_v = parsed.target@;
        let ghost days_v = parsed.days as int;
        let id = self.store.next_id()?;
        let expire_at = add_days_iso(tweet.created_at.as_str(), parsed.days as u64);
        let record = TrackedTweet {
            id,
            tweet_id: tweet.tweet_id,
            author: normalize_handle(tweet.author.as_str()),
            target: parsed.target,
            tag: parsed.tag,
            status: Status::Waiting,
            text: tweet.text,
            expire_at,
            created_at: tweet.created_at,
            answered_at: None,
            answer_tweet_id: None,
            notes: None,
        };
        let ghost rec = record@;
        assert(rec == tracked_from(tweet@, id, tag_v, days_v, target_v));
        match self.store.add_tracked(record) {
            Ok(t) => {
                assert(!old(self).records().contains_key(tweet@.tweet_id) ==> t@ == tracked_from(
                    tweet@,
                    id,
                    tag_v,
                    days_v,
                    target_v,
                ));
                Ok(Some(t))
            },
            Err(e) => Err(e),
        }
    }

    /// Records a reply from the target of a waiting record as its answer.
    pub fn ingest_reply(&mut self, tweet: IncomingTweet) -> (r: Result<bool, String>)
        ensures
            tweet.in_reply_to_tweet_id is None ==> r == Ok::<bool, String>(false) && *final(self)
                == *old(self),
            !answerable(old(self).records(), tweet@) ==> *final(self) == *old(self),
            r is Err ==> !old(self).dependable(),
            old(self).dependable() ==> r is Ok,
            final(self).dependable() == old(self).dependable(),
            final(self).id_state() == old(self).id_state(),
            r matches Ok(b) ==> reply_ok(old(self).records(), final(self).records(), tweet@, b),
            final(self).readings() == old(self).readings(),
    {
        let parent = match &tweet.in_reply_to_tweet_id {
            Some(p) => p,
            None => {
                return Ok(false);
            },
        };
        let mut record = match self.store.get_by_tweet_id(parent.as_str())? {
            Some(t) => t,
            None => {
                return Ok(false);
            },
        };
        if record.status != Status::Waiting {
            return Ok(false);
        }
        let author = normalize_handle(tweet.author.as_str());
        if !same_ignoring_case(author.as_str(), record.target.as_str()) {
            return Ok(false);
        }
        let mut notes = String::new();
        push_str(&mut notes, "Answered by ");
        push_str(&mut notes, author.as_str());
        record.status = Status::Answered;
        record.answered_at = Some(tweet.created_at);
        record.answer_tweet_id = Some(tweet.tweet_id);
        record.notes = Some(notes);
        let ghost updated = record@;
        assert(updated == answered(old(self).records()[parent@], tweet@));
        assert(updated.tweet_id == parent@);
        self.store.save_tracked(record)?;
        Ok(true)
    }

    /// Expires every waiting record whose expiry time is at or before `now`, and
    /// returns how many expired.
    pub fn expire_due_at(&mut self, now: u64) -> (r: Result<usize, String>)
        ensures
            r matches Ok(n) ==> expire_ok(old(self).records(), final(self).records(), now, n as nat),
            old(self).dependable() ==> r is Ok,
            r is Err ==> !old(self).dependable(),
            final(self).dependable() == old(self).dependable(),
            final(self).id_state() == old(self).id_state(),
            final(self).readings() == old(self).readings(),
    {
        let ghost start = self.store.records();
        let waiting = self.store.list_tracked(Some(Status::Waiting))?;
        let ghost v = tweet_views(waiting@);
        let mut count: usize = 0;
        let mut i: usize = 0;
        while i < waiting.len()
            invariant
                0 <= i <= waiting.len(),
                v == tweet_views(waiting@),
                listing(start, Some(Status::Waiting), v),
                count == count_due(v.take(i as int), now),
                count <= i,
                self.store.records() == applied(start, v.take(i as int), now),
                self.dependable() == old(self).dependable(),
                self.id_state() == old(self).id_state(),
                self.readings() == old(self).readings(),
            decreases waiting.len() - i,
        {
            let tweet = &waiting[i];
            let ghost t = v[i as int];
            assert(t == tweet@);
            proof {
                assert(v.take(i + 1).drop_last() =~= v.take(i as int));
                assert(v.take(i + 1).last() == t);
                lemma_applied_keeps(start, v, i as int, now);
            }
            if iso_to_epoch(tweet.expire_at.as_str()) <= now {
                let mut updated = tweet.copied();
                updated.status = Status::Expired;
                let ghost u = updated@;
                match self.store.save_tracked(updated) {
                    Ok(()) => {},
                    Err(e) => {
                        return Err(e);
                    },
                }
                assert(u == expired(t));
                count = count + 1;
            }
            i = i + 1;
        }
        proof {
            assert(v.take(v.len() as int) =~= v);
            lemma_applied_all(start, v, now);
            assert(listing(old(self).records(), Some(Status::Waiting), v) && count == count_due(v, now));
        }
        Ok(count)
    }

    /// Expires every waiting record whose expiry time has come by the clock: the
    /// clock is read once, and that reading is the moment the records are held to.
    pub fn expire_due(&mut self) -> (r: Result<usize, String>)
        ensures
            r matches Ok(n) ==> exists|now: u64|
                #[trigger] expire_ok(old(self).records(), final(self).records(), now, n as nat),
            one_more(old(self).readings(), final(self).readings()),
            r matches Ok(n) ==> expire_ok(
                old(self).records(),
                final(self).records(),
                final(self).readings().last(),
                n as nat,
            ),
            old(self).dependable() ==> r is Ok,
            r is Err ==> !old(self).dependable(),
            final(self).dependable() == old(self).dependable(),
            final(self).id_state() == old(self).id_state(),
    {
        let ghost before = self.readings();
        let now = self.clock.read();
        assert(self.readings().drop_last() =~= before);
        let r = self.expire_due_at(now);
        proof {
            if let Ok(n) = r {
                assert(expire_ok(old(self).records(), self.records(), now, n as nat));
            }
        }
        r
    }

    /// Expires what is due, then gathers the tweets with the given status (all
    /// for `None`), the counts over all tweets, and drafts for the expired ones shown.
    pub fn dashboard(&mut self, status: Option<Status>) -> (r: Result<Dashboard, String>)
        ensures
            r matches Ok(d) ==> dashboard_ok(old(self).records(), final(self).records(), status, d)
                && tweet_views(d.tweets@) == final(self).listed(status),
            extends(old(self).readings(), final(self).readings()),
            r matches Ok(d) ==> dated(
                old(self).records(),
                final(self).records(),
                d,
                final(self).readings().skip(old(self).readings().len() as int),
            ),
            old(self).dependable() ==> r is Ok,
            r is Err ==> !old(self).dependable(),
            final(self).dependable() == old(self).dependable(),
            final(self).id_state() == old(self).id_state(),
    {
        let ghost start = self.readings();
        self.expire_due()?;
        let ghost mid = self.records();
        let ghost at = self.readings();
        let tweets = self.store.list_tracked(status)?;
        let all = self.store.list_tracked(None)?;
        let ghost all_v = tweet_views(all@);
        let waiting = count_with(&all, Status::Waiting);
        let answered = count_with(&all, Status::Answered);
        let expired = count_with(&all, Status::Expired);
        let closed = count_with(&all, Status::Closed);
        let drafts = drafts_for(&mut self.clock, &tweets);
        let d = Dashboard { waiting, answered, expired, closed, tweets, drafts };
        proof {
            let times = self.readings().skip(start.len() as int);
            assert(at.take(start.len() as int) =~= start);
            assert(self.readings().take(at.len() as int) == at);
            assert(self.readings().take(start.len() as int) =~= start);
            assert(times[0] == at.last());
            assert(expire_ok(old(self).records(), mid, times[0], choose|n: nat| #[trigger] expire_ok(old(self).records(), mid, at.last(), n)));
            assert forall|j: int| 0 <= j < d.drafts.len() implies #[trigger] d.drafts@[j]@ == draft_for(
                expired_of(tweet_views(d.tweets@))[j],
                times[j + 1],
            ) by {
                assert(times[j + 1] == self.readings()[at.len() + j]);
            }
        }
        assert(listing(self.records(), None, all_v) && d.waiting == count_status(
            all_v,
            Status::Waiting,
        ) && d.answered == count_status(all_v, Status::Answered) && d.expired == count_status(
            all_v,
            Status::Expired,
        ) && d.closed == count_status(all_v, Status::Closed));
        Ok(d)
    }

    /// The dashboard as a JSON document.
    pub fn dashboard_json(&mut self, status: Option<Status>) -> (r: Result<String, String>)
        ensures
            r matches Ok(s) ==> exists|d: Dashboard|
                dashboard_ok(old(self).records(), final(self).records(), status, d)
                    && tweet_views(d.tweets@) == final(self).listed(status) && s@
                    == #[trigger] dashboard_text(d),
            r matches Ok(s) ==> exists|d: Dashboard|
                dated(
                    old(self).records(),
                    final(self).records(),
                    d,
                    final(self).readings().skip(old(self).readings().len() as int),
                ) && dashboard_ok(old(self).records(), final(self).records(), status, d)
                    && s@ == #[trigger] dashboard_text(d),
            extends(old(self).readings(), final(self).readings()),
            old(self).dependable() ==> r is Ok,
            r is Err ==> !old(self).dependable(),
            final(self).dependable() == old(self).dependable(),
            final(self).id_state() == old(self).id_state(),
    {
        let d = self.dashboard(status)?;
        let s = crate::json::dashboard(&d);
        assert(s@ == dashboard_text(d));
        Ok(s)
    }

    /// Closes a waiting record by hand, noting the time and `notes` (or
    /// "Closed manually").
    pub fn close_manually(&mut self, tweet_id: &str, notes: Option<String>) -> (r: Result<
        bool,
        String,
    >)
        ensures
            r matches Ok(b) ==> close_ok(
                old(self).records(),
                final(self).records(),
                tweet_id@,
                crate::model::opt_view(notes),
                b,
            ),
            old(self).dependable() ==> r is Ok,
            r is Err ==> !old(self).dependable(),
            !(old(self).records().contains_key(tweet_id@) && old(self).records()[tweet_id@].status
                == Status::Waiting) ==> *final(self) == *old(self),
            r matches Ok(false) ==> final(self).readings() == old(self).readings(),
            r matches Ok(true) ==> one_more(old(self).readings(), final(self).readings())
                && final(self).records() == old(self).records().insert(
                tweet_id@,
                closed(
                    old(self).records()[tweet_id@],
                    iso_of(final(self).readings().last() as nat),
                    crate::model::opt_view(notes),
                ),
            ),
            extends(old(self).readings(), final(self).readings()),
            r is Ok ==> closed_at_reading(
                old(self).records(),
                final(self).records(),
                tweet_id@,
                crate::model::opt_view(notes),
                old(self).readings(),
                final(self).readings(),
            ),
            final(self).dependable() == old(self).dependable(),
            final(self).id_state() == old(self).id_state(),
    {
        assert(old(self).readings().take(old(self).readings().len() as int) =~= old(self).readings());
        let mut tweet = match self.store.get_by_tweet_id(tweet_id)? {
            Some(t) => t,
            None => {
                return Ok(false);
            },
        };
        if tweet.status != Status::Waiting {
            return Ok(false);
        }
        let now = self.clock.read();
        assert(self.readings().take(old(self).readings().len() as int) =~= old(self).readings());
        assert(self.readings().drop_last() =~= old(self).readings());
        let at = epoch_to_iso(now);
        let ghost at_view = at@;
        let note = match notes {
            Some(n) => n,
            None => "Closed manually".to_owned(),
        };
        tweet.status = Status::Closed;
        tweet.answered_at = Some(at);
        tweet.notes = Some(note);
        let ghost c = tweet@;
        assert(c.tweet_id == tweet_id@);
        self.store.save_tracked(tweet)?;
        assert(c == closed(old(self).records()[tweet_id@], iso_of(now as nat), crate::model::opt_view(notes)));
        Ok(true)
    }
}

/// The document of a dashboard.
pub open spec fn dashboard_text(d: Dashboard) -> Seq<char> {
    dashboard_json(
        d.waiting as nat,
        d.answered as nat,
        d.expired as nat,
        d.closed as nat,
        tweet_views(d.tweets@),
        draft_views(d.drafts@),
    )
}

/// The number of tweets of `v` with status `s`.
fn count_with(v: &Vec<TrackedTweet>, s: Status) -> (r: usize)
    ensures
        r == count_status(tweet_views(v@), s),
{
    let ghost w = tweet_views(v@);
    let mut n: usize = 0;
    let mut i: usize = 0;
    while i < v.len()
        invariant
            0 <= i <= v.len(),
            w == tweet_views(v@),
            n == count_status(w.take(i as int), s),
            n <= i,
        decreases v.len() - i,
    {
        assert(w.take(i + 1).drop_last() =~= w.take(i as int));
        assert(w.take(i + 1).last() == v@[i as int]@);
        if v[i].status == s {
            n = n + 1;
        }
        i = i + 1;
    }
    assert(w.take(v.len() as int) =~= w);
    n
}

/// One draft per expired tweet of `v`, in order, each dated by a reading of
/// the clock taken for it.
fn drafts_for(clock: &mut Clock, v: &Vec<TrackedTweet>) -> (r: Vec<FollowUpDraft>)
    ensures
        r.len() == expired_of(tweet_views(v@)).len(),
        forall|j: int|
            0 <= j < r.len() ==> drafted(#[trigger] r@[j]@, expired_of(tweet_views(v@))[j]),
        final(clock).readings().len() == old(clock).readings().len() + r.len(),
        final(clock).readings().take(old(clock).readings().len() as int) == old(clock).readings(),
        forall|j: int|
            0 <= j < r.len() ==> #[trigger] r@[j]@ == draft_for(
                expired_of(tweet_views(v@))[j],
                final(clock).readings()[old(clock).readings().len() + j],
            ),
{
    let ghost w = tweet_views(v@);
    let ghost start = clock.readings();
    let mut out: Vec<FollowUpDraft> = Vec::new();
    let ghost mut times: Seq<u64> = Seq::empty();
    let mut i: usize = 0;
    assert(clock.readings() =~= start + times);
    while i < v.len()
        invariant
            0 <= i <= v.len(),
            w == tweet_views(v@),
            out.len() == expired_of(w.take(i as int)).len(),
            times.len() == out.len(),
            start == old(clock).readings(),
            clock.readings() == start + times,
            forall|j: int|
                0 <= j < out.len() ==> #[trigger] out@[j]@ == draft_for(
                    expired_of(w.take(i as int))[j],
                    times[j],
                ),
        decreases v.len() - i,
    {
        let ghost before = expired_of(w.take(i as int));
        assert(w.take(i + 1).drop_last() =~= w.take(i as int));
        assert(w.take(i + 1).last() == v@[i as int]@);
        let t = &v[i];
        if t.status == Status::Expired {
            let now = clock.read();
            let created = iso_to_epoch(t.created_at.as_str());
            let waited: u64 = now.saturating_sub(created);
            let mut text = t.target.clone();
            push_str(&mut text, " bu konu hakkında bir güncelleme var mı?");
            let d = FollowUpDraft {
                tweet_id: t.tweet_id.clone(),
                target: t.target.clone(),
                days_waited: waited / 86_400,
                text,
            };
            assert(d@ == draft_for(t@, now));
            let ghost prev = out@;
            out.push(d);
            proof {
                times = times.push(now);
                assert(clock.readings() =~= start + times);
                let e = expired_of(w.take(i + 1));
                assert(e == before.push(t@));
                assert forall|j: int| 0 <= j < out.len() implies #[trigger] out@[j]@ == draft_for(
                    e[j],
                    times[j],
                ) by {
                    if j < out.len() - 1 {
                        assert(out@[j] == prev[j]);
                        assert(e[j] == before[j]);
                    }
                }
            }
        } else {
            assert(expired_of(w.take(i + 1)) == before);
        }
        i = i + 1;
    }
    assert(w.take(v.len() as int) =~= w);
    assert forall|j: int| 0 <= j < out.len() implies drafted(
        #[trigger] out@[j]@,
        expired_of(w)[j],
    ) by {
        assert(out@[j]@ == draft_for(expired_of(w)[j], times[j]));
    }
    assert forall|j: int| 0 <= j < out.len() implies #[trigger] out@[j]@ == draft_for(
        expired_of(w)[j],
        clock.readings()[start.len() + j],
    ) by {
        assert(clock.readings()[start.len() + j] == times[j]);
    }
    assert(clock.readings().take(start.len() as int) =~= start);
    out
}

/// The records once the due ones among `v` have expired.
pub open spec fn applied(
    m: Map<Seq<char>, TweetView>,
    v: Seq<TweetView>,
    now: u64,
) -> Map<Seq<char>, TweetView>
    decreases v.len(),
{
    if v.len() == 0 {
        m
    } else {
        let prev = applied(m, v.drop_last(), now);
        if due(v.last(), now) {
            prev.insert(v.last().tweet_id, expired(v.last()))
        } else {
            prev
        }
    }
}

/// `applied` keeps the keys of `m`; entries off the listed ids are untouched, and
/// each listed id holds its record, expired if due.
proof fn lemma_applied_entries(m: Map<Seq<char>, TweetView>, v: Seq<TweetView>, now: u64, k: Seq<char>)
    requires
        forall|a: int, b: int| 0 <= a < b < v.len() ==> #[trigger] v[a].tweet_id != #[trigger] v[b].tweet_id,
        forall|i: int| 0 <= i < v.len() ==> m.contains_key(#[trigger] v[i].tweet_id),
    ensures
        applied(m, v, now).contains_key(k) == m.contains_key(k),
        (forall|i: int| 0 <= i < v.len() ==> #[trigger] v[i].tweet_id != k) ==> (m.contains_key(k)
            ==> applied(m, v, now)[k] == m[k]),
        forall|i: int|
            0 <= i < v.len() && #[trigger] v[i].tweet_id == k && due(v[i], now) ==> applied(
                m,
                v,
                now,
            )[k] == expired(v[i]),
        forall|i: int|
            0 <= i < v.len() && #[trigger] v[i].tweet_id == k && !due(v[i], now) ==> applied(
                m,
                v,
                now,
            )[k] == m[k],
    decreases v.len(),
{
    if v.len() > 0 {
        let w = v.drop_last();
        assert forall|a: int, b: int| 0 <= a < b < w.len() implies #[trigger] w[a].tweet_id
            != #[trigger] w[b].tweet_id by {
            assert(v[a].tweet_id != v[b].tweet_id);
        }
        assert forall|i: int| 0 <= i < w.len() implies m.contains_key(#[trigger] w[i].tweet_id) by {
            assert(w[i] == v[i]);
        }
        lemma_applied_entries(m, w, now, k);
        assert forall|i: int| 0 <= i < v.len() - 1 implies #[trigger] w[i] == v[i] by {}
        assert forall|i: int| 0 <= i < v.len() - 1 implies #[trigger] v[i].tweet_id
            != v.last().tweet_id by {
            assert(v[i].tweet_id != v[v.len() - 1].tweet_id);
        }
        assert(m.contains_key(v[v.len() - 1].tweet_id));
        assert forall|i: int|
            0 <= i < v.len() && #[trigger] v[i].tweet_id == k && due(v[i], now) implies applied(
            m,
            v,
            now,
        )[k] == expired(v[i]) by {
            if i < v.len() - 1 {
                assert(w[i] == v[i]);
                assert(w[i].tweet_id == k);
                assert(v.last().tweet_id != k);
            }
        }
        assert forall|i: int|
            0 <= i < v.len() && #[trigger] v[i].tweet_id == k && !due(v[i], now) implies applied(
            m,
            v,
            now,
        )[k] == m[k] by {
            if i < v.len() - 1 {
                assert(w[i] == v[i]);
                assert(w[i].tweet_id == k);
                assert(v.last().tweet_id != k);
            }
        }
    }
}

proof fn lemma_applied_keeps(m: Map<Seq<char>, TweetView>, v: Seq<TweetView>, i: int, now: u64)
    requires
        listing(m, Some(Status::Waiting), v),
        0 <= i < v.len(),
    ensures
        applied(m, v.take(i), now).contains_key(v[i].tweet_id),
        applied(m, v.take(i + 1), now) == if due(v[i], now) {
            applied(m, v.take(i), now).insert(v[i].tweet_id, expired(v[i]))
        } else {
            applied(m, v.take(i), now)
        },
{
    let w = v.take(i);
    assert forall|a: int, b: int| 0 <= a < b < w.len() implies #[trigger] w[a].tweet_id
        != #[trigger] w[b].tweet_id by {
        assert(v[a].tweet_id != v[b].tweet_id);
    }
    assert forall|j: int| 0 <= j < w.len() implies m.contains_key(#[trigger] w[j].tweet_id) by {
        assert(w[j] == v[j]);
    }
    lemma_applied_entries(m, w, now, v[i].tweet_id);
    assert forall|j: int| 0 <= j < w.len() implies #[trigger] w[j].tweet_id != v[i].tweet_id by {
        assert(v[j].tweet_id != v[i].tweet_id);
    }
    assert(m.contains_key(v[i].tweet_id));
    assert(v.take(i + 1).drop_last() =~= w);
    assert(v.take(i + 1).last() == v[i]);
}

proof fn lemma_applied_all(m: Map<Seq<char>, TweetView>, v: Seq<TweetView>, now: u64)
    requires
        listing(m, Some(Status::Waiting), v),
    ensures
        applied(m, v, now) == expired_map(m, now),
{
    assert forall|a: int, b: int| 0 <= a < b < v.len() implies #[trigger] v[a].tweet_id
        != #[trigger] v[b].tweet_id by {}
    let x = applied(m, v, now);
    let y = expired_map(m, now);
    assert forall|k: Seq<char>| #[trigger] x.contains_key(k) <==> y.contains_key(k) by {
        lemma_applied_entries(m, v, now, k);
    }
    assert forall|k: Seq<char>| #[trigger] x.contains_key(k) implies x[k] == y[k] by {
        lemma_applied_entries(m, v, now, k);
        if m.contains_key(k) && m[k].status == Status::Waiting {
            let i = choose|i: int| 0 <= i < v.len() && #[trigger] v[i].tweet_id == k;
            assert(m[k] == v[i]);
        } else if m.contains_key(k) {
            assert forall|i: int| 0 <= i < v.len() implies #[trigger] v[i].tweet_id != k by {
                assert(m[v[i].tweet_id] == v[i]);
            }
        }
    }
    assert(x =~= y);
}

} // verus!

verus! {

// ---------------------------------------------------------------------------
// What every operation keeps
// ---------------------------------------------------------------------------

/// `after` is what one operation of the service made of `before`: tracking a
/// tweet, recording a reply, expiring what is due, or closing by hand.
pub open spec fn service_step(
    before: Map<Seq<char>, TweetView>,
    after: Map<Seq<char>, TweetView>,
) -> bool {
    ||| exists|t: IncomingView, r: Option<TweetView>| #[trigger] ingest_ok(before, after, t, r)
    ||| exists|t: IncomingView, b: bool| #[trigger] reply_ok(before, after, t, b)
    ||| exists|now: u64, n: nat| #[trigger] expire_ok(before, after, now, n)
    ||| exists|id: Seq<char>, notes: Option<Seq<char>>, b: bool|
        #[trigger] close_ok(before, after, id, notes, b)
}

/// No operation removes a record, and a record that is no longer waiting
/// (answered, expired or closed) is final: no operation changes it.
pub proof fn lemma_settled_records_stay(
    before: Map<Seq<char>, TweetView>,
    after: Map<Seq<char>, TweetView>,
    k: Seq<char>,
)
    requires
        service_step(before, after),
        before.contains_key(k),
    ensures
        after.contains_key(k),
        before[k].status != Status::Waiting ==> after[k] == before[k],
{
    if exists|t: IncomingView, r: Option<TweetView>| #[trigger] ingest_ok(before, after, t, r) {
        let (t, r) = choose|t: IncomingView, r: Option<TweetView>| #[trigger]
            ingest_ok(before, after, t, r);
        if r is Some && !before.contains_key(t.tweet_id) {
            assert(k != t.tweet_id);
        }
    } else if exists|t: IncomingView, b: bool| #[trigger] reply_ok(before, after, t, b) {
        let (t, b) = choose|t: IncomingView, b: bool| #[trigger] reply_ok(before, after, t, b);
    } else if exists|now: u64, n: nat| #[trigger] expire_ok(before, after, now, n) {
        let (now, n) = choose|now: u64, n: nat| #[trigger] expire_ok(before, after, now, n);
    } else {
        let (id, notes, b) = choose|id: Seq<char>, notes: Option<Seq<char>>, b: bool| #[trigger]
            close_ok(before, after, id, notes, b);
        if b {
            let e = choose|e: u64|
                after == before.insert(id, #[trigger] closed(before[id], iso_of(e as nat), notes));
        }
    }
}

proof fn lemma_none_due(m: Map<Seq<char>, TweetView>, v: Seq<TweetView>, now: u64)
    requires
        forall|i: int| 0 <= i < v.len() ==> !due(#[trigger] v[i], now),
    ensures
        count_due(v, now) == 0,
    decreases v.len(),
{
    if v.len() > 0 {
        assert(!due(v[v.len() - 1], now));
        lemma_none_due(m, v.drop_last(), now);
    }
}

/// Expiring twice at the same moment changes nothing the second time, and
/// expires nothing.
pub proof fn lemma_expire_idempotent(
    before: Map<Seq<char>, TweetView>,
    mid: Map<Seq<char>, TweetView>,
    after: Map<Seq<char>, TweetView>,
    now: u64,
    n: nat,
    m: nat,
)
    requires
        expire_ok(before, mid, now, n),
        expire_ok(mid, after, now, m),
    ensures
        after == mid,
        m == 0,
{
    assert forall|k: Seq<char>| #[trigger] mid.contains_key(k) implies !due(mid[k], now) by {
        if due(before[k], now) {
            assert(mid[k] == expired(before[k]));
        }
    }
    assert(after =~= mid);
    let v = choose|v: Seq<TweetView>| #[trigger] listing(mid, Some(Status::Waiting), v) && m
        == count_due(v, now);
    assert forall|i: int| 0 <= i < v.len() implies !due(#[trigger] v[i], now) by {
        assert(mid.contains_key(v[i].tweet_id));
    }
    lemma_none_due(mid, v, now);
}

} // verus!

verus! {

// ---------------------------------------------------------------------------
// Dashboard counts
// ---------------------------------------------------------------------------

pub open spec fn ids_of(v: Seq<TweetView>) -> Seq<Seq<char>> {
    v.map_values(|t: TweetView| t.tweet_id)
}

/// Two listings of the same records with the same status are equally long.
proof fn lemma_listings_same_length(
    m: Map<Seq<char>, TweetView>,
    status: Option<Status>,
    v: Seq<TweetView>,
    w: Seq<TweetView>,
)
    requires
        listing(m, status, v),
        listing(m, status, w),
    ensures
        v.len() == w.len(),
{
    let a = ids_of(v);
    let b = ids_of(w);
    assert(a.no_duplicates()) by {
        assert forall|i: int, j: int| 0 <= i < a.len() && 0 <= j < a.len() && i != j implies a[i]
            != a[j] by {
            if i < j {
                assert(v[i].tweet_id != v[j].tweet_id);
            } else {
                assert(v[j].tweet_id != v[i].tweet_id);
            }
        }
    }
    assert(b.no_duplicates()) by {
        assert forall|i: int, j: int| 0 <= i < b.len() && 0 <= j < b.len() && i != j implies b[i]
            != b[j] by {
            if i < j {
                assert(w[i].tweet_id != w[j].tweet_id);
            } else {
                assert(w[j].tweet_id != w[i].tweet_id);
            }
        }
    }
    assert(a.to_set() =~= b.to_set()) by {
        assert forall|k: Seq<char>| a.to_set().contains(k) implies b.to_set().contains(k) by {
            let i = choose|i: int| 0 <= i < a.len() && a[i] == k;
            assert(v[i].tweet_id == k);
            assert(m.contains_key(k) && matches_status(m[k], status));
            let j = choose|j: int| 0 <= j < w.len() && #[trigger] w[j].tweet_id == k;
            assert(b[j] == k);
        }
        assert forall|k: Seq<char>| b.to_set().contains(k) implies a.to_set().contains(k) by {
            let j = choose|j: int| 0 <= j < b.len() && b[j] == k;
            assert(w[j].tweet_id == k);
            assert(m.contains_key(k) && matches_status(m[k], status));
            let i = choose|i: int| 0 <= i < v.len() && #[trigger] v[i].tweet_id == k;
            assert(a[i] == k);
        }
    }
    a.unique_seq_to_set();
    b.unique_seq_to_set();
}

proof fn lemma_counts_sum(v: Seq<TweetView>)
    ensures
        count_status(v, Status::Waiting) + count_status(v, Status::Answered) + count_status(
            v,
            Status::Expired,
        ) + count_status(v, Status::Closed) == v.len(),
    decreases v.len(),
{
    if v.len() > 0 {
        lemma_counts_sum(v.drop_last());
    }
}

/// The four counts of a dashboard add up to the number of records; with no
/// status asked for, that is the number of tweets it shows.
pub proof fn lemma_dashboard_counts(
    before: Map<Seq<char>, TweetView>,
    after: Map<Seq<char>, TweetView>,
    d: Dashboard,
)
    requires
        dashboard_ok(before, after, None, d),
    ensures
        d.waiting + d.answered + d.expired + d.closed == d.tweets.len(),
{
    let all = choose|all: Seq<TweetView>|
        {
            &&& #[trigger] listing(after, None, all)
            &&& d.waiting == count_status(all, Status::Waiting)
            &&& d.answered == count_status(all, Status::Answered)
            &&& d.expired == count_status(all, Status::Expired)
            &&& d.closed == count_status(all, Status::Closed)
        };
    lemma_counts_sum(all);
    lemma_listings_same_length(after, None, all, tweet_views(d.tweets@));
}

} // verus!

verus! {

// ---------------------------------------------------------------------------
// The clock
// ---------------------------------------------------------------------------

/// Expiring at the moment `now` turns exactly the waiting records whose expiry
/// time is at or before `now` into expired ones, and leaves every other record
/// as it was.
pub proof fn lemma_expire_at(
    before: Map<Seq<char>, TweetView>,
    after: Map<Seq<char>, TweetView>,
    now: u64,
    n: nat,
    k: Seq<char>,
)
    requires
        expire_ok(before, after, now, n),
        before.contains_key(k),
    ensures
        after.contains_key(k),
        after[k] == (if before[k].status == Status::Waiting && epoch_of(
            encode_utf8(before[k].expire_at),
        ) <= now {
            TweetView { status: Status::Expired, ..before[k] }
        } else {
            before[k]
        }),
{
}

/// A record tracked from a tweet dated `c` waits its days from `c`: expiring at
/// the moment `now` expires it exactly when `now` is `days` days after `c` or
/// later (for dates before year 10000).
pub proof fn lemma_waits_its_days(
    before: Map<Seq<char>, TweetView>,
    after: Map<Seq<char>, TweetView>,
    now: u64,
    n: nat,
    k: Seq<char>,
    c: nat,
    days: nat,
)
    requires
        expire_ok(before, after, now, n),
        before.contains_key(k),
        before[k].status == Status::Waiting,
        before[k].created_at == iso_of(c),
        before[k].expire_at == iso_plus_days(encode_utf8(before[k].created_at), days),
        c + days * 86400 < crate::date::year_10000(),
    ensures
        after[k].status == (if c + days * 86400 <= now {
            Status::Expired
        } else {
            Status::Waiting
        }),
{
    crate::date::lemma_iso_round_trip(c);
    crate::date::lemma_add_days(encode_utf8(iso_of(c)), days);
}

/// A tagged tweet dated by the clock reading `now` and tracked as a new record
/// starts waiting with that date, and is due `days` days after `now`, `days`
/// being what its tag asks for (for dates before year 10000).
pub proof fn lemma_tracked_from_reading(
    before: Map<Seq<char>, TweetView>,
    after: Map<Seq<char>, TweetView>,
    t: IncomingView,
    rec: TweetView,
    now: u64,
)
    requires
        ingest_ok(before, after, t, Some(rec)),
        !before.contains_key(t.tweet_id),
        t.created_at == iso_of(now as nat),
        now + 365 * 86400 < crate::date::year_10000(),
    ensures
        followup_of(t.text) matches Some((_, days, _)) && epoch_of(encode_utf8(rec.expire_at)) == now
            + days * 86400,
        rec.created_at == iso_of(now as nat),
        rec.status == Status::Waiting,
        after[t.tweet_id] == rec,
{
    crate::parser::lemma_followup_form(t.text);
    let f = followup_of(t.text).unwrap();
    let id = choose|id: u64| rec == #[trigger] tracked_from(t, id, f.0, f.1, f.2);
    crate::date::lemma_iso_round_trip(now as nat);
    crate::date::lemma_add_days(encode_utf8(iso_of(now as nat)), f.1 as nat);
}

/// The days a draft counts are the whole days from the record's date to the
/// moment `now`: `days_waited` full days fit in between, one more does not; none
/// when `now` is before the record's date.
pub proof fn lemma_days_waited(t: TweetView, now: u64)
    ensures
        ({
            let created = epoch_of(encode_utf8(t.created_at));
            let d = draft_for(t, now).days_waited;
            &&& now >= created ==> created + d * 86400 <= now < created + (d + 1) * 86400
            &&& now < created ==> d == 0
        }),
{
    let created = epoch_of(encode_utf8(t.created_at));
    let d = draft_for(t, now).days_waited;
    if now >= created {
        let w = now - created;
        assert(d == w / 86400);
        assert(d * 86400 <= w < (d + 1) * 86400) by (nonlinear_arith)
            requires
                d == w / 86400,
                w >= 0,
        ;
    }
}

} // verus!
