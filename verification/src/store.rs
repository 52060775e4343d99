//! Where tracked tweets are kept: the store interface, an in-memory store, and
//! the JSON codec that stores tweets as documents.
use vstd::prelude::*;
use crate::json::{
    codec_char, codec_text, lemma_decimal_reads, lemma_null_reads, lemma_object_reads,
    lemma_quoted_reads, option_json, parse_obj, parse_object, pair_views, quoted, tweet,
    tweet_fields, tweet_json, value_reads,
};
use crate::model::{Status, TrackedTweet, TweetView, opt_view, status_name, status_named, tweet_views};
use crate::text::{
    bytes_of, decimal, lemma_decimal_digits, lemma_parse_padded, padded, parse_int, parse_unsigned,
    same_text, upper_all,
};

verus! {

// ---------------------------------------------------------------------------
// The store interface
// ---------------------------------------------------------------------------

/// Every record is filed under its own tweet id.
pub open spec fn keyed(records: Map<Seq<char>, TweetView>) -> bool {
    forall|k: Seq<char>| #[trigger] records.contains_key(k) ==> records[k].tweet_id == k
}

pub open spec fn matches_status(t: TweetView, status: Option<Status>) -> bool {
    match status {
        Some(s) => t.status == s,
        None => true,
    }
}

/// `v` lists each record whose status matches exactly once, and nothing else.
pub open spec fn listing(
    records: Map<Seq<char>, TweetView>,
    status: Option<Status>,
    v: Seq<TweetView>,
) -> bool {
    &&& forall|i: int|
        0 <= i < v.len() ==> {
            &&& records.contains_key(#[trigger] v[i].tweet_id)
            &&& records[v[i].tweet_id] == v[i]
            &&& matches_status(v[i], status)
        }
    &&& forall|i: int, j: int|
        0 <= i < j < v.len() ==> #[trigger] v[i].tweet_id != #[trigger] v[j].tweet_id
    &&& forall|k: Seq<char>|
        #[trigger] records.contains_key(k) && matches_status(records[k], status) ==> exists|i: int|
            0 <= i < v.len() && #[trigger] v[i].tweet_id == k
}

/// A store of tracked tweets, filed by tweet id. The errors are the store's own.
pub trait TweetStore {
    /// The stored records, by tweet id. A store that does not define them (one
    /// written outside this library, whose methods nothing here checks) leaves
    /// them unspecified.
    closed spec fn records(&self) -> Map<Seq<char>, TweetView> {
        arbitrary()
    }

    /// Whether the store answers every read and write without an error (it may
    /// still run out of ids). A store that does not say (one written outside this
    /// library) is taken to be able to fail.
    closed spec fn dependable(&self) -> bool {
        false
    }

    /// The id that `next_id` hands out next.
    closed spec fn upcoming_id(&self) -> u64 {
        arbitrary()
    }

    /// Whether `next_id` can still hand out an id. A store that does not say is
    /// taken to have run out.
    closed spec fn ids_left(&self) -> bool {
        false
    }

    /// The records with the given status (all for `None`), in the order that
    /// `list_tracked` gives them.
    closed spec fn listed(&self, status: Option<Status>) -> Seq<TweetView> {
        arbitrary()
    }

    /// A fresh numeric id, the upcoming one; the records stay as they are.
    fn next_id(&mut self) -> (r: Result<u64, String>)
        ensures
            final(self).records() == old(self).records(),
            final(self).dependable() == old(self).dependable(),
            r matches Ok(id) ==> id == old(self).upcoming_id() && final(self).ids_left() == (id
                < u64::MAX) && (id < u64::MAX ==> final(self).upcoming_id() == id + 1),
            r is Err ==> final(self).upcoming_id() == old(self).upcoming_id()
                && final(self).ids_left() == old(self).ids_left(),
            old(self).dependable() && old(self).ids_left() ==> r is Ok,
    ;

    /// Files `tweet` unless a record with its tweet id exists, and returns the
    /// record that is filed under that id.
    fn add_tracked(&mut self, tweet: TrackedTweet) -> (r: Result<TrackedTweet, String>)
        ensures
            r matches Ok(t) ==> if old(self).records().contains_key(tweet.tweet_id@) {
                &&& t@ == old(self).records()[tweet.tweet_id@]
                &&& final(self).records() == old(self).records()
            } else {
                &&& t@ == tweet@
                &&& final(self).records() == old(self).records().insert(tweet.tweet_id@, tweet@)
            },
            old(self).dependable() ==> r is Ok,
            final(self).dependable() == old(self).dependable(),
            final(self).upcoming_id() == old(self).upcoming_id(),
            final(self).ids_left() == old(self).ids_left(),
    ;

    /// Replaces the record filed under the tweet's id.
    fn save_tracked(&mut self, tweet: TrackedTweet) -> (r: Result<(), String>)
        ensures
            r is Ok && old(self).records().contains_key(tweet.tweet_id@) ==> final(self).records()
                == old(self).records().insert(tweet.tweet_id@, tweet@),
            old(self).dependable() ==> r is Ok,
            final(self).dependable() == old(self).dependable(),
            final(self).upcoming_id() == old(self).upcoming_id(),
            final(self).ids_left() == old(self).ids_left(),
    ;

    /// The record filed under `tweet_id`, if any.
    fn get_by_tweet_id(&self, tweet_id: &str) -> (r: Result<Option<TrackedTweet>, String>)
        ensures
            r matches Ok(o) ==> match o {
                Some(t) => self.records().contains_key(tweet_id@) && t@ == self.records()[tweet_id@]
                    && t.tweet_id@ == tweet_id@,
                None => !self.records().contains_key(tweet_id@),
            },
            self.dependable() ==> r is Ok,
    ;

    /// Every record with the given status (every record for `None`), each once.
    fn list_tracked(&self, status: Option<Status>) -> (r: Result<Vec<TrackedTweet>, String>)
        ensures
            r matches Ok(v) ==> listing(self.records(), status, tweet_views(v@)) && tweet_views(v@)
                == self.listed(status),
            self.dependable() ==> r is Ok,
    ;
}

// ---------------------------------------------------------------------------
// In-memory store
// ---------------------------------------------------------------------------

/// The records of `s` with the given status (all for `None`), in order.
pub open spec fn with_status(s: Seq<TweetView>, status: Option<Status>) -> Seq<TweetView>
    decreases s.len(),
{
    if s.len() == 0 {
        seq![]
    } else if matches_status(s.last(), status) {
        with_status(s.drop_last(), status).push(s.last())
    } else {
        with_status(s.drop_last(), status)
    }
}

/// The records of a sequence of tweets, later ones filed over earlier ones.
pub open spec fn recs(s: Seq<TweetView>) -> Map<Seq<char>, TweetView>
    decreases s.len(),
{
    if s.len() == 0 {
        Map::empty()
    } else {
        recs(s.drop_last()).insert(s.last().tweet_id, s.last())
    }
}

pub open spec fn distinct_ids(s: Seq<TweetView>) -> bool {
    forall|i: int, j: int| 0 <= i < j < s.len() ==> #[trigger] s[i].tweet_id != #[trigger] s[j].tweet_id
}

proof fn lemma_recs_keyed(s: Seq<TweetView>)
    ensures
        keyed(recs(s)),
    decreases s.len(),
{
    if s.len() > 0 {
        lemma_recs_keyed(s.drop_last());
    }
}

proof fn lemma_recs_dom(s: Seq<TweetView>, k: Seq<char>)
    ensures
        recs(s).contains_key(k) <==> exists|i: int| 0 <= i < s.len() && #[trigger] s[i].tweet_id == k,
    decreases s.len(),
{
    if s.len() > 0 {
        lemma_recs_dom(s.drop_last(), k);
        if recs(s).contains_key(k) && s.last().tweet_id != k {
            let i = choose|i: int| 0 <= i < s.drop_last().len() && #[trigger] s.drop_last()[i].tweet_id == k;
            assert(s[i].tweet_id == k);
        }
        if exists|i: int| 0 <= i < s.len() && #[trigger] s[i].tweet_id == k {
            let i = choose|i: int| 0 <= i < s.len() && #[trigger] s[i].tweet_id == k;
            if i < s.len() - 1 {
                assert(s.drop_last()[i].tweet_id == k);
            }
        }
    }
}

proof fn lemma_recs_index(s: Seq<TweetView>, i: int)
    requires
        distinct_ids(s),
        0 <= i < s.len(),
    ensures
        recs(s).contains_key(s[i].tweet_id),
        recs(s)[s[i].tweet_id] == s[i],
    decreases s.len(),
{
    if i < s.len() - 1 {
        assert(distinct_ids(s.drop_last()));
        lemma_recs_index(s.drop_last(), i);
        assert(s.drop_last()[i] == s[i]);
    }
}

proof fn lemma_recs_update(s: Seq<TweetView>, i: int, t: TweetView)
    requires
        distinct_ids(s),
        0 <= i < s.len(),
        s[i].tweet_id == t.tweet_id,
    ensures
        recs(s.update(i, t)) == recs(s).insert(t.tweet_id, t),
        distinct_ids(s.update(i, t)),
    decreases s.len(),
{
    let u = s.update(i, t);
    if i == s.len() - 1 {
        assert(u.drop_last() =~= s.drop_last());
        assert(recs(u) =~= recs(s).insert(t.tweet_id, t));
    } else {
        assert(distinct_ids(s.drop_last()));
        lemma_recs_update(s.drop_last(), i, t);
        assert(u.drop_last() =~= s.drop_last().update(i, t));
        assert(s.last().tweet_id != t.tweet_id);
        assert(recs(u) =~= recs(s).insert(t.tweet_id, t));
    }
    assert forall|a: int, b: int| 0 <= a < b < u.len() implies #[trigger] u[a].tweet_id
        != #[trigger] u[b].tweet_id by {
        assert(s[a].tweet_id != s[b].tweet_id);
    }
}

/// A store that keeps its records in memory, in the order they were added.
pub struct MemoryStore {
    next: u64,
    tweets: Vec<TrackedTweet>,
}

impl MemoryStore {
    #[verifier::type_invariant]
    spec fn ids_distinct(self) -> bool {
        distinct_ids(tweet_views(self.tweets@))
    }

    /// The last id handed out (0 before the first).
    pub closed spec fn last_id(&self) -> u64 {
        self.next
    }

    /// The records in the order they were added.
    pub closed spec fn in_added_order(&self) -> Seq<TweetView> {
        tweet_views(self.tweets@)
    }

    /// An empty store whose first id is 1.
    pub fn new() -> (r: MemoryStore)
        ensures
            r.records() == Map::<Seq<char>, TweetView>::empty(),
            r.last_id() == 0,
            r.ids_left(),
            r.upcoming_id() == 1,
    {
        let r = MemoryStore { next: 0, tweets: Vec::new() };
        assert(tweet_views(r.tweets@) =~= Seq::<TweetView>::empty());
        r
    }

    /// Index of the record with the given tweet id.
    fn position(&self, tweet_id: &str) -> (r: Option<usize>)
        ensures
            match r {
                Some(i) => i < self.tweets.len() && self.tweets@[i as int].tweet_id@ == tweet_id@,
                None => forall|i: int|
                    0 <= i < self.tweets.len() ==> #[trigger] self.tweets@[i].tweet_id@ != tweet_id@,
            },
    {
        let mut i: usize = 0;
        while i < self.tweets.len()
            invariant
                0 <= i <= self.tweets.len(),
                forall|k: int| 0 <= k < i ==> #[trigger] self.tweets@[k].tweet_id@ != tweet_id@,
            decreases self.tweets.len() - i,
        {
            if same_text(self.tweets[i].tweet_id.as_str(), tweet_id) {
                return Some(i);
            }
            i = i + 1;
        }
        None
    }
}

impl MemoryStore {
    /// Every record is filed under its own tweet id.
    pub proof fn lemma_filed_by_id(&self)
        ensures
            keyed(self.records()),
    {
        lemma_recs_keyed(tweet_views(self.tweets@));
    }
}

impl TweetStore for MemoryStore {
    closed spec fn records(&self) -> Map<Seq<char>, TweetView> {
        recs(tweet_views(self.tweets@))
    }

    /// Memory never fails.
    open spec fn dependable(&self) -> bool {
        true
    }

    closed spec fn upcoming_id(&self) -> u64 {
        (self.next + 1) as u64
    }

    closed spec fn ids_left(&self) -> bool {
        self.next < u64::MAX
    }

    closed spec fn listed(&self, status: Option<Status>) -> Seq<TweetView> {
        with_status(tweet_views(self.tweets@), status)
    }

    /// Ids count up from 1; once `u64::MAX` has been handed out there are no more.
    fn next_id(&mut self) -> (r: Result<u64, String>)
        ensures
            old(self).last_id() < u64::MAX ==> r == Ok::<u64, String>(
                (old(self).last_id() + 1) as u64,
            ) && final(self).last_id() == old(self).last_id() + 1,
            old(self).last_id() == u64::MAX ==> (r matches Err(e) && e@ == "id space exhausted"@)
                && final(self).last_id() == u64::MAX,
    {
        proof {
            use_type_invariant(&*self);
        }
        if self.next == u64::MAX {
            return Err("id space exhausted".to_owned());
        }
        self.next = self.next + 1;
        Ok(self.next)
    }

    fn add_tracked(&mut self, tweet: TrackedTweet) -> (r: Result<TrackedTweet, String>) {
        proof {
            use_type_invariant(&*self);
        }
        let ghost s = tweet_views(self.tweets@);
        match self.position(tweet.tweet_id.as_str()) {
            Some(i) => {
                proof {
                    assert(s[i as int] == self.tweets@[i as int]@);
                    lemma_recs_index(s, i as int);
                }
                Ok(self.tweets[i].copied())
            },
            None => {
                proof {
                    assert forall|i: int| 0 <= i < s.len() implies #[trigger] s[i].tweet_id
                        != tweet.tweet_id@ by {
                        assert(s[i] == self.tweets@[i]@);
                    }
                    lemma_recs_dom(s, tweet.tweet_id@);
                }
                let copy = tweet.copied();
                let mut all: Vec<TrackedTweet> = Vec::new();
                std::mem::swap(&mut all, &mut self.tweets);
                assert(all@ == old(self).tweets@);
                all.push(tweet);
                proof {
                    let u = tweet_views(all@);
                    assert(u =~= s.push(tweet@));
                    assert(u.drop_last() =~= s);
                    assert forall|a: int, b: int| 0 <= a < b < u.len() implies #[trigger] u[a].tweet_id
                        != #[trigger] u[b].tweet_id by {
                        if b < s.len() {
                            assert(s[a].tweet_id != s[b].tweet_id);
                        }
                    }
                }
                self.tweets = all;
                Ok(copy)
            },
        }
    }

    fn save_tracked(&mut self, tweet: TrackedTweet) -> (r: Result<(), String>) {
        proof {
            use_type_invariant(&*self);
        }
        let ghost s = tweet_views(self.tweets@);
        match self.position(tweet.tweet_id.as_str()) {
            Some(i) => {
                proof {
                    assert(s[i as int] == self.tweets@[i as int]@);
                    lemma_recs_update(s, i as int, tweet@);
                }
                let ghost t = tweet@;
                let mut all: Vec<TrackedTweet> = Vec::new();
                std::mem::swap(&mut all, &mut self.tweets);
                all.set(i, tweet);
                assert(tweet_views(all@) =~= s.update(i as int, t));
                self.tweets = all;
            },
            None => {
                proof {
                    assert forall|i: int| 0 <= i < s.len() implies #[trigger] s[i].tweet_id
                        != tweet.tweet_id@ by {
                        assert(s[i] == self.tweets@[i]@);
                    }
                    lemma_recs_dom(s, tweet.tweet_id@);
                }
            },
        }
        Ok(())
    }

    fn get_by_tweet_id(&self, tweet_id: &str) -> (r: Result<Option<TrackedTweet>, String>) {
        proof {
            use_type_invariant(self);
        }
        let ghost s = tweet_views(self.tweets@);
        match self.position(tweet_id) {
            Some(i) => {
                proof {
                    assert(s[i as int] == self.tweets@[i as int]@);
                    lemma_recs_index(s, i as int);
                }
                Ok(Some(self.tweets[i].copied()))
            },
            None => {
                proof {
                    assert forall|i: int| 0 <= i < s.len() implies #[trigger] s[i].tweet_id
                        != tweet_id@ by {
                        assert(s[i] == self.tweets@[i]@);
                    }
                    lemma_recs_dom(s, tweet_id@);
                }
                Ok(None)
            },
        }
    }

    /// The records with the status, in the order they were added.
    fn list_tracked(&self, status: Option<Status>) -> (r: Result<Vec<TrackedTweet>, String>)
        ensures
            r matches Ok(v) && tweet_views(v@) == with_status(self.in_added_order(), status),
    {
        proof {
            use_type_invariant(self);
        }
        let ghost s = tweet_views(self.tweets@);
        let mut out: Vec<TrackedTweet> = Vec::new();
        let ghost mut idx: Seq<int> = Seq::empty();
        let mut i: usize = 0;
        while i < self.tweets.len()
            invariant
                0 <= i <= self.tweets.len(),
                s == tweet_views(self.tweets@),
                distinct_ids(s),
                idx.len() == out.len(),
                forall|j: int| 0 <= j < idx.len() ==> 0 <= #[trigger] idx[j] < i,
                forall|a: int, b: int| 0 <= a < b < idx.len() ==> #[trigger] idx[a] < #[trigger] idx[b],
                forall|j: int|
                    0 <= j < out.len() ==> #[trigger] out@[j]@ == s[idx[j]] && matches_status(
                        s[idx[j]],
                        status,
                    ),
                forall|k: int|
                    0 <= k < i && matches_status(#[trigger] s[k], status) ==> exists|j: int|
                        0 <= j < idx.len() && idx[j] == k,
                tweet_views(out@) == with_status(s.take(i as int), status),
            decreases self.tweets.len() - i,
        {
            assert(s[i as int] == self.tweets@[i as int]@);
            assert(s.take(i + 1).drop_last() =~= s.take(i as int));
            assert(s.take(i + 1).last() == s[i as int]);
            let ghost before_out = tweet_views(out@);
            let keep: bool = match status {
                Some(wanted) => self.tweets[i].status == wanted,
                None => true,
            };
            let ghost old_idx = idx;
            if keep {
                out.push(self.tweets[i].copied());
                proof {
                    idx = idx.push(i as int);
                    assert(idx[idx.len() - 1] == i);
                    assert(tweet_views(out@) =~= before_out.push(s[i as int]));
                }
            }
            proof {
                assert forall|k: int|
                    0 <= k < i + 1 && matches_status(#[trigger] s[k], status) implies exists|j: int|
                    0 <= j < idx.len() && idx[j] == k by {
                    if k == i {
                        assert(idx[idx.len() - 1] == k);
                    } else {
                        let j = choose|j: int| 0 <= j < old_idx.len() && old_idx[j] == k;
                        assert(idx[j] == k);
                    }
                }
            }
            i = i + 1;
        }
        proof {
            assert(s.take(s.len() as int) =~= s);
            let v = tweet_views(out@);
            let m = recs(s);
            assert forall|j: int| 0 <= j < v.len() implies {
                &&& m.contains_key(#[trigger] v[j].tweet_id)
                &&& m[v[j].tweet_id] == v[j]
                &&& matches_status(v[j], status)
            } by {
                assert(v[j] == out@[j]@);
                lemma_recs_index(s, idx[j]);
            }
            assert forall|a: int, b: int| 0 <= a < b < v.len() implies #[trigger] v[a].tweet_id
                != #[trigger] v[b].tweet_id by {
                assert(v[a] == out@[a]@);
                assert(v[b] == out@[b]@);
                assert(idx[a] < idx[b]);
                assert(s[idx[a]].tweet_id != s[idx[b]].tweet_id);
            }
            assert forall|k: Seq<char>|
                #[trigger] m.contains_key(k) && matches_status(m[k], status) implies exists|j: int|
                0 <= j < v.len() && #[trigger] v[j].tweet_id == k by {
                lemma_recs_dom(s, k);
                let x = choose|x: int| 0 <= x < s.len() && #[trigger] s[x].tweet_id == k;
                lemma_recs_index(s, x);
                let j = choose|j: int| 0 <= j < idx.len() && idx[j] == x;
                assert(v[j] == out@[j]@);
                assert(v[j].tweet_id == k);
            }
        }
        Ok(out)
    }
}

} // verus!

verus! {

// ---------------------------------------------------------------------------
// Tweets as JSON documents
// ---------------------------------------------------------------------------

/// The value of the first pair named `name`, or the empty string.
pub open spec fn lookup(pairs: Seq<(Seq<char>, Seq<char>)>, name: Seq<char>) -> Seq<char>
    decreases pairs.len(),
{
    if pairs.len() == 0 {
        seq![]
    } else if pairs[0].0 == name {
        pairs[0].1
    } else {
        lookup(pairs.drop_first(), name)
    }
}

pub open spec fn non_empty(s: Seq<char>) -> Option<Seq<char>> {
    if s.len() == 0 {
        None
    } else {
        Some(s)
    }
}

/// The tweet a stored document describes: missing text fields are empty, an id
/// that does not parse is 0, an unknown status is `Waiting`, and empty optional
/// fields are absent.
pub open spec fn tweet_from_pairs(p: Seq<(Seq<char>, Seq<char>)>) -> TweetView {
    TweetView {
        id: match parse_int(vstd::utf8::encode_utf8(lookup(p, "id"@)), 0, u64::MAX as int) {
            Some(v) => v as u64,
            None => 0,
        },
        tweet_id: lookup(p, "tweet_id"@),
        author: lookup(p, "author"@),
        target: lookup(p, "target"@),
        tag: lookup(p, "tag"@),
        status: match status_named(lookup(p, "status"@)) {
            Some(s) => s,
            None => Status::Waiting,
        },
        text: lookup(p, "text"@),
        created_at: lookup(p, "created_at"@),
        expire_at: lookup(p, "expire_at"@),
        answered_at: non_empty(lookup(p, "answered_at"@)),
        answer_tweet_id: non_empty(lookup(p, "answer_tweet_id"@)),
        notes: non_empty(lookup(p, "notes"@)),
    }
}

/// `decode_tweet` on the text of a stored document.
pub open spec fn decoded(raw: Seq<char>) -> Result<TweetView, Seq<char>> {
    match parse_obj(raw) {
        Ok(p) => Ok(tweet_from_pairs(p)),
        Err(e) => Err(e),
    }
}

/// `encode_tweet`: the document a tweet is stored as.
pub fn encode_tweet(t: &TrackedTweet) -> (r: String)
    ensures
        r@ == tweet_json(t@),
{
    tweet(t)
}

/// The value of the first pair named `name`, or the empty string.
pub(crate) fn get(pairs: &Vec<(String, String)>, name: &str) -> (r: String)
    ensures
        r@ == lookup(pair_views(pairs@), name@),
{
    let ghost p = pair_views(pairs@);
    let mut i: usize = 0;
    assert(p.skip(0) =~= p);
    while i < pairs.len()
        invariant
            0 <= i <= pairs.len(),
            p == pair_views(pairs@),
            lookup(p, name@) == lookup(p.skip(i as int), name@),
        decreases pairs.len() - i,
    {
        let ghost rest = p.skip(i as int);
        assert(rest[0] == (pairs@[i as int].0@, pairs@[i as int].1@));
        assert(rest.drop_first() =~= p.skip(i + 1));
        if same_text(pairs[i].0.as_str(), name) {
            return pairs[i].1.clone();
        }
        i = i + 1;
    }
    String::new()
}

/// `none_if_empty`.
pub fn none_if_empty(value: String) -> (r: Option<String>)
    ensures
        opt_view(r) == non_empty(value@),
{
    if value.as_str().is_empty() {
        None
    } else {
        Some(value)
    }
}

/// `decode_tweet`: the tweet a stored document describes.
pub fn decode_tweet(raw: &str) -> (r: Result<TrackedTweet, String>)
    ensures
        match r {
            Ok(t) => decoded(raw@) == Ok::<_, Seq<char>>(t@),
            Err(e) => decoded(raw@) == Err::<TweetView, Seq<char>>(e@),
        },
{
    let pairs = match parse_object(raw) {
        Ok(p) => p,
        Err(e) => {
            return Err(e);
        },
    };
    let id_text = get(&pairs, "id");
    let id_bytes: &[u8] = id_text.as_str().as_bytes();
    let id: u64 = match parse_unsigned(id_bytes, 0, id_bytes.len(), u64::MAX) {
        Some(v) => v,
        None => 0,
    };
    assert(id_bytes@.subrange(0, id_bytes@.len() as int) =~= id_bytes@);
    let status: Status = match Status::parse(get(&pairs, "status").as_str()) {
        Some(s) => s,
        None => Status::Waiting,
    };
    let t = TrackedTweet {
        id,
        tweet_id: get(&pairs, "tweet_id"),
        author: get(&pairs, "author"),
        target: get(&pairs, "target"),
        tag: get(&pairs, "tag"),
        status,
        text: get(&pairs, "text"),
        created_at: get(&pairs, "created_at"),
        expire_at: get(&pairs, "expire_at"),
        answered_at: none_if_empty(get(&pairs, "answered_at")),
        answer_tweet_id: none_if_empty(get(&pairs, "answer_tweet_id")),
        notes: none_if_empty(get(&pairs, "notes")),
    };
    assert(t@ == tweet_from_pairs(pair_views(pairs@)));
    Ok(t)
}

} // verus!

verus! {

// ---------------------------------------------------------------------------
// The codec gives back what it stored
// ---------------------------------------------------------------------------

/// Every character can be written and read back (checked one by one).
pub open spec fn all_codec(s: Seq<char>) -> bool
    decreases s.len(),
{
    s.len() == 0 || (codec_char(s[0]) && all_codec(s.drop_first()))
}

/// No character is a lower-case ASCII letter (checked one by one).
pub open spec fn no_lower(s: Seq<char>) -> bool
    decreases s.len(),
{
    s.len() == 0 || (!('a' <= s[0] <= 'z') && no_lower(s.drop_first()))
}

proof fn lemma_all_codec(s: Seq<char>)
    requires
        all_codec(s),
    ensures
        codec_text(s),
    decreases s.len(),
{
    if s.len() > 0 {
        lemma_all_codec(s.drop_first());
        assert forall|i: int| 0 <= i < s.len() implies codec_char(#[trigger] s[i]) by {
            if i > 0 {
                assert(s[i] == s.drop_first()[i - 1]);
            }
        }
    }
}

proof fn lemma_no_lower(s: Seq<char>)
    requires
        no_lower(s),
    ensures
        upper_all(s) == s,
    decreases s.len(),
{
    if s.len() > 0 {
        lemma_no_lower(s.drop_first());
        assert forall|i: int| 0 <= i < s.len() implies #[trigger] upper_all(s)[i] == s[i] by {
            if i > 0 {
                assert(s[i] == s.drop_first()[i - 1]);
                assert(upper_all(s.drop_first())[i - 1] == s.drop_first()[i - 1]);
            }
        }
        assert(upper_all(s) =~= s);
    }
}

pub open spec fn opt_codec(o: Option<Seq<char>>) -> bool {
    match o {
        Some(s) => s.len() > 0 && codec_text(s),
        None => true,
    }
}

/// The tweets the codec stores faithfully: every text field holds only
/// printable ASCII or `\n \r \t \x08 \x0c`, and optional fields are absent or
/// non-empty.
pub open spec fn codec_safe(t: TweetView) -> bool {
    &&& codec_text(t.tweet_id)
    &&& codec_text(t.author)
    &&& codec_text(t.target)
    &&& codec_text(t.tag)
    &&& codec_text(t.text)
    &&& codec_text(t.created_at)
    &&& codec_text(t.expire_at)
    &&& opt_codec(t.answered_at)
    &&& opt_codec(t.answer_tweet_id)
    &&& opt_codec(t.notes)
}

pub open spec fn opt_text(o: Option<Seq<char>>) -> Seq<char> {
    match o {
        Some(s) => s,
        None => seq![],
    }
}

/// The pairs the document of `t` reads as.
pub open spec fn tweet_pairs(t: TweetView) -> Seq<(Seq<char>, Seq<char>)> {
    seq![
        ("id"@, decimal(t.id as nat)),
        ("tweet_id"@, t.tweet_id),
        ("author"@, t.author),
        ("target"@, t.target),
        ("tag"@, t.tag),
        ("status"@, status_name(t.status)),
        ("text"@, t.text),
        ("created_at"@, t.created_at),
        ("expire_at"@, t.expire_at),
        ("answered_at"@, opt_text(t.answered_at)),
        ("answer_tweet_id"@, opt_text(t.answer_tweet_id)),
        ("notes"@, opt_text(t.notes)),
    ]
}

proof fn lemma_lookup_at(ps: Seq<(Seq<char>, Seq<char>)>, k: int)
    requires
        0 <= k < ps.len(),
        forall|j: int| 0 <= j < k ==> (#[trigger] ps[j]).0 != ps[k].0,
    ensures
        lookup(ps, ps[k].0) == ps[k].1,
    decreases k,
{
    if k > 0 {
        assert(ps[0].0 != ps[k].0);
        let rest = ps.drop_first();
        assert forall|j: int| 0 <= j < k - 1 implies (#[trigger] rest[j]).0 != rest[k - 1].0 by {
            assert(rest[j] == ps[j + 1]);
            assert(ps[j + 1].0 != ps[k].0);
        }
        lemma_lookup_at(rest, k - 1);
    }
}

proof fn lemma_opt_reads(o: Option<Seq<char>>)
    requires
        opt_codec(o),
    ensures
        value_reads(option_json(o), opt_text(o)),
{
    match o {
        Some(s) => lemma_quoted_reads(s),
        None => lemma_null_reads(),
    }
}

proof fn lemma_status_reads(s: Status)
    ensures
        value_reads(quoted(status_name(s)), status_name(s)),
        status_named(status_name(s)) == Some(s),
{
    reveal_strlit("WAITING");
    reveal_strlit("ANSWERED");
    reveal_strlit("EXPIRED");
    reveal_strlit("CLOSED");
    let n = status_name(s);
    assert(all_codec(n)) by {
        reveal_with_fuel(all_codec, 10);
    }
    assert(no_lower(n)) by {
        reveal_with_fuel(no_lower, 10);
    }
    lemma_all_codec(n);
    lemma_no_lower(n);
    lemma_quoted_reads(n);
    assert("WAITING"@[0] != "ANSWERED"@[0]);
    assert("WAITING"@[0] != "EXPIRED"@[0]);
    assert("ANSWERED"@[0] != "EXPIRED"@[0]);
}

/// Reading the name of a status gives the status back.
pub proof fn lemma_status_round_trip(s: Status)
    ensures
        status_named(status_name(s)) == Some(s),
{
    lemma_status_reads(s);
}

pub(crate) proof fn lemma_id_reads(n: u64)
    ensures
        parse_int(vstd::utf8::encode_utf8(decimal(n as nat)), 0, u64::MAX as int) == Some(n as int),
{
    let d = decimal(n as nat);
    lemma_decimal_digits(n as nat);
    lemma_parse_padded(n as nat, d.len(), 0, u64::MAX as int);
    assert(padded(n as nat, d.len()) == d);
    assert(vstd::utf8::is_ascii_chars(d)) by {
        assert forall|i: int| 0 <= i < d.len() implies '\0' <= #[trigger] d[i] <= '\u{7f}' by {
            assert(crate::text::is_digit_char(d[i]));
        }
    }
    vstd::utf8::is_ascii_chars_encode_utf8(d);
    assert(vstd::utf8::encode_utf8(d) =~= bytes_of(d));
}

/// A stored tweet reads back as the same tweet when its text fields hold only
/// characters the codec writes faithfully (printable ASCII and `\n \r \t \x08
/// \x0c`) and its optional fields are absent or non-empty.
#[verifier::rlimit(80)]
pub proof fn lemma_codec_round_trip(t: TweetView)
    requires
        codec_safe(t),
    ensures
        decoded(tweet_json(t)) == Ok::<_, Seq<char>>(t),
{
    reveal_strlit("id");
    reveal_strlit("tweet_id");
    reveal_strlit("author");
    reveal_strlit("target");
    reveal_strlit("tag");
    reveal_strlit("status");
    reveal_strlit("text");
    reveal_strlit("created_at");
    reveal_strlit("expire_at");
    reveal_strlit("answered_at");
    reveal_strlit("answer_tweet_id");
    reveal_strlit("notes");
    let fs = tweet_fields(t);
    let ps = tweet_pairs(t);
    assert forall|i: int| 0 <= i < fs.len() implies codec_text((#[trigger] fs[i]).0) by {
        assert(all_codec(fs[i].0)) by {
            reveal_with_fuel(all_codec, 16);
        }
        lemma_all_codec(fs[i].0);
    }
    lemma_decimal_reads(t.id as nat);
    lemma_quoted_reads(t.tweet_id);
    lemma_quoted_reads(t.author);
    lemma_quoted_reads(t.target);
    lemma_quoted_reads(t.tag);
    lemma_status_reads(t.status);
    lemma_quoted_reads(t.text);
    lemma_quoted_reads(t.created_at);
    lemma_quoted_reads(t.expire_at);
    lemma_opt_reads(t.answered_at);
    lemma_opt_reads(t.answer_tweet_id);
    lemma_opt_reads(t.notes);
    assert forall|i: int|
        0 <= i < fs.len() implies codec_text((#[trigger] fs[i]).0) && ps[i].0 == fs[i].0
        && value_reads(fs[i].1, ps[i].1) by {}
    lemma_object_reads(fs, ps);
    assert("author"@[0] != "target"@[0]);
    assert("author"@[0] != "status"@[0]);
    assert("target"@[0] != "status"@[0]);
    assert forall|k: int, j: int| 0 <= j < k < ps.len() implies (#[trigger] ps[j]).0 != (
    #[trigger] ps[k]).0 by {}
    lemma_lookup_at(ps, 0);
    lemma_lookup_at(ps, 1);
    lemma_lookup_at(ps, 2);
    lemma_lookup_at(ps, 3);
    lemma_lookup_at(ps, 4);
    lemma_lookup_at(ps, 5);
    lemma_lookup_at(ps, 6);
    lemma_lookup_at(ps, 7);
    lemma_lookup_at(ps, 8);
    lemma_lookup_at(ps, 9);
    lemma_lookup_at(ps, 10);
    lemma_lookup_at(ps, 11);
    lemma_id_reads(t.id);
    assert(tweet_from_pairs(ps) == t);
}

} // verus!
