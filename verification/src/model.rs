//! The records the service keeps: statuses, incoming tweets, tracked tweets,
//! follow-up drafts and the dashboard.
use vstd::prelude::*;
use crate::text::{chars_of, upper_all, upper_vec, vec_is};

verus! {

/// Where a tracked question stands.
#[derive(Clone, Copy, Debug, PartialEq, Eq, Structural)]
pub enum Status {
    Waiting,
    Answered,
    Expired,
    Closed,
}

/// The name of a status, as stored and shown.
pub open spec fn status_name(s: Status) -> Seq<char> {
    match s {
        Status::Waiting => "WAITING"@,
        Status::Answered => "ANSWERED"@,
        Status::Expired => "EXPIRED"@,
        Status::Closed => "CLOSED"@,
    }
}

/// The status whose name is `name` once ASCII letters are upper-cased.
pub open spec fn status_named(name: Seq<char>) -> Option<Status> {
    let u = upper_all(name);
    if u == "WAITING"@ {
        Some(Status::Waiting)
    } else if u == "ANSWERED"@ {
        Some(Status::Answered)
    } else if u == "EXPIRED"@ {
        Some(Status::Expired)
    } else if u == "CLOSED"@ {
        Some(Status::Closed)
    } else {
        None
    }
}

impl Status {
    pub fn as_str(self) -> (r: &'static str)
        ensures
            r@ == status_name(self),
    {
        match self {
            Status::Waiting => "WAITING",
            Status::Answered => "ANSWERED",
            Status::Expired => "EXPIRED",
            Status::Closed => "CLOSED",
        }
    }

    /// The status named by `value`, ignoring ASCII case.
    pub fn parse(value: &str) -> (r: Option<Status>)
        ensures
            r == status_named(value@),
    {
        let upper = upper_vec(&chars_of(value));
        if vec_is(&upper, "WAITING") {
            Some(Status::Waiting)
        } else if vec_is(&upper, "ANSWERED") {
            Some(Status::Answered)
        } else if vec_is(&upper, "EXPIRED") {
            Some(Status::Expired)
        } else if vec_is(&upper, "CLOSED") {
            Some(Status::Closed)
        } else {
            None
        }
    }
}

/// A tweet as it arrives from the API or the command line.
#[derive(Clone, Debug, PartialEq, Eq)]
pub struct IncomingTweet {
    pub tweet_id: String,
    pub author: String,
    pub text: String,
    pub created_at: String,
    pub in_reply_to_tweet_id: Option<String>,
}

pub open spec fn opt_view(o: Option<String>) -> Option<Seq<char>> {
    match o {
        Some(s) => Some(s@),
        None => None,
    }
}

pub struct IncomingView {
    pub tweet_id: Seq<char>,
    pub author: Seq<char>,
    pub text: Seq<char>,
    pub created_at: Seq<char>,
    pub in_reply_to_tweet_id: Option<Seq<char>>,
}

impl View for IncomingTweet {
    type V = IncomingView;

    open spec fn view(&self) -> IncomingView {
        IncomingView {
            tweet_id: self.tweet_id@,
            author: self.author@,
            text: self.text@,
            created_at: self.created_at@,
            in_reply_to_tweet_id: opt_view(self.in_reply_to_tweet_id),
        }
    }
}

/// A question being followed up.
#[derive(Clone, Debug, PartialEq, Eq)]
pub struct TrackedTweet {
    pub id: u64,
    pub tweet_id: String,
    pub author: String,
    pub target: String,
    pub tag: String,
    pub status: Status,
    pub text: String,
    pub created_at: String,
    pub expire_at: String,
    pub answered_at: Option<String>,
    pub answer_tweet_id: Option<String>,
    pub notes: Option<String>,
}

pub struct TweetView {
    pub id: u64,
    pub tweet_id: Seq<char>,
    pub author: Seq<char>,
    pub target: Seq<char>,
    pub tag: Seq<char>,
    pub status: Status,
    pub text: Seq<char>,
    pub created_at: Seq<char>,
    pub expire_at: Seq<char>,
    pub answered_at: Option<Seq<char>>,
    pub answer_tweet_id: Option<Seq<char>>,
    pub notes: Option<Seq<char>>,
}

impl View for TrackedTweet {
    type V = TweetView;

    open spec fn view(&self) -> TweetView {
        TweetView {
            id: self.id,
            tweet_id: self.tweet_id@,
            author: self.author@,
            target: self.target@,
            tag: self.tag@,
            status: self.status,
            text: self.text@,
            created_at: self.created_at@,
            expire_at: self.expire_at@,
            answered_at: opt_view(self.answered_at),
            answer_tweet_id: opt_view(self.answer_tweet_id),
            notes: opt_view(self.notes),
        }
    }
}

/// A suggested follow-up message for an expired question.
#[derive(Clone, Debug, PartialEq, Eq)]
pub struct FollowUpDraft {
    pub tweet_id: String,
    pub target: String,
    pub days_waited: u64,
    pub text: String,
}

pub struct DraftView {
    pub tweet_id: Seq<char>,
    pub target: Seq<char>,
    pub days_waited: u64,
    pub text: Seq<char>,
}

impl View for FollowUpDraft {
    type V = DraftView;

    open spec fn view(&self) -> DraftView {
        DraftView {
            tweet_id: self.tweet_id@,
            target: self.target@,
            days_waited: self.days_waited,
            text: self.text@,
        }
    }
}

/// Counts per status over all tracked tweets, the tweets asked for, and drafts
/// for those of them that expired.
#[derive(Clone, Debug)]
pub struct Dashboard {
    pub waiting: usize,
    pub answered: usize,
    pub expired: usize,
    pub closed: usize,
    pub tweets: Vec<TrackedTweet>,
    pub drafts: Vec<FollowUpDraft>,
}

pub open spec fn tweet_views(v: Seq<TrackedTweet>) -> Seq<TweetView> {
    v.map_values(|t: TrackedTweet| t@)
}

pub open spec fn draft_views(v: Seq<FollowUpDraft>) -> Seq<DraftView> {
    v.map_values(|d: FollowUpDraft| d@)
}

} // verus!

verus! {

pub fn copy_string(s: &String) -> (r: String)
    ensures
        r@ == s@,
{
    s.clone()
}

pub fn copy_opt(o: &Option<String>) -> (r: Option<String>)
    ensures
        opt_view(r) == opt_view(*o),
{
    match o {
        Some(s) => Some(s.clone()),
        None => None,
    }
}

impl TrackedTweet {
    /// A copy of this record.
    pub fn copied(&self) -> (r: TrackedTweet)
        ensures
            r@ == self@,
    {
        TrackedTweet {
            id: self.id,
            tweet_id: copy_string(&self.tweet_id),
            author: copy_string(&self.author),
            target: copy_string(&self.target),
            tag: copy_string(&self.tag),
            status: self.status,
            text: copy_string(&self.text),
            created_at: copy_string(&self.created_at),
            expire_at: copy_string(&self.expire_at),
            answered_at: copy_opt(&self.answered_at),
            answer_tweet_id: copy_opt(&self.answer_tweet_id),
            notes: copy_opt(&self.notes),
        }
    }
}

impl IncomingTweet {
    /// A copy of this tweet.
    pub fn copied(&self) -> (r: IncomingTweet)
        ensures
            r@ == self@,
    {
        IncomingTweet {
            tweet_id: copy_string(&self.tweet_id),
            author: copy_string(&self.author),
            text: copy_string(&self.text),
            created_at: copy_string(&self.created_at),
            in_reply_to_tweet_id: copy_opt(&self.in_reply_to_tweet_id),
        }
    }
}

} // verus!
