//! The JSON documents the service writes (tweets, drafts, the dashboard), and a
//! reader for flat objects whose values are strings, `null` or bare text.
use vstd::prelude::*;
use crate::model::{
    Dashboard, DraftView, FollowUpDraft, TrackedTweet, TweetView, draft_views, status_name,
    tweet_views,
};
use crate::text::{chars_of, decimal, digit_char, push_char, push_decimal, push_str};

verus! {

// ---------------------------------------------------------------------------
// Strings
// ---------------------------------------------------------------------------

/// `char::is_control`: the Unicode general category Cc.
pub open spec fn is_control(c: char) -> bool {
    (c as u32) < 0x20 || (0x7f <= (c as u32) && (c as u32) < 0xa0)
}

pub open spec fn hex_char(d: int) -> char {
    if d < 10 {
        digit_char(d)
    } else {
        ((d - 10 + 97) as u32) as char
    }
}

/// `format!("{:04x}", u)` for `u < 0x10000`.
pub open spec fn hex4(u: nat) -> Seq<char> {
    seq![
        hex_char(((u / 4096) % 16) as int),
        hex_char(((u / 256) % 16) as int),
        hex_char(((u / 16) % 16) as int),
        hex_char((u % 16) as int),
    ]
}

/// How `json::string` writes one character.
pub open spec fn escape_char(c: char) -> Seq<char> {
    if c == '"' {
        seq!['\\', '"']
    } else if c == '\\' {
        seq!['\\', '\\']
    } else if c == '\n' {
        seq!['\\', 'n']
    } else if c == '\r' {
        seq!['\\', 'r']
    } else if c == '\t' {
        seq!['\\', 't']
    } else if c == '\u{08}' {
        seq!['\\', 'b']
    } else if c == '\u{0c}' {
        seq!['\\', 'f']
    } else if is_control(c) {
        seq!['\\', 'u'] + hex4(c as nat)
    } else {
        seq![c]
    }
}

pub open spec fn escape_all(s: Seq<char>) -> Seq<char>
    decreases s.len(),
{
    if s.len() == 0 {
        seq![]
    } else {
        escape_char(s[0]) + escape_all(s.drop_first())
    }
}

/// A JSON string literal holding `s`.
pub open spec fn quoted(s: Seq<char>) -> Seq<char> {
    seq!['"'] + escape_all(s) + seq!['"']
}

pub proof fn lemma_escape_push(s: Seq<char>, c: char)
    ensures
        escape_all(s.push(c)) == escape_all(s) + escape_char(c),
    decreases s.len(),
{
    if s.len() == 0 {
        assert(s.push(c).drop_first() =~= Seq::<char>::empty());
        assert(escape_all(s.push(c)) =~= escape_char(c) + escape_all(Seq::<char>::empty()));
        assert(escape_all(s) + escape_char(c) =~= escape_char(c));
    } else {
        lemma_escape_push(s.drop_first(), c);
        assert(s.push(c).drop_first() =~= s.drop_first().push(c));
        assert(escape_all(s.push(c)) =~= escape_char(s[0]) + escape_all(s.drop_first().push(c)));
    }
}

fn hex_digit(d: u32) -> (c: char)
    requires
        d < 16,
    ensures
        c == hex_char(d as int),
{
    if d < 10 {
        ((d as u8) + 48) as char
    } else {
        ((d as u8) - 10 + 97) as char
    }
}

fn push_escaped(out: &mut String, c: char)
    ensures
        final(out)@ == old(out)@ + escape_char(c),
{
    let ghost start = out@;
    if c == '"' {
        push_char(out, '\\');
        push_char(out, '"');
    } else if c == '\\' {
        push_char(out, '\\');
        push_char(out, '\\');
    } else if c == '\n' {
        push_char(out, '\\');
        push_char(out, 'n');
    } else if c == '\r' {
        push_char(out, '\\');
        push_char(out, 'r');
    } else if c == '\t' {
        push_char(out, '\\');
        push_char(out, 't');
    } else if c == '\u{08}' {
        push_char(out, '\\');
        push_char(out, 'b');
    } else if c == '\u{0c}' {
        push_char(out, '\\');
        push_char(out, 'f');
    } else if (c as u32) < 0x20 || (0x7f <= (c as u32) && (c as u32) < 0xa0) {
        let u: u32 = c as u32;
        push_char(out, '\\');
        push_char(out, 'u');
        push_char(out, hex_digit((u / 4096) % 16));
        push_char(out, hex_digit((u / 256) % 16));
        push_char(out, hex_digit((u / 16) % 16));
        push_char(out, hex_digit(u % 16));
    } else {
        push_char(out, c);
    }
    assert(out@ =~= start + escape_char(c));
}

/// Appends `quoted(s)`.
pub fn push_quoted(out: &mut String, s: &str)
    ensures
        final(out)@ == old(out)@ + quoted(s@),
{
    let ghost start = out@;
    push_char(out, '"');
    for c in it: s.chars()
        invariant
            it.seq() == s@,
            out@ == start + seq!['"'] + escape_all(it.seq().take(it.index() as int)),
    {
        proof {
            lemma_escape_push(it.seq().take(it.index() as int), c);
            assert(it.seq().take(it.index() + 1) =~= it.seq().take(it.index() as int).push(c));
        }
        push_escaped(out, c);
    }
    assert(s@.take(s@.len() as int) =~= s@);
    push_char(out, '"');
    assert(out@ =~= start + quoted(s@));
}

/// `json::string`: `value` as a JSON string literal.
pub fn string(value: &str) -> (r: String)
    ensures
        r@ == quoted(value@),
{
    let mut out = String::new();
    push_quoted(&mut out, value);
    assert(out@ =~= quoted(value@));
    out
}

// ---------------------------------------------------------------------------
// Objects and arrays
// ---------------------------------------------------------------------------

/// The items joined with commas.
pub open spec fn join(items: Seq<Seq<char>>) -> Seq<char>
    decreases items.len(),
{
    if items.len() == 0 {
        seq![]
    } else if items.len() == 1 {
        items[0]
    } else {
        join(items.drop_last()) + seq![','] + items.last()
    }
}

/// `"key":value`.
pub open spec fn member(f: (Seq<char>, Seq<char>)) -> Seq<char> {
    quoted(f.0) + seq![':'] + f.1
}

/// A JSON object of the given keys and value texts, in order.
pub open spec fn object(fields: Seq<(Seq<char>, Seq<char>)>) -> Seq<char> {
    seq!['{'] + join(fields.map_values(|f: (Seq<char>, Seq<char>)| member(f))) + seq!['}']
}

/// A JSON array of the given item texts, in order.
pub open spec fn array(items: Seq<Seq<char>>) -> Seq<char> {
    seq!['['] + join(items) + seq![']']
}

pub open spec fn pair_views(v: Seq<(String, String)>) -> Seq<(Seq<char>, Seq<char>)> {
    v.map_values(|p: (String, String)| (p.0@, p.1@))
}

pub open spec fn string_views(v: Seq<String>) -> Seq<Seq<char>> {
    v.map_values(|s: String| s@)
}

/// Appends `join(items)` surrounded by `open` and `close`.
fn push_joined(out: &mut String, open: char, items: &Vec<String>, close: char)
    ensures
        final(out)@ == old(out)@ + seq![open] + join(string_views(items@)) + seq![close],
{
    let ghost start = out@;
    let ghost all = string_views(items@);
    push_char(out, open);
    let mut k: usize = 0;
    while k < items.len()
        invariant
            0 <= k <= items.len(),
            all == string_views(items@),
            out@ == start + seq![open] + join(all.take(k as int)),
        decreases items.len() - k,
    {
        if k > 0 {
            push_char(out, ',');
        }
        push_str(out, items[k].as_str());
        proof {
            let t = all.take(k + 1);
            assert(t.drop_last() =~= all.take(k as int));
            assert(t.last() == items@[k as int]@);
            if k == 0 {
                assert(join(all.take(0)) =~= Seq::<char>::empty());
            }
        }
        k = k + 1;
    }
    assert(all.take(items.len() as int) =~= all);
    push_char(out, close);
}

/// The object whose members are `fields` (key, value text), in order.
pub fn object_of(fields: &Vec<(String, String)>) -> (r: String)
    ensures
        r@ == object(pair_views(fields@)),
{
    let mut items: Vec<String> = Vec::new();
    let mut k: usize = 0;
    while k < fields.len()
        invariant
            0 <= k <= fields.len(),
            string_views(items@) == pair_views(fields@).take(k as int).map_values(
                |f: (Seq<char>, Seq<char>)| member(f),
            ),
        decreases fields.len() - k,
    {
        let mut m = String::new();
        push_quoted(&mut m, fields[k].0.as_str());
        push_char(&mut m, ':');
        push_str(&mut m, fields[k].1.as_str());
        assert(pair_views(fields@)[k as int] == (fields@[k as int].0@, fields@[k as int].1@));
        assert(m@ =~= member(pair_views(fields@)[k as int]));
        let ghost before = string_views(items@);
        items.push(m);
        assert(string_views(items@) =~= before.push(m@));
        assert(pair_views(fields@).take(k + 1).map_values(|f: (Seq<char>, Seq<char>)| member(f))
            =~= pair_views(fields@).take(k as int).map_values(
            |f: (Seq<char>, Seq<char>)| member(f),
        ).push(member(pair_views(fields@)[k as int])));
        k = k + 1;
    }
    assert(pair_views(fields@).take(fields.len() as int) =~= pair_views(fields@));
    let mut out = String::new();
    push_joined(&mut out, '{', &items, '}');
    assert(out@ =~= object(pair_views(fields@)));
    out
}

/// The array of the given item texts.
pub fn array_of(items: &Vec<String>) -> (r: String)
    ensures
        r@ == array(string_views(items@)),
{
    let mut out = String::new();
    push_joined(&mut out, '[', items, ']');
    assert(out@ =~= array(string_views(items@)));
    out
}

fn decimal_string(n: u64) -> (r: String)
    ensures
        r@ == decimal(n as nat),
{
    let mut out = String::new();
    push_decimal(&mut out, n);
    assert(out@ =~= decimal(n as nat));
    out
}

fn owned(s: &str) -> (r: String)
    ensures
        r@ == s@,
{
    s.to_owned()
}

// ---------------------------------------------------------------------------
// Documents
// ---------------------------------------------------------------------------

pub open spec fn null_text() -> Seq<char> {
    seq!['n', 'u', 'l', 'l']
}

/// An optional string: a string literal or `null`.
pub open spec fn option_json(o: Option<Seq<char>>) -> Seq<char> {
    match o {
        Some(s) => quoted(s),
        None => null_text(),
    }
}

/// The members of a tracked tweet, in the order they are written.
pub open spec fn tweet_fields(t: TweetView) -> Seq<(Seq<char>, Seq<char>)> {
    seq![
        ("id"@, decimal(t.id as nat)),
        ("tweet_id"@, quoted(t.tweet_id)),
        ("author"@, quoted(t.author)),
        ("target"@, quoted(t.target)),
        ("tag"@, quoted(t.tag)),
        ("status"@, quoted(status_name(t.status))),
        ("text"@, quoted(t.text)),
        ("created_at"@, quoted(t.created_at)),
        ("expire_at"@, quoted(t.expire_at)),
        ("answered_at"@, option_json(t.answered_at)),
        ("answer_tweet_id"@, option_json(t.answer_tweet_id)),
        ("notes"@, option_json(t.notes)),
    ]
}

pub open spec fn tweet_json(t: TweetView) -> Seq<char> {
    object(tweet_fields(t))
}

pub open spec fn draft_fields(d: DraftView) -> Seq<(Seq<char>, Seq<char>)> {
    seq![
        ("tweet_id"@, quoted(d.tweet_id)),
        ("target"@, quoted(d.target)),
        ("days_waited"@, decimal(d.days_waited as nat)),
        ("text"@, quoted(d.text)),
    ]
}

pub open spec fn draft_json(d: DraftView) -> Seq<char> {
    object(draft_fields(d))
}

/// The dashboard document: counts by status, then the tweets, then the drafts.
pub open spec fn dashboard_json(
    waiting: nat,
    answered: nat,
    expired: nat,
    closed: nat,
    tweets: Seq<TweetView>,
    drafts: Seq<DraftView>,
) -> Seq<char> {
    object(
        seq![
            ("counts"@, object(
                seq![
                    ("WAITING"@, decimal(waiting)),
                    ("ANSWERED"@, decimal(answered)),
                    ("EXPIRED"@, decimal(expired)),
                    ("CLOSED"@, decimal(closed)),
                ],
            )),
            ("tweets"@, array(tweets.map_values(|t: TweetView| tweet_json(t)))),
            ("drafts"@, array(drafts.map_values(|d: DraftView| draft_json(d)))),
        ],
    )
}

fn option(value: &Option<String>) -> (r: String)
    ensures
        r@ == option_json(crate::model::opt_view(*value)),
{
    match value {
        Some(v) => string(v.as_str()),
        None => {
            let mut out = String::new();
            push_char(&mut out, 'n');
            push_char(&mut out, 'u');
            push_char(&mut out, 'l');
            push_char(&mut out, 'l');
            assert(out@ =~= null_text());
            out
        },
    }
}

fn field(key: &str, value: String) -> (r: (String, String))
    ensures
        r.0@ == key@,
        r.1@ == value@,
{
    (owned(key), value)
}

/// `json::tweet`: the JSON document of a tracked tweet.
pub fn tweet(t: &TrackedTweet) -> (r: String)
    ensures
        r@ == tweet_json(t@),
{
    let mut fields: Vec<(String, String)> = Vec::new();
    fields.push(field("id", decimal_string(t.id)));
    fields.push(field("tweet_id", string(t.tweet_id.as_str())));
    fields.push(field("author", string(t.author.as_str())));
    fields.push(field("target", string(t.target.as_str())));
    fields.push(field("tag", string(t.tag.as_str())));
    fields.push(field("status", string(t.status.as_str())));
    fields.push(field("text", string(t.text.as_str())));
    fields.push(field("created_at", string(t.created_at.as_str())));
    fields.push(field("expire_at", string(t.expire_at.as_str())));
    fields.push(field("answered_at", option(&t.answered_at)));
    fields.push(field("answer_tweet_id", option(&t.answer_tweet_id)));
    fields.push(field("notes", option(&t.notes)));
    assert(pair_views(fields@) =~= tweet_fields(t@));
    object_of(&fields)
}

/// The JSON document of a follow-up draft.
pub fn draft(d: &FollowUpDraft) -> (r: String)
    ensures
        r@ == draft_json(d@),
{
    let mut fields: Vec<(String, String)> = Vec::new();
    fields.push(field("tweet_id", string(d.tweet_id.as_str())));
    fields.push(field("target", string(d.target.as_str())));
    fields.push(field("days_waited", decimal_string(d.days_waited)));
    fields.push(field("text", string(d.text.as_str())));
    assert(pair_views(fields@) =~= draft_fields(d@));
    object_of(&fields)
}

/// `json::dashboard`: the JSON document of a dashboard.
pub fn dashboard(data: &Dashboard) -> (r: String)
    ensures
        r@ == dashboard_json(
            data.waiting as nat,
            data.answered as nat,
            data.expired as nat,
            data.closed as nat,
            tweet_views(data.tweets@),
            draft_views(data.drafts@),
        ),
{
    let mut counts: Vec<(String, String)> = Vec::new();
    counts.push(field("WAITING", decimal_string(data.waiting as u64)));
    counts.push(field("ANSWERED", decimal_string(data.answered as u64)));
    counts.push(field("EXPIRED", decimal_string(data.expired as u64)));
    counts.push(field("CLOSED", decimal_string(data.closed as u64)));
    assert(pair_views(counts@) =~= seq![
        ("WAITING"@, decimal(data.waiting as nat)),
        ("ANSWERED"@, decimal(data.answered as nat)),
        ("EXPIRED"@, decimal(data.expired as nat)),
        ("CLOSED"@, decimal(data.closed as nat)),
    ]);
    let counts_text = object_of(&counts);
    let mut tweets: Vec<String> = Vec::new();
    let mut k: usize = 0;
    while k < data.tweets.len()
        invariant
            0 <= k <= data.tweets.len(),
            string_views(tweets@) == tweet_views(data.tweets@).take(k as int).map_values(
                |t: TweetView| tweet_json(t),
            ),
        decreases data.tweets.len() - k,
    {
        let ghost before = string_views(tweets@);
        tweets.push(tweet(&data.tweets[k]));
        assert(string_views(tweets@) =~= before.push(tweet_json(data.tweets@[k as int]@)));
        assert(tweet_views(data.tweets@).take(k + 1).map_values(|t: TweetView| tweet_json(t))
            =~= tweet_views(data.tweets@).take(k as int).map_values(
            |t: TweetView| tweet_json(t),
        ).push(tweet_json(data.tweets@[k as int]@)));
        k = k + 1;
    }
    assert(tweet_views(data.tweets@).take(data.tweets.len() as int) =~= tweet_views(data.tweets@));
    let mut drafts: Vec<String> = Vec::new();
    let mut k: usize = 0;
    while k < data.drafts.len()
        invariant
            0 <= k <= data.drafts.len(),
            string_views(drafts@) == draft_views(data.drafts@).take(k as int).map_values(
                |d: DraftView| draft_json(d),
            ),
        decreases data.drafts.len() - k,
    {
        let ghost before = string_views(drafts@);
        drafts.push(draft(&data.drafts[k]));
        assert(string_views(drafts@) =~= before.push(draft_json(data.drafts@[k as int]@)));
        assert(draft_views(data.drafts@).take(k + 1).map_values(|d: DraftView| draft_json(d))
            =~= draft_views(data.drafts@).take(k as int).map_values(
            |d: DraftView| draft_json(d),
        ).push(draft_json(data.drafts@[k as int]@)));
        k = k + 1;
    }
    assert(draft_views(data.drafts@).take(data.drafts.len() as int) =~= draft_views(data.drafts@));
    let mut fields: Vec<(String, String)> = Vec::new();
    fields.push(field("counts", counts_text));
    fields.push(field("tweets", array_of(&tweets)));
    fields.push(field("drafts", array_of(&drafts)));
    assert(pair_views(fields@) =~= seq![
        ("counts"@, object(
            seq![
                ("WAITING"@, decimal(data.waiting as nat)),
                ("ANSWERED"@, decimal(data.answered as nat)),
                ("EXPIRED"@, decimal(data.expired as nat)),
                ("CLOSED"@, decimal(data.closed as nat)),
            ],
        )),
        ("tweets"@, array(tweet_views(data.tweets@).map_values(|t: TweetView| tweet_json(t)))),
        ("drafts"@, array(draft_views(data.drafts@).map_values(|d: DraftView| draft_json(d)))),
    ]);
    object_of(&fields)
}

} // verus!

verus! {

// ---------------------------------------------------------------------------
// Reading objects
// ---------------------------------------------------------------------------
//
// The reader goes through the text one character at a time. The characters it
// looks for (braces, quotes, colons, commas, escapes, white space) are all ASCII,
// so reading characters finds them where reading UTF-8 bytes would; a character
// outside ASCII inside a string comes out as one character per UTF-8 byte (the
// character with that byte's value), see `units`.

pub open spec fn json_ws(c: char) -> bool {
    c == ' ' || c == '\n' || c == '\r' || c == '\t'
}

/// Number of JSON white-space characters at the start of `t`.
pub open spec fn ws_len(t: Seq<char>) -> nat
    decreases t.len(),
{
    if t.len() > 0 && json_ws(t[0]) {
        1 + ws_len(t.drop_first())
    } else {
        0
    }
}

/// Number of characters at the start of `t` before a `,`, a `}` or the end.
pub open spec fn raw_len(t: Seq<char>) -> nat
    decreases t.len(),
{
    if t.len() > 0 && t[0] != ',' && t[0] != '}' {
        1 + raw_len(t.drop_first())
    } else {
        0
    }
}

/// The character an escape `\c` stands for.
pub open spec fn unescape(c: char) -> Option<char> {
    if c == '"' {
        Some('"')
    } else if c == '\\' {
        Some('\\')
    } else if c == '/' {
        Some('/')
    } else if c == 'n' {
        Some('\n')
    } else if c == 'r' {
        Some('\r')
    } else if c == 't' {
        Some('\t')
    } else if c == 'b' {
        Some('\u{08}')
    } else if c == 'f' {
        Some('\u{0c}')
    } else {
        None
    }
}

/// One character per byte of the UTF-8 encoding of `c`, each with that byte's value.
pub open spec fn units(c: char) -> Seq<char> {
    vstd::utf8::encode_scalar(c as u32).map_values(|b: u8| (b as u32) as char)
}

pub open spec fn err_unterminated() -> Seq<char> {
    "unterminated string"@
}

pub open spec fn err_incomplete() -> Seq<char> {
    "incomplete escape"@
}

pub open spec fn err_unsupported() -> Seq<char> {
    "unsupported escape"@
}

pub open spec fn err_quote() -> Seq<char> {
    "expected \""@
}

pub open spec fn err_colon() -> Seq<char> {
    "expected :"@
}

pub open spec fn err_brace() -> Seq<char> {
    "expected {"@
}

pub open spec fn err_separator() -> Seq<char> {
    "expected comma or closing brace"@
}

/// The rest of a string literal after its opening quote: the characters it
/// holds and how many characters it takes, closing quote included.
pub open spec fn str_body(t: Seq<char>) -> Result<(Seq<char>, nat), Seq<char>>
    decreases t.len(),
{
    if t.len() == 0 {
        Err(err_unterminated())
    } else if t[0] == '"' {
        Ok((seq![], 1))
    } else if t[0] == '\\' {
        if t.len() < 2 {
            Err(err_incomplete())
        } else {
            match unescape(t[1]) {
                None => Err(err_unsupported()),
                Some(c) => match str_body(t.skip(2)) {
                    Ok((v, n)) => Ok((seq![c] + v, n + 2)),
                    Err(e) => Err(e),
                },
            }
        }
    } else {
        match str_body(t.drop_first()) {
            Ok((v, n)) => Ok((units(t[0]) + v, n + 1)),
            Err(e) => Err(e),
        }
    }
}

/// A string literal at the start of `t`: what it holds and its length.
pub open spec fn string_value(t: Seq<char>) -> Result<(Seq<char>, nat), Seq<char>> {
    if t.len() > 0 && t[0] == '"' {
        match str_body(t.drop_first()) {
            Ok((v, n)) => Ok((v, n + 1)),
            Err(e) => Err(e),
        }
    } else {
        Err(err_quote())
    }
}

/// A value at the start of `t`: a string literal, `null` (read as the empty
/// string), or the trimmed text up to the next `,` or `}`.
pub open spec fn value(t: Seq<char>) -> Result<(Seq<char>, nat), Seq<char>> {
    if t.len() > 0 && t[0] == '"' {
        string_value(t)
    } else if t.len() >= 4 && t.take(4) == null_text() {
        Ok((seq![], 4))
    } else {
        let n = raw_len(t);
        Ok((crate::text::trim(t.take(n as int)), n))
    }
}

pub proof fn lemma_ws_len_bound(t: Seq<char>)
    ensures
        ws_len(t) <= t.len(),
    decreases t.len(),
{
    if t.len() > 0 && json_ws(t[0]) {
        lemma_ws_len_bound(t.drop_first());
    }
}

pub proof fn lemma_raw_len_bound(t: Seq<char>)
    ensures
        raw_len(t) <= t.len(),
    decreases t.len(),
{
    if t.len() > 0 && t[0] != ',' && t[0] != '}' {
        lemma_raw_len_bound(t.drop_first());
    }
}

pub proof fn lemma_str_body_bound(t: Seq<char>)
    ensures
        str_body(t) matches Ok((_, n)) ==> 1 <= n <= t.len(),
    decreases t.len(),
{
    if t.len() >= 2 && t[0] == '\\' {
        lemma_str_body_bound(t.skip(2));
    } else if t.len() > 0 && t[0] != '"' && t[0] != '\\' {
        lemma_str_body_bound(t.drop_first());
    }
}

pub proof fn lemma_value_bound(t: Seq<char>)
    ensures
        string_value(t) matches Ok((_, n)) ==> 1 <= n <= t.len(),
        value(t) matches Ok((_, n)) ==> n <= t.len(),
{
    if t.len() > 0 {
        lemma_str_body_bound(t.drop_first());
    }
    lemma_raw_len_bound(t);
}

/// One `"key": value` member at the start of `t` and the number of characters it
/// takes, white space before the colon and before the value included.
pub open spec fn read_member(t: Seq<char>) -> Result<((Seq<char>, Seq<char>), nat), Seq<char>> {
    match string_value(t) {
        Err(e) => Err(e),
        Ok((key, k)) => {
            let t2 = t.skip(k as int);
            let w2 = ws_len(t2);
            let t3 = t2.skip(w2 as int);
            if !(t3.len() > 0 && t3[0] == ':') {
                Err(err_colon())
            } else {
                let t4 = t3.drop_first();
                let w4 = ws_len(t4);
                match value(t4.skip(w4 as int)) {
                    Err(e) => Err(e),
                    Ok((v, n)) => Ok(((key, v), k + w2 + 1 + w4 + n)),
                }
            }
        },
    }
}

pub proof fn lemma_read_member_bound(t: Seq<char>)
    ensures
        read_member(t) matches Ok((_, m)) ==> 1 <= m <= t.len(),
{
    lemma_value_bound(t);
    if let Ok((key, k)) = string_value(t) {
        let t2 = t.skip(k as int);
        lemma_ws_len_bound(t2);
        let t3 = t2.skip(ws_len(t2) as int);
        if t3.len() > 0 {
            let t4 = t3.drop_first();
            lemma_ws_len_bound(t4);
            lemma_value_bound(t4.skip(ws_len(t4) as int));
        }
    }
}

/// The members of an object after its `{` (or after a `,`), appended to `acc`.
pub open spec fn members(
    t: Seq<char>,
    acc: Seq<(Seq<char>, Seq<char>)>,
) -> Result<Seq<(Seq<char>, Seq<char>)>, Seq<char>>
    decreases t.len(),
{
    let t1 = t.skip(ws_len(t) as int);
    if t1.len() > 0 && t1[0] == '}' {
        Ok(acc)
    } else {
        match read_member(t1) {
            Err(e) => Err(e),
            Ok((kv, m)) => {
                let t6 = t1.skip(m as int);
                let t7 = t6.skip(ws_len(t6) as int);
                if t7.len() > 0 && t7[0] == ',' {
                    proof {
                        lemma_ws_len_bound(t);
                        lemma_read_member_bound(t1);
                        lemma_ws_len_bound(t6);
                    }
                    members(t7.drop_first(), acc.push(kv))
                } else if t7.len() > 0 && t7[0] == '}' {
                    Ok(acc.push(kv))
                } else {
                    Err(err_separator())
                }
            },
        }
    }
}

/// `json::parse_object`: the key/value pairs of a flat JSON object, in order;
/// anything after the closing brace is ignored.
pub open spec fn parse_obj(s: Seq<char>) -> Result<Seq<(Seq<char>, Seq<char>)>, Seq<char>> {
    let t = s.skip(ws_len(s) as int);
    if t.len() > 0 && t[0] == '{' {
        members(t.drop_first(), seq![])
    } else {
        Err(err_brace())
    }
}

} // verus!

verus! {

/// Prepends what was read so far to the rest of a string body.
pub open spec fn after(
    acc: Seq<char>,
    used: nat,
    r: Result<(Seq<char>, nat), Seq<char>>,
) -> Result<(Seq<char>, nat), Seq<char>> {
    match r {
        Ok((v, n)) => Ok((acc + v, n + used)),
        Err(e) => Err(e),
    }
}

/// Appends `units(c)`.
fn push_units(out: &mut String, c: char)
    ensures
        final(out)@ == old(out)@ + units(c),
{
    let ghost start = out@;
    let v: u32 = c as u32;
    proof {
        vstd::utf8::char_is_scalar(c);
    }
    if v <= 0x7f {
        push_char(out, ((v & 0x7f) as u8) as char);
    } else if v <= 0x7ff {
        push_char(out, (0xc0 | ((v >> 6) & 0x1f) as u8) as char);
        push_char(out, (0x80 | (v & 0x3f) as u8) as char);
    } else if v <= 0xffff {
        push_char(out, (0xe0 | ((v >> 12) & 0x0f) as u8) as char);
        push_char(out, (0x80 | ((v >> 6) & 0x3f) as u8) as char);
        push_char(out, (0x80 | (v & 0x3f) as u8) as char);
    } else {
        push_char(out, (0xf0 | ((v >> 18) & 0x7) as u8) as char);
        push_char(out, (0x80 | ((v >> 12) & 0x3f) as u8) as char);
        push_char(out, (0x80 | ((v >> 6) & 0x3f) as u8) as char);
        push_char(out, (0x80 | (v & 0x3f) as u8) as char);
    }
    assert(out@ =~= start + units(c));
}

proof fn lemma_ws_len_at(t: Seq<char>, m: int)
    requires
        0 <= m <= t.len(),
        forall|k: int| 0 <= k < m ==> json_ws(#[trigger] t[k]),
        m == t.len() || !json_ws(t[m]),
    ensures
        ws_len(t) == m,
    decreases m,
{
    if m > 0 {
        lemma_ws_len_at(t.drop_first(), m - 1);
    }
}

proof fn lemma_raw_len_at(t: Seq<char>, m: int)
    requires
        0 <= m <= t.len(),
        forall|k: int| 0 <= k < m ==> #[trigger] t[k] != ',' && t[k] != '}',
        m == t.len() || t[m] == ',' || t[m] == '}',
    ensures
        raw_len(t) == m,
    decreases m,
{
    if m > 0 {
        lemma_raw_len_at(t.drop_first(), m - 1);
    }
}

/// `skip_ws`: the first index at or after `i` that is not JSON white space.
fn skip_ws(s: &Vec<char>, i: usize) -> (r: usize)
    requires
        i <= s.len(),
    ensures
        r == i + ws_len(s@.skip(i as int)),
        r <= s.len(),
{
    let mut j: usize = i;
    while j < s.len() && (s[j] == ' ' || s[j] == '\n' || s[j] == '\r' || s[j] == '\t')
        invariant
            i <= j <= s.len(),
            forall|k: int| i <= k < j ==> json_ws(#[trigger] s@[k]),
        decreases s.len() - j,
    {
        j = j + 1;
    }
    proof {
        let t = s@.skip(i as int);
        assert forall|k: int| 0 <= k < j - i implies json_ws(#[trigger] t[k]) by {
            assert(t[k] == s@[k + i]);
        }
        if j < s.len() {
            assert(t[j - i] == s@[j as int]);
        }
        lemma_ws_len_at(t, j - i);
    }
    j
}

fn owned_text(s: &str) -> (r: String)
    ensures
        r@ == s@,
{
    s.to_owned()
}

/// `parse_string`: the string literal starting at `s[i]`, and the index after it.
fn parse_string(s: &Vec<char>, i: usize) -> (r: Result<(String, usize), String>)
    requires
        i <= s.len(),
    ensures
        match r {
            Ok((v, j)) => i < j <= s.len() && string_value(s@.skip(i as int)) == Ok::<_, Seq<char>>(
                (v@, (j - i) as nat),
            ),
            Err(e) => string_value(s@.skip(i as int)) == Err::<(Seq<char>, nat), Seq<char>>(e@),
        },
{
    if !(i < s.len() && s[i] == '"') {
        return Err(owned_text("expected \""));
    }
    let ghost t = s@.skip(i as int);
    assert(t.drop_first() =~= s@.skip(i + 1));
    let mut out = String::new();
    let mut k: usize = i + 1;
    loop
        invariant
            i + 1 <= k <= s.len(),
            t == s@.skip(i as int),
            t.len() > 0 && t[0] == '"',
            t.drop_first() == s@.skip(i + 1),
            str_body(s@.skip(i + 1)) == after(out@, (k - (i + 1)) as nat, str_body(s@.skip(k as int))),
        decreases s.len() - k,
    {
        let ghost rest = s@.skip(k as int);
        proof {
            lemma_str_body_bound(rest);
        }
        if k >= s.len() {
            return Err(owned_text("unterminated string"));
        }
        let ch = s[k];
        assert(rest[0] == ch);
        if ch == '"' {
            assert(out@ + Seq::<char>::empty() =~= out@);
            return Ok((out, k + 1));
        } else if ch == '\\' {
            if k + 1 >= s.len() {
                return Err(owned_text("incomplete escape"));
            }
            let e = s[k + 1];
            assert(rest[1] == e);
            let c: char = if e == '"' {
                '"'
            } else if e == '\\' {
                '\\'
            } else if e == '/' {
                '/'
            } else if e == 'n' {
                '\n'
            } else if e == 'r' {
                '\r'
            } else if e == 't' {
                '\t'
            } else if e == 'b' {
                '\u{08}'
            } else if e == 'f' {
                '\u{0c}'
            } else {
                return Err(owned_text("unsupported escape"));
            };
            assert(unescape(e) == Some(c));
            assert(rest.skip(2) =~= s@.skip(k + 2));
            let ghost before = out@;
            push_char(&mut out, c);
            proof {
                match str_body(s@.skip(k + 2)) {
                    Ok((v, n)) => {
                        assert(before + (seq![c] + v) =~= out@ + v);
                    },
                    Err(_) => {},
                }
            }
            k = k + 2;
        } else {
            assert(rest.drop_first() =~= s@.skip(k + 1));
            let ghost before = out@;
            push_units(&mut out, ch);
            proof {
                match str_body(s@.skip(k + 1)) {
                    Ok((v, n)) => {
                        assert(before + (units(ch) + v) =~= out@ + v);
                    },
                    Err(_) => {},
                }
            }
            k = k + 1;
        }
    }
}

/// The value starting at `s[i]`, and the index after it.
fn parse_value(s: &Vec<char>, i: usize) -> (r: Result<(String, usize), String>)
    requires
        i <= s.len(),
    ensures
        match r {
            Ok((v, j)) => i <= j <= s.len() && value(s@.skip(i as int)) == Ok::<_, Seq<char>>((v@, (j - i) as nat)),
            Err(e) => value(s@.skip(i as int)) == Err::<(Seq<char>, nat), Seq<char>>(e@),
        },
{
    let ghost t = s@.skip(i as int);
    if i < s.len() && s[i] == '"' {
        return parse_string(s, i);
    }
    if s.len() >= 4 && i <= s.len() - 4 && s[i] == 'n' && s[i + 1] == 'u' && s[i + 2] == 'l' && s[i + 3] == 'l' {
        assert(t.take(4) =~= null_text());
        return Ok((String::new(), i + 4));
    }
    proof {
        if t.len() >= 4 && t.take(4) == null_text() {
            assert(t.take(4)[0] == s@[i as int]);
            assert(t.take(4)[1] == s@[i + 1]);
            assert(t.take(4)[2] == s@[i + 2]);
            assert(t.take(4)[3] == s@[i + 3]);
        }
    }
    let mut j: usize = i;
    while j < s.len() && s[j] != ',' && s[j] != '}'
        invariant
            i <= j <= s.len(),
            forall|k: int| i <= k < j ==> #[trigger] s@[k] != ',' && s@[k] != '}',
        decreases s.len() - j,
    {
        j = j + 1;
    }
    proof {
        assert forall|k: int| 0 <= k < j - i implies #[trigger] t[k] != ',' && t[k] != '}' by {
            assert(t[k] == s@[k + i]);
        }
        if j < s.len() {
            assert(t[j - i] == s@[j as int]);
        }
        lemma_raw_len_at(t, j - i);
    }
    let raw = crate::parser::copy_range(s, i, j);
    assert(raw@ =~= t.take(j - i));
    let (lo, hi) = crate::text::trim_bounds(&raw);
    Ok((crate::text::string_of_range(&raw, lo, hi), j))
}

/// One member starting at `s[i]`: its key, its value, and the index after it.
fn parse_member(s: &Vec<char>, i1: usize) -> (r: Result<(String, String, usize), String>)
    requires
        i1 <= s.len(),
    ensures
        match r {
            Ok((k, v, j)) => i1 <= j <= s.len() && read_member(s@.skip(i1 as int)) == Ok::<
                _,
                Seq<char>,
            >(((k@, v@), (j - i1) as nat)),
            Err(e) => read_member(s@.skip(i1 as int)) == Err::<((Seq<char>, Seq<char>), nat), Seq<char>>(e@),
        },
{
    let ghost t = s@.skip(i1 as int);
    let (key, i2) = match parse_string(s, i1) {
        Ok(kv) => kv,
        Err(e) => {
            return Err(e);
        },
    };
    assert(t.skip((i2 - i1) as int) =~= s@.skip(i2 as int));
    let i3 = skip_ws(s, i2);
    assert(s@.skip(i2 as int).skip((i3 - i2) as int) =~= s@.skip(i3 as int));
    if !(i3 < s.len() && s[i3] == ':') {
        return Err(owned_text("expected :"));
    }
    assert(s@.skip(i3 as int).drop_first() =~= s@.skip(i3 + 1));
    let i4 = skip_ws(s, i3 + 1);
    assert(s@.skip(i3 + 1).skip((i4 - i3 - 1) as int) =~= s@.skip(i4 as int));
    let (v, i5) = match parse_value(s, i4) {
        Ok(vv) => vv,
        Err(e) => {
            return Err(e);
        },
    };
    Ok((key, v, i5))
}

/// `json::parse_object`: the key/value pairs of a flat JSON object.
pub fn parse_object(input: &str) -> (r: Result<Vec<(String, String)>, String>)
    ensures
        match r {
            Ok(pairs) => parse_obj(input@) == Ok::<_, Seq<char>>(pair_views(pairs@)),
            Err(e) => parse_obj(input@) == Err::<Seq<(Seq<char>, Seq<char>)>, Seq<char>>(e@),
        },
{
    let s = chars_of(input);
    let i0 = skip_ws(&s, 0);
    assert(s@.skip(0) =~= s@);
    if !(i0 < s.len() && s[i0] == '{') {
        return Err(owned_text("expected {"));
    }
    assert(s@.skip(i0 as int).drop_first() =~= s@.skip(i0 + 1));
    let mut i: usize = i0 + 1;
    let mut pairs: Vec<(String, String)> = Vec::new();
    assert(pair_views(pairs@) =~= Seq::<(Seq<char>, Seq<char>)>::empty());
    loop
        invariant
            i <= s.len(),
            s@ == input@,
            parse_obj(input@) == members(s@.skip(i as int), pair_views(pairs@)),
        decreases s.len() - i,
    {
        let ghost t = s@.skip(i as int);
        let i1 = skip_ws(&s, i);
        assert(t.skip(ws_len(t) as int) =~= s@.skip(i1 as int));
        if i1 < s.len() && s[i1] == '}' {
            return Ok(pairs);
        }
        let (key, v, i5) = match parse_member(&s, i1) {
            Ok(kvi) => kvi,
            Err(e) => {
                return Err(e);
            },
        };
        assert(s@.skip(i1 as int).skip((i5 - i1) as int) =~= s@.skip(i5 as int));
        let ghost before = pair_views(pairs@);
        let ghost kv = (key@, v@);
        pairs.push((key, v));
        assert(pair_views(pairs@) =~= before.push(kv));
        let i6 = skip_ws(&s, i5);
        assert(s@.skip(i5 as int).skip((i6 - i5) as int) =~= s@.skip(i6 as int));
        if i6 < s.len() && s[i6] == ',' {
            assert(s@.skip(i6 as int).drop_first() =~= s@.skip(i6 + 1));
            i = i6 + 1;
        } else if i6 < s.len() && s[i6] == '}' {
            return Ok(pairs);
        } else {
            return Err(owned_text("expected comma or closing brace"));
        }
    }
}

} // verus!

verus! {

// ---------------------------------------------------------------------------
// Reading back what the writer writes
// ---------------------------------------------------------------------------

/// Characters that `json::string` writes so that the reader gives them back:
/// printable ASCII, and the five control characters with a short escape.
pub open spec fn codec_char(c: char) -> bool {
    (0x20 <= (c as u32) && (c as u32) < 0x7f) || c == '\n' || c == '\r' || c == '\t' || c
        == '\u{08}' || c == '\u{0c}'
}

pub open spec fn codec_text(s: Seq<char>) -> bool {
    forall|i: int| 0 <= i < s.len() ==> codec_char(#[trigger] s[i])
}

pub proof fn lemma_ascii_units(c: char)
    requires
        (c as u32) < 0x80,
    ensures
        units(c) == seq![c],
{
    let u = c as u32;
    assert((u & 0x7f) == u) by (bit_vector)
        requires
            u < 0x80,
    ;
    let b = vstd::utf8::encode_scalar(u);
    assert(b =~= seq![(u & 0x7f) as u8]);
    assert(((b[0] as u32) as char) == c);
    assert(units(c) =~= seq![c]);
}

pub proof fn lemma_str_escape(s: Seq<char>, r: Seq<char>)
    requires
        codec_text(s),
    ensures
        str_body(escape_all(s) + seq!['"'] + r) == Ok::<_, Seq<char>>(
            (s, escape_all(s).len() + 1),
        ),
    decreases s.len(),
{
    let t = escape_all(s) + seq!['"'] + r;
    if s.len() == 0 {
        assert(escape_all(s) =~= Seq::<char>::empty());
        assert(t[0] == '"');
        assert(str_body(t) == Ok::<_, Seq<char>>((Seq::<char>::empty(), 1nat)));
        assert(s =~= Seq::<char>::empty());
    } else {
        let c = s[0];
        let tail = s.drop_first();
        assert(codec_text(tail)) by {
            assert forall|i: int| 0 <= i < tail.len() implies codec_char(#[trigger] tail[i]) by {
                assert(tail[i] == s[i + 1]);
            }
        }
        lemma_str_escape(tail, r);
        let t2 = escape_all(tail) + seq!['"'] + r;
        assert(codec_char(c));
        assert(t =~= escape_char(c) + t2);
        assert(s =~= seq![c] + tail);
        if c == '"' || c == '\\' || c == '\n' || c == '\r' || c == '\t' || c == '\u{08}' || c
            == '\u{0c}' {
            assert(t.skip(2) =~= t2);
            assert(t[0] == '\\');
            assert(t[1] == escape_char(c)[1]);
            assert(unescape(t[1]) == Some(c));
            assert(str_body(t) == Ok::<_, Seq<char>>((seq![c] + tail, escape_all(tail).len() + 3)));
        } else {
            assert(!is_control(c));
            assert(escape_char(c) == seq![c]);
            assert(t.drop_first() =~= t2);
            lemma_ascii_units(c);
            assert(t[0] == c);
            assert(str_body(t) == Ok::<_, Seq<char>>((seq![c] + tail, escape_all(tail).len() + 2)));
        }
    }
}

pub proof fn lemma_string_value_quoted(s: Seq<char>, r: Seq<char>)
    requires
        codec_text(s),
    ensures
        string_value(quoted(s) + r) == Ok::<_, Seq<char>>((s, quoted(s).len())),
{
    let t = quoted(s) + r;
    lemma_str_escape(s, r);
    assert(t.drop_first() =~= escape_all(s) + seq!['"'] + r);
}

pub proof fn lemma_ws_none(t: Seq<char>)
    requires
        t.len() > 0,
        !json_ws(t[0]),
    ensures
        ws_len(t) == 0,
{
}

/// `m` is one object member that reads as `p` whatever separator follows it.
pub open spec fn member_reads(m: Seq<char>, p: (Seq<char>, Seq<char>)) -> bool {
    forall|x: Seq<char>|
        x.len() > 0 && (x[0] == ',' || x[0] == '}') ==> #[trigger] read_member(m + x) == Ok::<
            _,
            Seq<char>,
        >((p, m.len()))
}

/// `vt` is a value text that reads as `v` whatever separator follows it.
pub open spec fn value_reads(vt: Seq<char>, v: Seq<char>) -> bool {
    &&& vt.len() > 0
    &&& !json_ws(vt[0])
    &&& forall|x: Seq<char>|
        x.len() > 0 && (x[0] == ',' || x[0] == '}') ==> #[trigger] value(vt + x) == Ok::<
            _,
            Seq<char>,
        >((v, vt.len()))
}

pub proof fn lemma_member_reads(key: Seq<char>, vt: Seq<char>, v: Seq<char>)
    requires
        codec_text(key),
        value_reads(vt, v),
    ensures
        member_reads(member((key, vt)), (key, v)),
{
    let m = member((key, vt));
    assert forall|x: Seq<char>| x.len() > 0 && (x[0] == ',' || x[0] == '}') implies #[trigger] read_member(
        m + x,
    ) == Ok::<_, Seq<char>>(((key, v), m.len())) by {
        let t = m + x;
        let q = quoted(key);
        lemma_string_value_quoted(key, seq![':'] + vt + x);
        assert(t =~= q + (seq![':'] + vt + x));
        let t2 = t.skip(q.len() as int);
        assert(t2 =~= seq![':'] + vt + x);
        lemma_ws_none(t2);
        assert(t2.skip(0) =~= t2);
        let t4 = t2.drop_first();
        assert(t4 =~= vt + x);
        assert(t4[0] == vt[0]);
        lemma_ws_none(t4);
        assert(t4.skip(0) =~= t4);
    }
}

pub proof fn lemma_quoted_reads(s: Seq<char>)
    requires
        codec_text(s),
    ensures
        value_reads(quoted(s), s),
{
    assert forall|x: Seq<char>| x.len() > 0 && (x[0] == ',' || x[0] == '}') implies #[trigger] value(
        quoted(s) + x,
    ) == Ok::<_, Seq<char>>((s, quoted(s).len())) by {
        lemma_string_value_quoted(s, x);
        assert((quoted(s) + x)[0] == '"');
    }
}

pub proof fn lemma_null_reads()
    ensures
        value_reads(null_text(), seq![]),
{
    assert forall|x: Seq<char>| x.len() > 0 && (x[0] == ',' || x[0] == '}') implies #[trigger] value(
        null_text() + x,
    ) == Ok::<_, Seq<char>>((Seq::<char>::empty(), null_text().len())) by {
        let t = null_text() + x;
        assert(t.take(4) =~= null_text());
    }
}

pub proof fn lemma_decimal_reads(n: nat)
    ensures
        value_reads(decimal(n), decimal(n)),
{
    crate::text::lemma_decimal_digits(n);
    let d = decimal(n);
    assert forall|x: Seq<char>| x.len() > 0 && (x[0] == ',' || x[0] == '}') implies #[trigger] value(
        d + x,
    ) == Ok::<_, Seq<char>>((d, d.len())) by {
        let t = d + x;
        assert(t[0] == d[0]);
        assert(crate::text::is_digit_char(d[0]));
        assert forall|k: int| 0 <= k < d.len() implies #[trigger] t[k] != ',' && t[k] != '}' by {
            assert(t[k] == d[k]);
            assert(crate::text::is_digit_char(d[k]));
        }
        assert(t[d.len() as int] == x[0]);
        lemma_raw_len_at(t, d.len() as int);
        assert(t.take(d.len() as int) =~= d);
        assert forall|k: int| 0 <= k < d.len() implies !crate::text::is_space(#[trigger] d[k]) by {
            assert(crate::text::is_digit_char(d[k]));
        }
        crate::text::lemma_lead_space(d, 0);
        assert(d.skip(0) =~= d);
        crate::text::lemma_trail_space(d, d.len() as int);
        assert(d.take(d.len() as int) =~= d);
    }
}

} // verus!

verus! {

pub proof fn lemma_join_front(items: Seq<Seq<char>>)
    requires
        items.len() >= 2,
    ensures
        join(items) == items[0] + seq![','] + join(items.drop_first()),
    decreases items.len(),
{
    let dl = items.drop_last();
    let df = items.drop_first();
    assert(join(items) == join(dl) + seq![','] + items.last());
    if items.len() == 2 {
        assert(join(dl) == dl[0]);
        assert(dl[0] == items[0]);
        assert(join(df) == df[0]);
        assert(df[0] == items[1]);
        assert(items.last() == items[1]);
    } else {
        lemma_join_front(dl);
        assert(dl.drop_first() =~= df.drop_last());
        assert(df.last() == items.last());
        assert(join(df) == join(df.drop_last()) + seq![','] + df.last());
        assert(dl[0] == items[0]);
        assert(join(items) =~= items[0] + seq![','] + join(df));
    }
}

/// One member followed by a separator.
proof fn lemma_members_step(
    m0: Seq<char>,
    p0: (Seq<char>, Seq<char>),
    x: Seq<char>,
    acc: Seq<(Seq<char>, Seq<char>)>,
)
    requires
        member_reads(m0, p0),
        m0.len() > 0 && m0[0] == '"',
        x.len() > 0 && (x[0] == ',' || x[0] == '}'),
    ensures
        x[0] == '}' ==> members(m0 + x, acc) == Ok::<_, Seq<char>>(acc.push(p0)),
        x[0] == ',' ==> members(m0 + x, acc) == members(x.drop_first(), acc.push(p0)),
{
    let t = m0 + x;
    assert(read_member(t) == Ok::<_, Seq<char>>((p0, m0.len())));
    assert(t[0] == '"');
    lemma_ws_none(t);
    assert(t.skip(0) =~= t);
    let t6 = t.skip(m0.len() as int);
    assert(t6 =~= x);
    lemma_ws_none(t6);
    assert(t6.skip(0) =~= t6);
}

/// Members written by `join` read back one by one, then the closing brace.
pub proof fn lemma_members_join(
    ms: Seq<Seq<char>>,
    ps: Seq<(Seq<char>, Seq<char>)>,
    acc: Seq<(Seq<char>, Seq<char>)>,
    r: Seq<char>,
)
    requires
        ms.len() >= 1,
        ms.len() == ps.len(),
        forall|i: int| 0 <= i < ms.len() ==> member_reads(#[trigger] ms[i], ps[i]),
        forall|i: int| 0 <= i < ms.len() ==> (#[trigger] ms[i]).len() > 0 && ms[i][0] == '"',
    ensures
        members(join(ms) + seq!['}'] + r, acc) == Ok::<_, Seq<char>>(acc + ps),
    decreases ms.len(),
{
    let m0 = ms[0];
    assert(member_reads(m0, ps[0]));
    assert(m0.len() > 0 && m0[0] == '"');
    if ms.len() == 1 {
        let x = seq!['}'] + r;
        assert(join(ms) + seq!['}'] + r =~= m0 + x);
        lemma_members_step(m0, ps[0], x, acc);
        assert(acc.push(ps[0]) =~= acc + ps);
    } else {
        lemma_join_front(ms);
        let rest = ms.drop_first();
        let x = seq![','] + join(rest) + seq!['}'] + r;
        assert(join(ms) + seq!['}'] + r =~= m0 + x);
        lemma_members_step(m0, ps[0], x, acc);
        assert(x.drop_first() =~= join(rest) + seq!['}'] + r);
        let pr = ps.drop_first();
        assert forall|i: int| 0 <= i < rest.len() implies member_reads(#[trigger] rest[i], pr[i]) by {
            assert(rest[i] == ms[i + 1]);
            assert(pr[i] == ps[i + 1]);
            assert(member_reads(ms[i + 1], ps[i + 1]));
        }
        assert forall|i: int| 0 <= i < rest.len() implies (#[trigger] rest[i]).len() > 0 && rest[i][0]
            == '"' by {
            assert(rest[i] == ms[i + 1]);
        }
        lemma_members_join(rest, pr, acc.push(ps[0]), r);
        assert(acc.push(ps[0]) + pr =~= acc + ps);
    }
}

/// An object whose keys and values read back reads back as its pairs.
pub proof fn lemma_object_reads(fields: Seq<(Seq<char>, Seq<char>)>, ps: Seq<(Seq<char>, Seq<char>)>)
    requires
        fields.len() >= 1,
        fields.len() == ps.len(),
        forall|i: int|
            0 <= i < fields.len() ==> codec_text((#[trigger] fields[i]).0) && ps[i].0 == fields[i].0
                && value_reads(fields[i].1, ps[i].1),
    ensures
        parse_obj(object(fields)) == Ok::<_, Seq<char>>(ps),
{
    let ms = fields.map_values(|f: (Seq<char>, Seq<char>)| member(f));
    assert forall|i: int| 0 <= i < ms.len() implies member_reads(#[trigger] ms[i], ps[i]) by {
        let f = fields[i];
        lemma_member_reads(f.0, f.1, ps[i].1);
        assert(ms[i] == member(f));
        assert(ps[i] == (f.0, ps[i].1));
    }
    assert forall|i: int| 0 <= i < ms.len() implies (#[trigger] ms[i]).len() > 0 && ms[i][0] == '"' by {
        assert(ms[i] == member(fields[i]));
    }
    let s = object(fields);
    assert(s[0] == '{');
    lemma_ws_none(s);
    assert(s.skip(0) =~= s);
    assert(s.drop_first() =~= join(ms) + seq!['}'] + Seq::<char>::empty());
    lemma_members_join(ms, ps, seq![], Seq::<char>::empty());
    assert(Seq::<(Seq<char>, Seq<char>)>::empty() + ps =~= ps);
}

} // verus!

verus! {

// ---------------------------------------------------------------------------
// White space between tokens
// ---------------------------------------------------------------------------

/// Every character of `w` is a space, a line feed, a carriage return or a tab.
pub open spec fn blank(w: Seq<char>) -> bool {
    forall|i: int|
        0 <= i < w.len() ==> #[trigger] w[i] == ' ' || w[i] == '\n' || w[i] == '\r' || w[i]
            == '\t'
}

/// White space in front of a text is skipped before the text's own.
pub proof fn lemma_ws_skip(w: Seq<char>, s: Seq<char>)
    requires
        blank(w),
    ensures
        ws_len(w + s) == w.len() + ws_len(s),
    decreases w.len(),
{
    if w.len() > 0 {
        let t = w + s;
        assert(t[0] == w[0]);
        assert(t.drop_first() =~= w.drop_first() + s);
        assert forall|i: int| 0 <= i < w.drop_first().len() implies #[trigger] w.drop_first()[i]
            == ' ' || w.drop_first()[i] == '\n' || w.drop_first()[i] == '\r' || w.drop_first()[i]
            == '\t' by {
            assert(w.drop_first()[i] == w[i + 1]);
        }
        lemma_ws_skip(w.drop_first(), s);
    } else {
        assert(w + s =~= s);
    }
}

/// White space before the opening brace does not change what is read.
pub proof fn lemma_parse_blank_prefix(w: Seq<char>, s: Seq<char>)
    requires
        blank(w),
    ensures
        parse_obj(w + s) == parse_obj(s),
{
    lemma_ws_skip(w, s);
    lemma_ws_len_bound(s);
    let t = w + s;
    assert(t.skip(ws_len(t) as int) =~= s.skip(ws_len(s) as int));
}

/// White space at the start of the members (after `{` or after a `,`) does not
/// change what is read.
pub proof fn lemma_members_blank_prefix(
    w: Seq<char>,
    t: Seq<char>,
    acc: Seq<(Seq<char>, Seq<char>)>,
)
    requires
        blank(w),
    ensures
        members(w + t, acc) == members(t, acc),
{
    lemma_ws_skip(w, t);
    lemma_ws_len_bound(t);
    let u = w + t;
    assert(u.skip(ws_len(u) as int) =~= t.skip(ws_len(t) as int));
}

/// The blanks around one member: before its key, before and after its colon,
/// and after its value.
pub open spec fn spaced_member(
    f: (Seq<char>, Seq<char>),
    g: (Seq<char>, Seq<char>, Seq<char>, Seq<char>),
) -> Seq<char> {
    g.0 + quoted(f.0) + g.1 + seq![':'] + g.2 + quoted(f.1) + g.3
}

pub open spec fn spaced_members(
    fields: Seq<(Seq<char>, Seq<char>)>,
    gaps: Seq<(Seq<char>, Seq<char>, Seq<char>, Seq<char>)>,
) -> Seq<Seq<char>> {
    Seq::new(fields.len(), |i: int| spaced_member(fields[i], gaps[i]))
}

/// An object of string members with white space `w` before its brace and the
/// given blanks around each member.
pub open spec fn spaced_object(
    w: Seq<char>,
    fields: Seq<(Seq<char>, Seq<char>)>,
    gaps: Seq<(Seq<char>, Seq<char>, Seq<char>, Seq<char>)>,
) -> Seq<char> {
    w + seq!['{'] + join(spaced_members(fields, gaps)) + seq!['}']
}

pub open spec fn blank_gaps(g: (Seq<char>, Seq<char>, Seq<char>, Seq<char>)) -> bool {
    blank(g.0) && blank(g.1) && blank(g.2) && blank(g.3)
}

/// What `members` does with `m` followed by a separator: it reads `p`, then
/// stops at a `}` or goes on after a `,`.
pub open spec fn member_then(m: Seq<char>, p: (Seq<char>, Seq<char>)) -> bool {
    forall|x: Seq<char>, acc: Seq<(Seq<char>, Seq<char>)>|
        x.len() > 0 && (x[0] == ',' || x[0] == '}') ==> #[trigger] members(m + x, acc) == if x[0]
            == '}' {
            Ok::<_, Seq<char>>(acc.push(p))
        } else {
            members(x.drop_first(), acc.push(p))
        }
}

proof fn lemma_quoted_start(s: Seq<char>, r: Seq<char>)
    ensures
        ws_len(quoted(s) + r) == 0,
{
    assert((quoted(s) + r)[0] == '"');
}

/// One member with its blanks, up to its value.
proof fn lemma_spaced_read_member(
    f: (Seq<char>, Seq<char>),
    g: (Seq<char>, Seq<char>, Seq<char>, Seq<char>),
    y: Seq<char>,
)
    requires
        codec_text(f.0),
        codec_text(f.1),
        blank_gaps(g),
    ensures
        read_member(quoted(f.0) + g.1 + seq![':'] + g.2 + quoted(f.1) + y) == Ok::<_, Seq<char>>(
            (f, quoted(f.0).len() + g.1.len() + 1 + g.2.len() + quoted(f.1).len()),
        ),
{
    let qk = quoted(f.0);
    let qv = quoted(f.1);
    let after_key = g.1 + seq![':'] + g.2 + qv + y;
    let t1 = qk + g.1 + seq![':'] + g.2 + qv + y;
    assert(t1 =~= qk + after_key);
    lemma_string_value_quoted(f.0, after_key);
    let t2 = t1.skip(qk.len() as int);
    assert(t2 =~= after_key);
    let colon = seq![':'] + g.2 + qv + y;
    assert(after_key =~= g.1 + colon);
    lemma_ws_skip(g.1, colon);
    lemma_ws_none(colon);
    let t3 = t2.skip(ws_len(t2) as int);
    assert(t3 =~= colon);
    let t4 = t3.drop_first();
    assert(t4 =~= g.2 + (qv + y));
    lemma_ws_skip(g.2, qv + y);
    lemma_quoted_start(f.1, y);
    assert(t4.skip(ws_len(t4) as int) =~= qv + y);
    lemma_string_value_quoted(f.1, y);
    assert((qv + y)[0] == '"');
}

/// One member with its blanks, then its separator.
proof fn lemma_spaced_member_step(
    f: (Seq<char>, Seq<char>),
    g: (Seq<char>, Seq<char>, Seq<char>, Seq<char>),
    x: Seq<char>,
    acc: Seq<(Seq<char>, Seq<char>)>,
)
    requires
        codec_text(f.0),
        codec_text(f.1),
        blank_gaps(g),
        x.len() > 0 && (x[0] == ',' || x[0] == '}'),
    ensures
        members(spaced_member(f, g) + x, acc) == if x[0] == '}' {
            Ok::<_, Seq<char>>(acc.push(f))
        } else {
            members(x.drop_first(), acc.push(f))
        },
{
    let qk = quoted(f.0);
    let qv = quoted(f.1);
    let t = spaced_member(f, g) + x;
    let y = g.3 + x;
    let t1 = qk + g.1 + seq![':'] + g.2 + qv + y;
    assert(t =~= g.0 + t1);
    lemma_quoted_start(f.0, g.1 + seq![':'] + g.2 + qv + y);
    assert(t1 =~= qk + (g.1 + seq![':'] + g.2 + qv + y));
    lemma_ws_skip(g.0, t1);
    assert(t.skip(ws_len(t) as int) =~= t1);
    assert(t1[0] == '"');
    lemma_spaced_read_member(f, g, y);
    let mlen = qk.len() + g.1.len() + 1 + g.2.len() + qv.len();
    let t6 = t1.skip(mlen as int);
    assert(t6 =~= g.3 + x);
    lemma_ws_skip(g.3, x);
    lemma_ws_none(x);
    assert(t6.skip(ws_len(t6) as int) =~= x);
}

proof fn lemma_spaced_member_then(f: (Seq<char>, Seq<char>), g: (Seq<char>, Seq<char>, Seq<char>, Seq<char>))
    requires
        codec_text(f.0),
        codec_text(f.1),
        blank_gaps(g),
    ensures
        member_then(spaced_member(f, g), f),
{
    assert forall|x: Seq<char>, acc: Seq<(Seq<char>, Seq<char>)>|
        x.len() > 0 && (x[0] == ',' || x[0] == '}') implies #[trigger] members(spaced_member(f, g) + x, acc) == if x[0]
            == '}' {
            Ok::<_, Seq<char>>(acc.push(f))
        } else {
            members(x.drop_first(), acc.push(f))
        } by {
        lemma_spaced_member_step(f, g, x, acc);
    }
}

/// Members joined with commas, each read as its pair, then the closing brace.
proof fn lemma_members_then_join(
    ms: Seq<Seq<char>>,
    ps: Seq<(Seq<char>, Seq<char>)>,
    acc: Seq<(Seq<char>, Seq<char>)>,
    r: Seq<char>,
)
    requires
        ms.len() >= 1,
        ms.len() == ps.len(),
        forall|i: int| 0 <= i < ms.len() ==> member_then(#[trigger] ms[i], ps[i]),
    ensures
        members(join(ms) + seq!['}'] + r, acc) == Ok::<_, Seq<char>>(acc + ps),
    decreases ms.len(),
{
    let m0 = ms[0];
    assert(member_then(m0, ps[0]));
    if ms.len() == 1 {
        let x = seq!['}'] + r;
        assert(join(ms) + seq!['}'] + r =~= m0 + x);
        assert(members(m0 + x, acc) == Ok::<_, Seq<char>>(acc.push(ps[0])));
        assert(acc.push(ps[0]) =~= acc + ps);
    } else {
        lemma_join_front(ms);
        let rest = ms.drop_first();
        let x = seq![','] + join(rest) + seq!['}'] + r;
        assert(join(ms) + seq!['}'] + r =~= m0 + x);
        assert(members(m0 + x, acc) == members(x.drop_first(), acc.push(ps[0])));
        assert(x.drop_first() =~= join(rest) + seq!['}'] + r);
        let pr = ps.drop_first();
        assert forall|i: int| 0 <= i < rest.len() implies member_then(#[trigger] rest[i], pr[i]) by {
            assert(rest[i] == ms[i + 1]);
            assert(pr[i] == ps[i + 1]);
            assert(member_then(ms[i + 1], ps[i + 1]));
        }
        lemma_members_then_join(rest, pr, acc.push(ps[0]), r);
        assert(acc.push(ps[0]) + pr =~= acc + ps);
    }
}

/// JSON white space (spaces, line feeds, carriage returns, tabs) before the
/// brace and around every key, colon and value of an object of strings does not
/// change what `parse_object` reads: the pairs, in order.
pub proof fn lemma_spaced_object_reads(
    w: Seq<char>,
    fields: Seq<(Seq<char>, Seq<char>)>,
    gaps: Seq<(Seq<char>, Seq<char>, Seq<char>, Seq<char>)>,
)
    requires
        blank(w),
        fields.len() >= 1,
        gaps.len() == fields.len(),
        forall|i: int|
            0 <= i < fields.len() ==> codec_text((#[trigger] fields[i]).0) && codec_text(
                fields[i].1,
            ),
        forall|i: int| 0 <= i < gaps.len() ==> blank_gaps(#[trigger] gaps[i]),
    ensures
        parse_obj(spaced_object(w, fields, gaps)) == Ok::<_, Seq<char>>(fields),
{
    let ms = spaced_members(fields, gaps);
    assert forall|i: int| 0 <= i < ms.len() implies member_then(#[trigger] ms[i], fields[i]) by {
        assert(codec_text(fields[i].0));
        assert(blank_gaps(gaps[i]));
        lemma_spaced_member_then(fields[i], gaps[i]);
    }
    let body = seq!['{'] + join(ms) + seq!['}'];
    assert(spaced_object(w, fields, gaps) =~= w + body);
    lemma_parse_blank_prefix(w, body);
    lemma_ws_none(body);
    assert(body.skip(0) =~= body);
    assert(body.drop_first() =~= join(ms) + seq!['}'] + Seq::<char>::empty());
    lemma_members_then_join(ms, fields, seq![], Seq::<char>::empty());
    assert(Seq::<(Seq<char>, Seq<char>)>::empty() + fields =~= fields);
}

} // verus!
