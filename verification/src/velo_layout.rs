//! How tracked tweets are laid out in the Velo-Lite key-value store: the keys,
//! the index of tweet ids, the id counter, and the order of listings.
use vstd::prelude::*;
use vstd::utf8::encode_utf8;
use crate::http::{first_at, lemma_split_once_at, split_all, split_once, str_views};
use crate::model::{Status, TrackedTweet, TweetView, tweet_views};
use crate::store::matches_status;
use crate::date::{
    civil_from, iso_of, iso_parts, lemma_civil_monotone, lemma_civil_ranges, lemma_iso_chars,
    year_10000,
};
use crate::text::{
    all_digits, bytes_of, chars_of, decimal, digits_value, is_digit_byte, is_digit_char,
    lemma_decimal_small, lemma_padded, padded, parse_int,
    pow10, push_decimal, push_str, string_of_range,
};

verus! {

/// The key of the index of tracked tweet ids.
pub const INDEX_KEY: &'static str = "followup:index:tracked_tweets";

/// The key of the id counter.
pub const NEXT_ID_KEY: &'static str = "followup:meta:next_id";

// ---------------------------------------------------------------------------
// Keys
// ---------------------------------------------------------------------------

pub open spec fn key_of(tweet_id: Seq<char>) -> Seq<char> {
    "followup:tweet:"@ + tweet_id
}

/// The key under which the record of `tweet_id` is stored.
pub fn tweet_key(tweet_id: &str) -> (r: String)
    ensures
        r@ == key_of(tweet_id@),
{
    let mut k = String::new();
    push_str(&mut k, "followup:tweet:");
    push_str(&mut k, tweet_id);
    k
}

// ---------------------------------------------------------------------------
// The index
// ---------------------------------------------------------------------------

/// The pieces that are not empty, in order.
pub open spec fn kept(pieces: Seq<Seq<char>>) -> Seq<Seq<char>>
    decreases pieces.len(),
{
    if pieces.len() == 0 {
        seq![]
    } else {
        (if pieces[0].len() > 0 {
            seq![pieces[0]]
        } else {
            seq![]
        }) + kept(pieces.drop_first())
    }
}

/// The ids an index holds: its lines that are not empty.
pub open spec fn index_of(raw: Seq<char>) -> Seq<Seq<char>> {
    kept(split_all(raw, '\n'))
}

/// The ids of the stored index (none when there is no index yet).
pub fn index_ids(raw: Option<&str>) -> (r: Vec<String>)
    ensures
        str_views(r@) == match raw {
            Some(s) => index_of(s@),
            None => index_of(Seq::<char>::empty()),
        },
{
    let s: &str = match raw {
        Some(s) => s,
        None => "",
    };
    proof {
        reveal_strlit("");
    }
    let v = chars_of(s);
    let mut out: Vec<String> = Vec::new();
    let mut pos: usize = 0;
    assert(v@.subrange(0, v@.len() as int) =~= v@);
    assert(str_views(out@) + index_of(v@) =~= index_of(v@));
    loop
        invariant
            pos <= v.len(),
            v@ == s@,
            s@ == match raw {
                Some(x) => x@,
                None => Seq::<char>::empty(),
            },
            index_of(v@) == str_views(out@) + index_of(v@.subrange(pos as int, v@.len() as int)),
        decreases v.len() - pos,
    {
        let ghost rest = v@.subrange(pos as int, v@.len() as int);
        let ghost before = str_views(out@);
        match crate::http::find_in(&v, pos, v.len(), '\n') {
            None => {
                assert(split_all(rest, '\n') =~= seq![rest]);
                assert(seq![rest].drop_first() =~= Seq::<Seq<char>>::empty());
                reveal_with_fuel(kept, 2);
                if pos < v.len() {
                    out.push(string_of_range(&v, pos, v.len()));
                    assert(str_views(out@) =~= before.push(rest));
                    assert(kept(seq![rest]) =~= seq![rest]);
                } else {
                    assert(kept(seq![rest]) =~= Seq::<Seq<char>>::empty());
                }
                assert(index_of(v@) =~= str_views(out@));
                return out;
            },
            Some(nl) => {
                proof {
                    lemma_split_once_at(rest, '\n', nl - pos);
                    assert(rest.take(nl - pos) =~= v@.subrange(pos as int, nl as int));
                    assert(rest.skip(nl - pos + 1) =~= v@.subrange(nl + 1, v@.len() as int));
                }
                let ghost piece = v@.subrange(pos as int, nl as int);
                let ghost tail = v@.subrange(nl + 1, v@.len() as int);
                assert(split_all(rest, '\n') == seq![piece] + split_all(tail, '\n'));
                assert((seq![piece] + split_all(tail, '\n')).drop_first() =~= split_all(tail, '\n'));
                if nl > pos {
                    out.push(string_of_range(&v, pos, nl));
                    assert(str_views(out@) =~= before.push(piece));
                    assert(index_of(rest) =~= seq![piece] + index_of(tail));
                } else {
                    assert(index_of(rest) =~= index_of(tail));
                }
                assert(before + index_of(rest) =~= str_views(out@) + index_of(tail));
                pos = nl + 1;
            },
        }
    }
}

/// The ids joined by line breaks.
pub open spec fn joined(ids: Seq<Seq<char>>) -> Seq<char>
    decreases ids.len(),
{
    if ids.len() == 0 {
        seq![]
    } else if ids.len() == 1 {
        ids[0]
    } else {
        joined(ids.drop_last()) + seq!['\n'] + ids.last()
    }
}

/// The index text of a list of ids.
pub fn index_text(ids: &Vec<String>) -> (r: String)
    ensures
        r@ == joined(str_views(ids@)),
{
    let ghost s = str_views(ids@);
    let mut out = String::new();
    let mut i: usize = 0;
    while i < ids.len()
        invariant
            0 <= i <= ids.len(),
            s == str_views(ids@),
            out@ == joined(s.take(i as int)),
        decreases ids.len() - i,
    {
        if i > 0 {
            push_str(&mut out, "\n");
            proof {
                reveal_strlit("\n");
            }
        }
        push_str(&mut out, ids[i].as_str());
        assert(s.take(i + 1).drop_last() =~= s.take(i as int));
        assert(s[i as int] == ids@[i as int]@);
        i = i + 1;
    }
    assert(s.take(s.len() as int) =~= s);
    out
}

/// The index with `tweet_id` added at its end, or `None` when it holds it already.
pub fn index_with(index: &Vec<String>, tweet_id: &str) -> (r: Option<Vec<String>>)
    ensures
        match r {
            Some(v) => !str_views(index@).contains(tweet_id@) && str_views(v@) == str_views(
                index@,
            ).push(tweet_id@),
            None => str_views(index@).contains(tweet_id@),
        },
{
    let ghost s = str_views(index@);
    let mut i: usize = 0;
    while i < index.len()
        invariant
            0 <= i <= index.len(),
            s == str_views(index@),
            forall|k: int| 0 <= k < i ==> s[k] != tweet_id@,
        decreases index.len() - i,
    {
        if crate::text::same_text(index[i].as_str(), tweet_id) {
            assert(s[i as int] == tweet_id@);
            return None;
        }
        i = i + 1;
    }
    let mut v: Vec<String> = Vec::new();
    let mut j: usize = 0;
    while j < index.len()
        invariant
            0 <= j <= index.len(),
            s == str_views(index@),
            str_views(v@) == s.take(j as int),
        decreases index.len() - j,
    {
        let ghost before = str_views(v@);
        v.push(index[j].clone());
        assert(str_views(v@) =~= before.push(s[j as int]));
        assert(s.take(j + 1) =~= s.take(j as int).push(s[j as int]));
        j = j + 1;
    }
    let ghost before = str_views(v@);
    v.push(tweet_id.to_owned());
    assert(s.take(s.len() as int) =~= s);
    assert(str_views(v@) =~= before.push(tweet_id@));
    Some(v)
}

// ---------------------------------------------------------------------------
// The id counter
// ---------------------------------------------------------------------------

/// The id the counter holds: its text, or `1` when it is not set yet.
pub open spec fn counter_of(stored: Option<Seq<char>>) -> Option<int> {
    match stored {
        Some(s) => parse_int(encode_utf8(s), 0, u64::MAX as int),
        None => Some(1),
    }
}

/// The id to hand out and the counter's next text: the stored counter (`1` when
/// unset) must read as a `u64`; the counter moves one up.
pub fn next_id_step(stored: Option<String>) -> (r: Result<(u64, String), String>)
    ensures
        match r {
            Ok((id, next)) => counter_of(crate::model::opt_view(stored)) == Some(id as int) && id
                < u64::MAX && next@ == decimal((id + 1) as nat),
            Err(e) => match counter_of(crate::model::opt_view(stored)) {
                None => e@ == "invalid next id in Velo-Lite"@,
                Some(v) => v == u64::MAX && e@ == "id space exhausted"@,
            },
        },
{
    let current: u64 = match stored {
        Some(s) => {
            let b = s.as_str().as_bytes();
            assert(b@.subrange(0, b@.len() as int) =~= b@);
            match crate::text::parse_unsigned(b, 0, b.len(), u64::MAX) {
                Some(v) => v,
                None => {
                    return Err("invalid next id in Velo-Lite".to_owned());
                },
            }
        },
        None => 1,
    };
    if current == u64::MAX {
        return Err("id space exhausted".to_owned());
    }
    let mut next = String::new();
    push_decimal(&mut next, current + 1);
    Ok((current, next))
}

} // verus!

verus! {

// ---------------------------------------------------------------------------
// Listings
// ---------------------------------------------------------------------------

/// `a` comes before `b` in the order of `str`: by code point, and a proper
/// prefix first. For UTF-8 text this is the order of the bytes too.
pub open spec fn text_before(a: Seq<char>, b: Seq<char>) -> bool
    decreases a.len(),
{
    if a.len() == 0 {
        b.len() > 0
    } else if b.len() == 0 {
        false
    } else if a[0] != b[0] {
        (a[0] as u32) < (b[0] as u32)
    } else {
        text_before(a.drop_first(), b.drop_first())
    }
}

/// The order of a listing: by expiry time text, then by id.
pub open spec fn listed_before(a: TweetView, b: TweetView) -> bool {
    text_before(a.expire_at, b.expire_at) || (a.expire_at == b.expire_at && a.id < b.id)
}

/// `t` put into the ordered `s` after every record it does not come before.
pub open spec fn insert_in_order(s: Seq<TweetView>, t: TweetView) -> Seq<TweetView>
    decreases s.len(),
{
    if s.len() == 0 {
        seq![t]
    } else if listed_before(t, s.last()) {
        insert_in_order(s.drop_last(), t).push(s.last())
    } else {
        s.push(t)
    }
}

/// `s` in listing order; records that tie keep their order (a stable sort).
pub open spec fn in_listing_order(s: Seq<TweetView>) -> Seq<TweetView>
    decreases s.len(),
{
    if s.len() == 0 {
        s
    } else {
        insert_in_order(in_listing_order(s.drop_last()), s.last())
    }
}

/// The records found, with the given status (all for `None`), in order.
pub open spec fn chosen(found: Seq<Option<TweetView>>, status: Option<Status>) -> Seq<TweetView>
    decreases found.len(),
{
    if found.len() == 0 {
        seq![]
    } else {
        let rest = chosen(found.drop_last(), status);
        match found.last() {
            Some(t) => if matches_status(t, status) {
                rest.push(t)
            } else {
                rest
            },
            None => rest,
        }
    }
}

pub open spec fn found_views(v: Seq<Option<TrackedTweet>>) -> Seq<Option<TweetView>> {
    v.map_values(|o: Option<TrackedTweet>| match o {
        Some(t) => Some(t@),
        None => None,
    })
}

proof fn lemma_text_before_skip(a: Seq<char>, b: Seq<char>, i: int)
    requires
        0 <= i <= a.len(),
        i <= b.len(),
        a.take(i) == b.take(i),
    ensures
        text_before(a, b) == text_before(a.skip(i), b.skip(i)),
    decreases i,
{
    if i > 0 {
        assert(a[0] == a.take(i)[0]);
        assert(b[0] == b.take(i)[0]);
        assert(a.drop_first().take(i - 1) =~= a.take(i).drop_first());
        assert(b.drop_first().take(i - 1) =~= b.take(i).drop_first());
        lemma_text_before_skip(a.drop_first(), b.drop_first(), i - 1);
        assert(a.drop_first().skip(i - 1) =~= a.skip(i));
        assert(b.drop_first().skip(i - 1) =~= b.skip(i));
    } else {
        assert(a.skip(0) =~= a);
        assert(b.skip(0) =~= b);
    }
}

/// Whether `a` comes before `b` in the order of `str`.
fn text_less(a: &str, b: &str) -> (r: bool)
    ensures
        r == text_before(a@, b@),
{
    let va = chars_of(a);
    let vb = chars_of(b);
    let mut i: usize = 0;
    while i < va.len() && i < vb.len() && va[i] == vb[i]
        invariant
            i <= va.len(),
            i <= vb.len(),
            va@.take(i as int) == vb@.take(i as int),
        decreases va.len() - i,
    {
        assert(va@.take(i + 1) =~= va@.take(i as int).push(va@[i as int]));
        assert(vb@.take(i + 1) =~= vb@.take(i as int).push(vb@[i as int]));
        i = i + 1;
    }
    proof {
        lemma_text_before_skip(va@, vb@, i as int);
    }
    if i == va.len() {
        i < vb.len()
    } else if i == vb.len() {
        false
    } else {
        assert(va@.skip(i as int)[0] == va@[i as int]);
        assert(vb@.skip(i as int)[0] == vb@[i as int]);
        (va[i] as u32) < (vb[i] as u32)
    }
}

/// Whether `a` comes before `b` in a listing.
fn comes_before(a: &TrackedTweet, b: &TrackedTweet) -> (r: bool)
    ensures
        r == listed_before(a@, b@),
{
    if text_less(a.expire_at.as_str(), b.expire_at.as_str()) {
        true
    } else {
        crate::text::same_text(a.expire_at.as_str(), b.expire_at.as_str()) && a.id < b.id
    }
}

proof fn lemma_insert_at(s: Seq<TweetView>, t: TweetView, j: int)
    requires
        0 <= j <= s.len(),
        forall|k: int| j <= k < s.len() ==> listed_before(t, #[trigger] s[k]),
        j == 0 || !listed_before(t, s[j - 1]),
    ensures
        insert_in_order(s, t) == s.insert(j, t),
    decreases s.len(),
{
    if s.len() == 0 {
        assert(s.insert(j, t) =~= seq![t]);
    } else if j == s.len() {
        assert(s.insert(j, t) =~= s.push(t));
    } else {
        let d = s.drop_last();
        assert forall|k: int| j <= k < d.len() implies listed_before(t, #[trigger] d[k]) by {
            assert(d[k] == s[k]);
        }
        if j > 0 {
            assert(d[j - 1] == s[j - 1]);
        }
        lemma_insert_at(d, t, j);
        assert(d.insert(j, t).push(s.last()) =~= s.insert(j, t));
    }
}

/// The records found, with the given status, in listing order: by expiry time
/// text, then by id, ties keeping the order found.
pub fn listing_of(found: &Vec<Option<TrackedTweet>>, status: Option<Status>) -> (r: Vec<
    TrackedTweet,
>)
    ensures
        tweet_views(r@) == in_listing_order(chosen(found_views(found@), status)),
{
    let ghost fv = found_views(found@);
    let mut out: Vec<TrackedTweet> = Vec::new();
    let mut i: usize = 0;
    while i < found.len()
        invariant
            0 <= i <= found.len(),
            fv == found_views(found@),
            tweet_views(out@) == in_listing_order(chosen(fv.take(i as int), status)),
        decreases found.len() - i,
    {
        let ghost prefix = fv.take(i + 1);
        assert(prefix.drop_last() =~= fv.take(i as int));
        assert(prefix.last() == fv[i as int]);
        match &found[i] {
            Some(t) => {
                let keep = match status {
                    Some(s) => t.status == s,
                    None => true,
                };
                if keep {
                    let ghost s = tweet_views(out@);
                    let mut j: usize = out.len();
                    while j > 0 && comes_before(t, &out[j - 1])
                        invariant
                            j <= out.len(),
                            s == tweet_views(out@),
                            forall|k: int| j <= k < s.len() ==> listed_before(t@, #[trigger] s[k]),
                        decreases j,
                    {
                        assert(s[j - 1] == out@[j - 1]@);
                        j = j - 1;
                    }
                    proof {
                        if j > 0 {
                            assert(s[j - 1] == out@[j - 1]@);
                        }
                        lemma_insert_at(s, t@, j as int);
                    }
                    out.insert(j, t.copied());
                    assert(tweet_views(out@) =~= s.insert(j as int, t@));
                    assert(fv[i as int] == Some(t@));
                    assert(chosen(prefix, status) == chosen(fv.take(i as int), status).push(t@));
                    assert(chosen(fv.take(i as int), status).push(t@).drop_last() =~= chosen(
                        fv.take(i as int),
                        status,
                    ));
                } else {
                    assert(fv[i as int] == Some(t@));
                    assert(chosen(prefix, status) == chosen(fv.take(i as int), status));
                }
            },
            None => {
                assert(chosen(prefix, status) == chosen(fv.take(i as int), status));
            },
        }
        i = i + 1;
    }
    assert(fv.take(fv.len() as int) =~= fv);
    out
}

} // verus!

verus! {

// ---------------------------------------------------------------------------
// The index reads back what was written
// ---------------------------------------------------------------------------

/// An id the index can hold: not empty, without a line break.
pub open spec fn index_safe(id: Seq<char>) -> bool {
    id.len() > 0 && !id.contains('\n')
}

proof fn lemma_joined_front(x: Seq<char>, rest: Seq<Seq<char>>)
    requires
        rest.len() >= 1,
    ensures
        joined(seq![x] + rest) == x + seq!['\n'] + joined(rest),
    decreases rest.len(),
{
    let s = seq![x] + rest;
    assert(s.len() >= 2);
    assert(joined(s) == joined(s.drop_last()) + seq!['\n'] + s.last());
    if rest.len() == 1 {
        assert(s.drop_last() =~= seq![x]);
        assert(joined(seq![x]) == x);
        assert(s.last() == rest[0]);
    } else {
        assert(s.drop_last() =~= seq![x] + rest.drop_last());
        lemma_joined_front(x, rest.drop_last());
        assert(s.last() == rest.last());
        assert(joined(rest) == joined(rest.drop_last()) + seq!['\n'] + rest.last());
        assert(x + seq!['\n'] + joined(rest.drop_last()) + seq!['\n'] + rest.last() =~= x
            + seq!['\n'] + (joined(rest.drop_last()) + seq!['\n'] + rest.last()));
    }
}

proof fn lemma_split_no_break(x: Seq<char>)
    requires
        !x.contains('\n'),
    ensures
        split_all(x, '\n') == seq![x],
{
    assert forall|i: int| !first_at(x, '\n', i) by {
        if 0 <= i < x.len() {
            assert(x[i] != '\n');
        }
    }
}

proof fn lemma_split_at_break(x: Seq<char>, y: Seq<char>)
    requires
        !x.contains('\n'),
    ensures
        split_all(x + seq!['\n'] + y, '\n') == seq![x] + split_all(y, '\n'),
{
    let s = x + seq!['\n'] + y;
    assert(first_at(s, '\n', x.len() as int)) by {
        assert forall|j: int| 0 <= j < x.len() implies s[j] != '\n' by {
            assert(s[j] == x[j]);
        }
    }
    lemma_split_once_at(s, '\n', x.len() as int);
    assert(s.take(x.len() as int) =~= x);
    assert(s.skip(x.len() as int + 1) =~= y);
}

/// Reading an index back gives the ids that were written, when each id is
/// neither empty nor holds a line break.
pub proof fn lemma_index_round_trip(ids: Seq<Seq<char>>)
    requires
        forall|i: int| 0 <= i < ids.len() ==> index_safe(#[trigger] ids[i]),
    ensures
        index_of(joined(ids)) == ids,
    decreases ids.len(),
{
    if ids.len() == 0 {
        lemma_split_no_break(Seq::<char>::empty());
        reveal_with_fuel(kept, 2);
        assert(seq![Seq::<char>::empty()].drop_first() =~= Seq::<Seq<char>>::empty());
    } else {
        let x = ids[0];
        let rest = ids.drop_first();
        assert(index_safe(ids[0]));
        assert(ids =~= seq![x] + rest);
        if rest.len() == 0 {
            assert(joined(ids) == x);
            lemma_split_no_break(x);
            reveal_with_fuel(kept, 2);
            assert(seq![x].drop_first() =~= Seq::<Seq<char>>::empty());
        } else {
            assert forall|i: int| 0 <= i < rest.len() implies index_safe(#[trigger] rest[i]) by {
                assert(rest[i] == ids[i + 1]);
            }
            lemma_index_round_trip(rest);
            lemma_joined_front(x, rest);
            lemma_split_at_break(x, joined(rest));
            let parts = seq![x] + split_all(joined(rest), '\n');
            assert(parts.drop_first() =~= split_all(joined(rest), '\n'));
            assert(kept(parts) =~= seq![x] + kept(split_all(joined(rest), '\n')));
        }
    }
}

} // verus!

verus! {

// ---------------------------------------------------------------------------
// Listings are ordered and lose nothing
// ---------------------------------------------------------------------------

proof fn lemma_text_irreflexive(a: Seq<char>)
    ensures
        !text_before(a, a),
    decreases a.len(),
{
    if a.len() > 0 {
        lemma_text_irreflexive(a.drop_first());
    }
}

proof fn lemma_text_transitive(a: Seq<char>, b: Seq<char>, c: Seq<char>)
    requires
        text_before(a, b),
        text_before(b, c),
    ensures
        text_before(a, c),
    decreases a.len(),
{
    if a.len() > 0 && a[0] == b[0] && b[0] == c[0] {
        lemma_text_transitive(a.drop_first(), b.drop_first(), c.drop_first());
    }
}

proof fn lemma_text_total(a: Seq<char>, b: Seq<char>)
    requires
        a != b,
    ensures
        text_before(a, b) || text_before(b, a),
    decreases a.len(),
{
    if a.len() > 0 && b.len() > 0 && a[0] == b[0] {
        if a.drop_first() == b.drop_first() {
            assert(a =~= seq![a[0]] + a.drop_first());
            assert(b =~= seq![b[0]] + b.drop_first());
        }
        lemma_text_total(a.drop_first(), b.drop_first());
    } else if a.len() > 0 && b.len() > 0 {
        vstd::utf8::char_u32_cast(a[0], a[0] as u32);
        vstd::utf8::char_u32_cast(b[0], b[0] as u32);
    } else if a.len() == 0 && b.len() == 0 {
        assert(a =~= b);
    }
}

/// The order of listings is a strict order whose "not before" is transitive.
proof fn lemma_order_facts(a: TweetView, b: TweetView, c: TweetView)
    ensures
        !listed_before(a, a),
        listed_before(a, b) ==> !listed_before(b, a),
        !listed_before(a, b) && !listed_before(b, c) ==> !listed_before(a, c),
{
    let (x, y, z) = (a.expire_at, b.expire_at, c.expire_at);
    lemma_text_irreflexive(x);
    lemma_text_irreflexive(y);
    lemma_text_irreflexive(z);
    if x != y {
        lemma_text_total(x, y);
    }
    if y != z {
        lemma_text_total(y, z);
    }
    if x != z {
        lemma_text_total(x, z);
    }
    if text_before(x, y) && text_before(y, x) {
        lemma_text_transitive(x, y, x);
    }
    if text_before(z, y) && text_before(y, x) {
        lemma_text_transitive(z, y, x);
    }
    if text_before(x, z) && text_before(z, y) {
        lemma_text_transitive(x, z, y);
    }
    if text_before(y, x) && text_before(x, z) {
        lemma_text_transitive(y, x, z);
    }
}

/// No record of `s` comes before one that precedes it.
pub open spec fn in_order(s: Seq<TweetView>) -> bool {
    forall|i: int, j: int| 0 <= i < j < s.len() ==> !listed_before(#[trigger] s[j], #[trigger] s[i])
}

proof fn lemma_insert_multiset(s: Seq<TweetView>, t: TweetView)
    ensures
        insert_in_order(s, t).to_multiset() == s.to_multiset().insert(t),
    decreases s.len(),
{
    if s.len() == 0 {
        vstd::seq_lib::to_multiset_build(s, t);
        assert(s.push(t) =~= seq![t]);
    } else if listed_before(t, s.last()) {
        let d = s.drop_last();
        lemma_insert_multiset(d, t);
        vstd::seq_lib::to_multiset_build(insert_in_order(d, t), s.last());
        vstd::seq_lib::to_multiset_build(d, s.last());
        assert(d.push(s.last()) =~= s);
        assert(d.to_multiset().insert(t).insert(s.last()) =~= d.to_multiset().insert(s.last()).insert(t));
    } else {
        vstd::seq_lib::to_multiset_build(s, t);
    }
}

proof fn lemma_insert_members(s: Seq<TweetView>, t: TweetView, x: TweetView)
    requires
        insert_in_order(s, t).contains(x),
    ensures
        x == t || s.contains(x),
{
    lemma_insert_multiset(s, t);
    vstd::seq_lib::to_multiset_contains(insert_in_order(s, t), x);
    vstd::seq_lib::to_multiset_contains(s, x);
}

proof fn lemma_insert_ordered(s: Seq<TweetView>, t: TweetView)
    requires
        in_order(s),
    ensures
        in_order(insert_in_order(s, t)),
    decreases s.len(),
{
    if s.len() == 0 {
    } else if listed_before(t, s.last()) {
        let d = s.drop_last();
        let last = s.last();
        assert(in_order(d)) by {
            assert forall|i: int, j: int| 0 <= i < j < d.len() implies !listed_before(
                #[trigger] d[j],
                #[trigger] d[i],
            ) by {
                assert(d[i] == s[i] && d[j] == s[j]);
            }
        }
        lemma_insert_ordered(d, t);
        let inner = insert_in_order(d, t);
        let r = inner.push(last);
        assert forall|i: int, j: int| 0 <= i < j < r.len() implies !listed_before(
            #[trigger] r[j],
            #[trigger] r[i],
        ) by {
            if j == r.len() - 1 {
                let x = r[i];
                assert(x == inner[i]);
                assert(inner.contains(x));
                lemma_insert_members(d, t, x);
                lemma_order_facts(t, last, last);
                if x != t {
                    let k = choose|k: int| 0 <= k < d.len() && d[k] == x;
                    assert(s[k] == x);
                    assert(!listed_before(s[s.len() - 1], s[k]));
                }
            } else {
                assert(r[i] == inner[i] && r[j] == inner[j]);
            }
        }
    } else {
        let r = s.push(t);
        let last = s.last();
        assert forall|i: int, j: int| 0 <= i < j < r.len() implies !listed_before(
            #[trigger] r[j],
            #[trigger] r[i],
        ) by {
            if j == r.len() - 1 {
                if i < s.len() - 1 {
                    assert(!listed_before(s[s.len() - 1], s[i]));
                    lemma_order_facts(t, last, s[i]);
                }
            } else {
                assert(r[i] == s[i] && r[j] == s[j]);
            }
        }
    }
}

/// A listing holds the records it was given, each as often, in order: no
/// record comes before one listed ahead of it.
pub proof fn lemma_listing_order(s: Seq<TweetView>)
    ensures
        in_order(in_listing_order(s)),
        in_listing_order(s).to_multiset() == s.to_multiset(),
    decreases s.len(),
{
    if s.len() > 0 {
        let d = s.drop_last();
        lemma_listing_order(d);
        lemma_insert_ordered(in_listing_order(d), s.last());
        lemma_insert_multiset(in_listing_order(d), s.last());
        vstd::seq_lib::to_multiset_build(d, s.last());
        assert(d.push(s.last()) =~= s);
    } else {
        assert(in_listing_order(s) == s);
    }
}

} // verus!

verus! {

// ---------------------------------------------------------------------------
// The counter and the index over repeated writes
// ---------------------------------------------------------------------------

/// The counter text that `next_id_step` writes reads back as the next id.
pub proof fn lemma_counter_round_trip(id: u64)
    requires
        id < u64::MAX,
    ensures
        counter_of(Some(decimal((id + 1) as nat))) == Some(id + 1),
{
    crate::store::lemma_id_reads((id + 1) as u64);
}

/// Adding an id to the index a second time changes nothing, and an index that
/// lists no id twice keeps doing so when ids are added.
pub proof fn lemma_index_add_once(ids: Seq<Seq<char>>, id: Seq<char>)
    ensures
        ids.push(id).contains(id),
        ids.no_duplicates() && !ids.contains(id) ==> ids.push(id).no_duplicates(),
{
    assert(ids.push(id)[ids.len() as int] == id);
    if ids.no_duplicates() && !ids.contains(id) {
        let s = ids.push(id);
        assert forall|i: int, j: int| 0 <= i < s.len() && 0 <= j < s.len() && i != j implies s[i]
            != s[j] by {
            if i < ids.len() && j < ids.len() {
                assert(s[i] == ids[i] && s[j] == ids[j]);
            } else if i < ids.len() {
                assert(s[i] == ids[i]);
            } else if j < ids.len() {
                assert(s[j] == ids[j]);
            }
        }
    }
}

} // verus!

verus! {

// ---------------------------------------------------------------------------
// The text order of timestamps is their time order
// ---------------------------------------------------------------------------

proof fn lemma_value_front(s: Seq<u8>)
    requires
        s.len() >= 1,
        all_digits(s),
    ensures
        digits_value(s) == (s[0] - 48) * pow10((s.len() - 1) as nat) + digits_value(
            s.drop_first(),
        ),
    decreases s.len(),
{
    if s.len() == 1 {
        assert(digits_value(s.drop_last()) == 0);
        assert(digits_value(s.drop_first()) == 0);
        assert(pow10(0) == 1);
        assert(s.last() == s[0]);
        assert(is_digit_byte(s[0]));
        assert(digits_value(s) == digits_value(s.drop_last()) * 10 + (s.last() - 48) as nat);
        assert(digits_value(s) == s[0] - 48);
        assert((s[0] - 48) * pow10(0) == s[0] - 48);
    } else {
        let dl = s.drop_last();
        let df = s.drop_first();
        assert(all_digits(dl)) by {
            assert forall|i: int| 0 <= i < dl.len() implies is_digit_byte(#[trigger] dl[i]) by {
                assert(dl[i] == s[i]);
            }
        }
        assert(is_digit_byte(s[s.len() - 1]));
        lemma_value_front(dl);
        assert(dl.drop_first() =~= df.drop_last());
        assert(df.last() == s.last());
        assert(dl[0] == s[0]);
        let p = pow10((s.len() - 2) as nat);
        assert(pow10((s.len() - 1) as nat) == 10 * p);
        let a = s[0] - 48;
        let v = digits_value(dl.drop_first());
        let l = (s.last() - 48) as nat;
        assert(digits_value(s) == digits_value(dl) * 10 + l);
        assert(digits_value(df) == digits_value(df.drop_last()) * 10 + l);
        assert(digits_value(dl) == a * p + v);
        assert((a * p + v) * 10 == a * (10 * p) + v * 10) by (nonlinear_arith);
        assert(digits_value(s) == a * (10 * p) + v * 10 + l);
        assert(digits_value(df) == v * 10 + l);
    }
}

proof fn lemma_digit_text_before(x: Seq<char>, y: Seq<char>)
    requires
        x.len() == y.len(),
        forall|i: int| 0 <= i < x.len() ==> is_digit_char(#[trigger] x[i]),
        forall|i: int| 0 <= i < y.len() ==> is_digit_char(#[trigger] y[i]),
        digits_value(bytes_of(x)) < digits_value(bytes_of(y)),
    ensures
        text_before(x, y),
    decreases x.len(),
{
    let bx = bytes_of(x);
    let by = bytes_of(y);
    if x.len() == 0 {
        assert(bx.len() == 0 && by.len() == 0);
    } else {
        assert(all_digits(bx)) by {
            assert forall|i: int| 0 <= i < bx.len() implies is_digit_byte(#[trigger] bx[i]) by {
                assert(is_digit_char(x[i]));
            }
        }
        assert(all_digits(by)) by {
            assert forall|i: int| 0 <= i < by.len() implies is_digit_byte(#[trigger] by[i]) by {
                assert(is_digit_char(y[i]));
            }
        }
        lemma_value_front(bx);
        lemma_value_front(by);
        let xf = x.drop_first();
        let yf = y.drop_first();
        assert(bx.drop_first() =~= bytes_of(xf));
        assert(by.drop_first() =~= bytes_of(yf));
        assert(is_digit_char(x[0]) && is_digit_char(y[0]));
        assert forall|i: int| 0 <= i < xf.len() implies is_digit_char(#[trigger] xf[i]) by {
            assert(xf[i] == x[i + 1]);
        }
        assert forall|i: int| 0 <= i < yf.len() implies is_digit_char(#[trigger] yf[i]) by {
            assert(yf[i] == y[i + 1]);
        }
        assert(all_digits(bytes_of(xf))) by {
            assert forall|i: int| 0 <= i < bytes_of(xf).len() implies is_digit_byte(
                #[trigger] bytes_of(xf)[i],
            ) by {
                assert(is_digit_char(xf[i]));
            }
        }
        assert(all_digits(bytes_of(yf))) by {
            assert forall|i: int| 0 <= i < bytes_of(yf).len() implies is_digit_byte(
                #[trigger] bytes_of(yf)[i],
            ) by {
                assert(is_digit_char(yf[i]));
            }
        }
        crate::date::lemma_digits_value_bound(bytes_of(xf));
        crate::date::lemma_digits_value_bound(bytes_of(yf));
        let p = pow10((x.len() - 1) as nat);
        let a = bx[0] - 48;
        let b = by[0] - 48;
        let rx = digits_value(bytes_of(xf));
        let ry = digits_value(bytes_of(yf));
        assert(bx[0] == x[0] as u8 && by[0] == y[0] as u8);
        assert(bx[0] as int == x[0] as u32 as int);
        assert(by[0] as int == y[0] as u32 as int);
        if x[0] == y[0] {
            assert(rx < ry);
            lemma_digit_text_before(xf, yf);
        } else {
            assert(a < b) by (nonlinear_arith)
                requires
                    a * p + rx < b * p + ry,
                    a != b,
                    0 <= rx < p,
                    0 <= ry < p,
                    0 <= a,
                    0 <= b,
            ;
        }
    }
}

proof fn lemma_before_concat(a: Seq<char>, b: Seq<char>, p: Seq<char>, q: Seq<char>)
    requires
        a.len() == b.len(),
    ensures
        a == b ==> text_before(a + p, b + q) == text_before(p, q),
        text_before(a, b) ==> text_before(a + p, b + q),
    decreases a.len(),
{
    if a.len() == 0 {
        assert(a + p =~= p);
        assert(b + q =~= q);
    } else {
        assert((a + p)[0] == a[0]);
        assert((b + q)[0] == b[0]);
        assert((a + p).drop_first() =~= a.drop_first() + p);
        assert((b + q).drop_first() =~= b.drop_first() + q);
        lemma_before_concat(a.drop_first(), b.drop_first(), p, q);
        if a == b {
            assert(a.drop_first() == b.drop_first());
        }
    }
}

} // verus!

verus! {

proof fn lemma_padded_before(a: nat, b: nat, w: nat)
    requires
        decimal(a).len() <= w,
        decimal(b).len() <= w,
        a < b,
    ensures
        text_before(padded(a, w), padded(b, w)),
{
    lemma_padded(a, w);
    lemma_padded(b, w);
    lemma_digit_text_before(padded(a, w), padded(b, w));
}

/// The tail of a timestamp from its seconds on.
spec fn stamp_ss(ss: nat) -> Seq<char> {
    padded(ss, 2) + seq!['Z']
}

spec fn stamp_mi(mi: nat, ss: nat) -> Seq<char> {
    padded(mi, 2) + (seq![':'] + stamp_ss(ss))
}

spec fn stamp_hh(hh: nat, mi: nat, ss: nat) -> Seq<char> {
    padded(hh, 2) + (seq![':'] + stamp_mi(mi, ss))
}

spec fn stamp_d(d: nat, hh: nat, mi: nat, ss: nat) -> Seq<char> {
    padded(d, 2) + (seq!['T'] + stamp_hh(hh, mi, ss))
}

spec fn stamp_m(m: nat, d: nat, hh: nat, mi: nat, ss: nat) -> Seq<char> {
    padded(m, 2) + (seq!['-'] + stamp_d(d, hh, mi, ss))
}

/// A timestamp with the given fields.
spec fn stamp(y: nat, m: nat, d: nat, hh: nat, mi: nat, ss: nat) -> Seq<char> {
    padded(y, 4) + (seq!['-'] + stamp_m(m, d, hh, mi, ss))
}

/// `x` comes before `y` when the equally long heads `a` and `b` do, or when they
/// are equal and `p` comes before `q`.
proof fn lemma_step(a: Seq<char>, b: Seq<char>, p: Seq<char>, q: Seq<char>)
    requires
        a.len() == b.len(),
        text_before(a, b) || (a == b && text_before(p, q)),
    ensures
        text_before(a + p, b + q),
{
    lemma_before_concat(a, b, p, q);
}

/// The time of day `(hh, mi, ss)` of `f` comes before that of `g`.
spec fn time_before(f: (nat, nat, nat, nat, nat, nat), g: (nat, nat, nat, nat, nat, nat)) -> bool {
    f.3 < g.3 || (f.3 == g.3 && (f.4 < g.4 || (f.4 == g.4 && f.5 < g.5)))
}

/// The fields of one timestamp before those of another, compared in order.
spec fn fields_before(f: (nat, nat, nat, nat, nat, nat), g: (nat, nat, nat, nat, nat, nat)) -> bool {
    f.0 < g.0 || (f.0 == g.0 && (f.1 < g.1 || (f.1 == g.1 && (f.2 < g.2 || (f.2 == g.2
        && time_before(f, g))))))
}

proof fn lemma_field(a: nat, b: nat, w: nat)
    requires
        decimal(a).len() <= w,
        decimal(b).len() <= w,
    ensures
        padded(a, w).len() == w && padded(b, w).len() == w,
        a < b ==> text_before(padded(a, w), padded(b, w)),
{
    lemma_padded(a, w);
    lemma_padded(b, w);
    if a < b {
        lemma_padded_before(a, b, w);
    }
}

proof fn lemma_stamp_before(f: (nat, nat, nat, nat, nat, nat), g: (nat, nat, nat, nat, nat, nat))
    requires
        f.0 < 10000 && g.0 < 10000,
        f.1 < 100 && f.2 < 100 && f.3 < 100 && f.4 < 100 && f.5 < 100,
        g.1 < 100 && g.2 < 100 && g.3 < 100 && g.4 < 100 && g.5 < 100,
        fields_before(f, g),
    ensures
        text_before(stamp(f.0, f.1, f.2, f.3, f.4, f.5), stamp(g.0, g.1, g.2, g.3, g.4, g.5)),
{
    lemma_decimal_small(f.0);
    lemma_decimal_small(g.0);
    lemma_decimal_small(f.1);
    lemma_decimal_small(g.1);
    lemma_decimal_small(f.2);
    lemma_decimal_small(g.2);
    lemma_decimal_small(f.3);
    lemma_decimal_small(g.3);
    lemma_decimal_small(f.4);
    lemma_decimal_small(g.4);
    lemma_decimal_small(f.5);
    lemma_decimal_small(g.5);
    lemma_field(f.0, g.0, 4);
    lemma_field(f.1, g.1, 2);
    lemma_field(f.2, g.2, 2);
    lemma_field(f.3, g.3, 2);
    lemma_field(f.4, g.4, 2);
    lemma_field(f.5, g.5, 2);
    let zs = seq!['Z'];
    let s5 = stamp_ss(f.5);
    let t5 = stamp_ss(g.5);
    let s4 = stamp_mi(f.4, f.5);
    let t4 = stamp_mi(g.4, g.5);
    let s3 = stamp_hh(f.3, f.4, f.5);
    let t3 = stamp_hh(g.3, g.4, g.5);
    let s2 = stamp_d(f.2, f.3, f.4, f.5);
    let t2 = stamp_d(g.2, g.3, g.4, g.5);
    let s1 = stamp_m(f.1, f.2, f.3, f.4, f.5);
    let t1 = stamp_m(g.1, g.2, g.3, g.4, g.5);
    if f.5 < g.5 {
        lemma_step(padded(f.5, 2), padded(g.5, 2), zs, zs);
    }
    if text_before(s5, t5) {
        lemma_step(seq![':'], seq![':'], s5, t5);
    }
    if f.4 < g.4 || (f.4 == g.4 && text_before(s5, t5)) {
        lemma_step(padded(f.4, 2), padded(g.4, 2), seq![':'] + s5, seq![':'] + t5);
    }
    if text_before(s4, t4) {
        lemma_step(seq![':'], seq![':'], s4, t4);
    }
    if f.3 < g.3 || (f.3 == g.3 && text_before(s4, t4)) {
        lemma_step(padded(f.3, 2), padded(g.3, 2), seq![':'] + s4, seq![':'] + t4);
    }
    if text_before(s3, t3) {
        lemma_step(seq!['T'], seq!['T'], s3, t3);
    }
    if f.2 < g.2 || (f.2 == g.2 && text_before(s3, t3)) {
        lemma_step(padded(f.2, 2), padded(g.2, 2), seq!['T'] + s3, seq!['T'] + t3);
    }
    if text_before(s2, t2) {
        lemma_step(seq!['-'], seq!['-'], s2, t2);
    }
    if f.1 < g.1 || (f.1 == g.1 && text_before(s2, t2)) {
        lemma_step(padded(f.1, 2), padded(g.1, 2), seq!['-'] + s2, seq!['-'] + t2);
    }
    if text_before(s1, t1) {
        lemma_step(seq!['-'], seq!['-'], s1, t1);
    }
    lemma_step(padded(f.0, 4), padded(g.0, 4), seq!['-'] + s1, seq!['-'] + t1);
}

} // verus!

verus! {

/// The fields of the timestamp of second `e`.
spec fn stamp_fields(e: nat) -> (nat, nat, nat, nat, nat, nat) {
    let (y, m, d, hh, mi, ss) = iso_parts(e);
    (y as nat, m as nat, d as nat, hh, mi, ss)
}

proof fn lemma_iso_stamp(e: nat)
    requires
        e < year_10000(),
    ensures
        ({
            let f = stamp_fields(e);
            &&& iso_of(e) == stamp(f.0, f.1, f.2, f.3, f.4, f.5)
            &&& f.0 < 10000 && f.1 < 100 && f.2 < 100 && f.3 < 100 && f.4 < 100 && f.5 < 100
        }),
{
    lemma_iso_chars(e);
    let f = stamp_fields(e);
    let py = padded(f.0, 4);
    let pm = padded(f.1, 2);
    let pd = padded(f.2, 2);
    let ph = padded(f.3, 2);
    let pi = padded(f.4, 2);
    let ps = padded(f.5, 2);
    let l1 = py + seq!['-'];
    let l2 = l1 + pm;
    let l3 = l2 + seq!['-'];
    let l4 = l3 + pd;
    let l5 = l4 + seq!['T'];
    let l6 = l5 + ph;
    let l7 = l6 + seq![':'];
    let l8 = l7 + pi;
    let l9 = l8 + seq![':'];
    let l10 = l9 + ps;
    assert(iso_of(e) == l10 + seq!['Z']);
    let r = stamp_ss(f.5);
    vstd::seq_lib::lemma_concat_associative(l9, ps, seq!['Z']);
    vstd::seq_lib::lemma_concat_associative(l8, seq![':'], r);
    let r = stamp_mi(f.4, f.5);
    vstd::seq_lib::lemma_concat_associative(l7, pi, seq![':'] + stamp_ss(f.5));
    vstd::seq_lib::lemma_concat_associative(l6, seq![':'], r);
    let r = stamp_hh(f.3, f.4, f.5);
    vstd::seq_lib::lemma_concat_associative(l5, ph, seq![':'] + stamp_mi(f.4, f.5));
    vstd::seq_lib::lemma_concat_associative(l4, seq!['T'], r);
    let r = stamp_d(f.2, f.3, f.4, f.5);
    vstd::seq_lib::lemma_concat_associative(l3, pd, seq!['T'] + stamp_hh(f.3, f.4, f.5));
    vstd::seq_lib::lemma_concat_associative(l2, seq!['-'], r);
    let r = stamp_m(f.1, f.2, f.3, f.4, f.5);
    vstd::seq_lib::lemma_concat_associative(l1, pm, seq!['-'] + stamp_d(f.2, f.3, f.4, f.5));
    vstd::seq_lib::lemma_concat_associative(py, seq!['-'], r);
}

proof fn lemma_fields_in_time_order(e1: nat, e2: nat)
    requires
        e1 < e2 < year_10000(),
    ensures
        fields_before(stamp_fields(e1), stamp_fields(e2)),
{
    let a = (e1 / 86400) as int;
    let b = (e2 / 86400) as int;
    assert(a <= b && b < 2932897);
    lemma_civil_ranges(a);
    lemma_civil_ranges(b);
    let f = stamp_fields(e1);
    let g = stamp_fields(e2);
    assert(f.0 == civil_from(a).0 && f.1 == civil_from(a).1 && f.2 == civil_from(a).2);
    assert(g.0 == civil_from(b).0 && g.1 == civil_from(b).1 && g.2 == civil_from(b).2);
    if a < b {
        lemma_civil_monotone(a, b);
    } else {
        let s1 = e1 % 86400;
        let s2 = e2 % 86400;
        assert(s1 < s2);
        assert(f.3 == s1 / 3600 && f.4 == (s1 % 3600) / 60 && f.5 == s1 % 60);
        assert(g.3 == s2 / 3600 && g.4 == (s2 % 3600) / 60 && g.5 == s2 % 60);
        assert(time_before(f, g));
    }
}

/// For timestamps of seconds before year 10000, as `epoch_to_iso` writes them,
/// the order of the texts is the order of the times.
pub proof fn lemma_timestamp_order(e1: nat, e2: nat)
    requires
        e1 < year_10000(),
        e2 < year_10000(),
    ensures
        text_before(iso_of(e1), iso_of(e2)) == (e1 < e2),
{
    lemma_iso_stamp(e1);
    lemma_iso_stamp(e2);
    let f1 = stamp_fields(e1);
    let f2 = stamp_fields(e2);
    lemma_text_irreflexive(iso_of(e1));
    if e1 < e2 {
        lemma_fields_in_time_order(e1, e2);
        lemma_stamp_before(f1, f2);
    } else if e2 < e1 {
        lemma_fields_in_time_order(e2, e1);
        lemma_stamp_before(f2, f1);
        if text_before(iso_of(e1), iso_of(e2)) {
            lemma_text_transitive(iso_of(e1), iso_of(e2), iso_of(e1));
        }
    }
}

} // verus!

verus! {

// ---------------------------------------------------------------------------
// Filing a record in the key-value store
// ---------------------------------------------------------------------------

pub open spec fn index_key() -> Seq<char> {
    "followup:index:tracked_tweets"@
}

pub open spec fn text_or_empty(o: Option<Seq<char>>) -> Seq<char> {
    match o {
        Some(s) => s,
        None => seq![],
    }
}

/// The writes that filing `t` makes, given what is stored under its key and
/// under the index key: nothing when a record is there already; else the record
/// under its key, then the index with its id added unless it lists it.
pub open spec fn filing_writes(
    existing: Option<Seq<char>>,
    index_raw: Option<Seq<char>>,
    t: TweetView,
) -> Seq<(Seq<char>, Seq<char>)> {
    match existing {
        Some(_) => seq![],
        None => {
            let ids = index_of(text_or_empty(index_raw));
            seq![(key_of(t.tweet_id), crate::json::tweet_json(t))] + if ids.contains(t.tweet_id) {
                seq![]
            } else {
                seq![(index_key(), joined(ids.push(t.tweet_id)))]
            }
        },
    }
}

/// The store's contents once the writes are made, in order.
pub open spec fn written(
    db: Map<Seq<char>, Seq<char>>,
    w: Seq<(Seq<char>, Seq<char>)>,
) -> Map<Seq<char>, Seq<char>>
    decreases w.len(),
{
    if w.len() == 0 {
        db
    } else {
        written(db, w.drop_last()).insert(w.last().0, w.last().1)
    }
}

pub open spec fn stored_at(db: Map<Seq<char>, Seq<char>>, k: Seq<char>) -> Option<Seq<char>> {
    if db.contains_key(k) {
        Some(db[k])
    } else {
        None
    }
}

/// Filing `tweet`, given what is stored under its key and under the index key:
/// the record that is filed under its id, and the writes to make. A record
/// stored already is read back (or its reading error returned) and nothing is
/// written.
pub fn filing(existing: Option<&str>, index_raw: Option<&str>, tweet: &TrackedTweet) -> (r: Result<
    (TrackedTweet, Vec<(String, String)>),
    String,
>)
    ensures
        match existing {
            Some(raw) => match crate::store::decoded(raw@) {
                Ok(t) => r matches Ok((d, w)) && d@ == t && w.len() == 0,
                Err(e) => r matches Err(x) && x@ == e,
            },
            None => r matches Ok((d, w)) && d@ == tweet@ && crate::json::pair_views(w@)
                == filing_writes(None, index_raw_view(index_raw), tweet@),
        },
{
    match existing {
        Some(raw) => {
            let d = crate::store::decode_tweet(raw)?;
            Ok((d, Vec::new()))
        },
        None => {
            let ghost ids = index_of(text_or_empty(index_raw_view(index_raw)));
            let index = index_ids(index_raw);
            assert(str_views(index@) == ids);
            let mut writes: Vec<(String, String)> = Vec::new();
            writes.push((tweet_key(tweet.tweet_id.as_str()), crate::store::encode_tweet(tweet)));
            match index_with(&index, tweet.tweet_id.as_str()) {
                Some(next) => {
                    let text = index_text(&next);
                    writes.push((INDEX_KEY.to_owned(), text));
                    proof {
                        reveal_strlit("followup:index:tracked_tweets");
                    }
                },
                None => {},
            }
            let ghost w = filing_writes(None, index_raw_view(index_raw), tweet@);
            assert(crate::json::pair_views(writes@) =~= w);
            Ok((tweet.copied(), writes))
        },
    }
}

pub open spec fn index_raw_view(o: Option<&str>) -> Option<Seq<char>> {
    match o {
        Some(s) => Some(s@),
        None => None,
    }
}

} // verus!

verus! {

proof fn lemma_split_pieces(s: Seq<char>)
    ensures
        forall|i: int|
            0 <= i < split_all(s, '\n').len() ==> !(#[trigger] split_all(s, '\n')[i]).contains('\n'),
    decreases s.len(),
{
    match split_once(s, '\n') {
        None => {
            assert forall|j: int| 0 <= j < s.len() implies s[j] != '\n' by {
                if s[j] == '\n' {
                    lemma_first_occurrence(s, j);
                }
            }
        },
        Some((a, b)) => {
            assert(b.len() < s.len());
            lemma_split_pieces(b);
            assert forall|j: int| 0 <= j < a.len() implies a[j] != '\n' by {
                assert(a[j] == s[j]);
            }
            let p = split_all(s, '\n');
            assert forall|i: int| 0 <= i < p.len() implies !(#[trigger] p[i]).contains('\n') by {
                if i > 0 {
                    assert(p[i] == split_all(b, '\n')[i - 1]);
                }
            }
        },
    }
}

/// Where a `c` occurs, a first `c` occurs.
proof fn lemma_first_occurrence(s: Seq<char>, j: int)
    requires
        0 <= j < s.len(),
        s[j] == '\n',
    ensures
        exists|k: int| first_at(s, '\n', k),
    decreases j,
{
    if forall|m: int| 0 <= m < j ==> s[m] != '\n' {
        assert(first_at(s, '\n', j));
    } else {
        let m = choose|m: int| 0 <= m < j && s[m] == '\n';
        lemma_first_occurrence(s, m);
    }
}

proof fn lemma_kept_members(p: Seq<Seq<char>>)
    ensures
        forall|i: int| 0 <= i < kept(p).len() ==> (#[trigger] kept(p)[i]).len() > 0 && p.contains(
            kept(p)[i],
        ),
    decreases p.len(),
{
    if p.len() > 0 {
        lemma_kept_members(p.drop_first());
        let head: Seq<Seq<char>> = if p[0].len() > 0 {
            seq![p[0]]
        } else {
            seq![]
        };
        let rest = kept(p.drop_first());
        assert forall|i: int| 0 <= i < kept(p).len() implies (#[trigger] kept(p)[i]).len() > 0
            && p.contains(kept(p)[i]) by {
            if i < head.len() {
                assert(kept(p)[i] == p[0]);
            } else {
                assert(kept(p)[i] == rest[i - head.len()]);
                let j = choose|j: int| 0 <= j < p.drop_first().len() && p.drop_first()[j] == rest[i
                    - head.len()];
                assert(p[j + 1] == p.drop_first()[j]);
            }
        }
    }
}

/// Every id an index holds is neither empty nor holds a line break.
pub proof fn lemma_index_ids_safe(raw: Seq<char>)
    ensures
        forall|i: int| 0 <= i < index_of(raw).len() ==> index_safe(#[trigger] index_of(raw)[i]),
{
    lemma_split_pieces(raw);
    lemma_kept_members(split_all(raw, '\n'));
    let p = split_all(raw, '\n');
    assert forall|i: int| 0 <= i < index_of(raw).len() implies index_safe(
        #[trigger] index_of(raw)[i],
    ) by {
        let j = choose|j: int| 0 <= j < p.len() && p[j] == index_of(raw)[i];
        assert(!p[j].contains('\n'));
    }
}

proof fn lemma_split_joined(ids: Seq<Seq<char>>)
    requires
        ids.len() >= 1,
        forall|i: int| 0 <= i < ids.len() ==> !(#[trigger] ids[i]).contains('\n'),
    ensures
        split_all(joined(ids), '\n') == ids,
    decreases ids.len(),
{
    let x = ids[0];
    let rest = ids.drop_first();
    assert(ids =~= seq![x] + rest);
    if rest.len() == 0 {
        assert(joined(ids) == x);
        lemma_split_no_break(x);
    } else {
        assert forall|i: int| 0 <= i < rest.len() implies !(#[trigger] rest[i]).contains('\n') by {
            assert(rest[i] == ids[i + 1]);
        }
        lemma_split_joined(rest);
        lemma_joined_front(x, rest);
        lemma_split_at_break(x, joined(rest));
    }
}

proof fn lemma_kept_push(p: Seq<Seq<char>>, x: Seq<char>)
    ensures
        kept(p.push(x)) == kept(p) + (if x.len() > 0 {
            seq![x]
        } else {
            Seq::<Seq<char>>::empty()
        }),
    decreases p.len(),
{
    if p.len() == 0 {
        assert(p.push(x) =~= seq![x]);
        assert(seq![x].drop_first() =~= Seq::<Seq<char>>::empty());
        reveal_with_fuel(kept, 2);
    } else {
        assert(p.push(x).drop_first() =~= p.drop_first().push(x));
        lemma_kept_push(p.drop_first(), x);
        assert(p.push(x)[0] == p[0]);
    }
}

proof fn lemma_kept_all(p: Seq<Seq<char>>)
    requires
        forall|i: int| 0 <= i < p.len() ==> (#[trigger] p[i]).len() > 0,
    ensures
        kept(p) == p,
    decreases p.len(),
{
    if p.len() > 0 {
        assert forall|i: int| 0 <= i < p.drop_first().len() implies (
        #[trigger] p.drop_first()[i]).len() > 0 by {
            assert(p.drop_first()[i] == p[i + 1]);
        }
        lemma_kept_all(p.drop_first());
        assert(p =~= seq![p[0]] + p.drop_first());
    }
}

proof fn lemma_keys_differ(id: Seq<char>)
    ensures
        key_of(id) != index_key(),
{
    reveal_strlit("followup:tweet:");
    reveal_strlit("followup:index:tracked_tweets");
    if key_of(id) == index_key() {
        assert(key_of(id)[9] == 't');
        assert(index_key()[9] == 'i');
    }
}

/// Filing a record a second time writes nothing, and filing keeps an index that
/// lists each id once doing so, for an id without a line break.
pub proof fn lemma_filing_twice(db: Map<Seq<char>, Seq<char>>, t: TweetView)
    ensures
        ({
            let db1 = written(
                db,
                filing_writes(stored_at(db, key_of(t.tweet_id)), stored_at(db, index_key()), t),
            );
            &&& stored_at(db1, key_of(t.tweet_id)) is Some
            &&& filing_writes(stored_at(db1, key_of(t.tweet_id)), stored_at(db1, index_key()), t)
                == Seq::<(Seq<char>, Seq<char>)>::empty()
            &&& !t.tweet_id.contains('\n') && index_of(
                text_or_empty(stored_at(db, index_key())),
            ).no_duplicates() ==> index_of(text_or_empty(stored_at(db1, index_key()))).no_duplicates()
        }),
{
    let k = key_of(t.tweet_id);
    let ik = index_key();
    lemma_keys_differ(t.tweet_id);
    let ids = index_of(text_or_empty(stored_at(db, ik)));
    lemma_index_ids_safe(text_or_empty(stored_at(db, ik)));
    let w = filing_writes(stored_at(db, k), stored_at(db, ik), t);
    if stored_at(db, k) is Some {
        assert(w.len() == 0);
        assert(written(db, w) == db);
    } else {
        let first = (k, crate::json::tweet_json(t));
        if ids.contains(t.tweet_id) {
            assert(w =~= seq![first]);
            assert(w.drop_last() =~= Seq::<(Seq<char>, Seq<char>)>::empty());
            assert(written(db, w.drop_last()) == db);
            assert(w.last() == first);
            assert(written(db, w) == db.insert(k, first.1));
            assert(stored_at(written(db, w), ik) == stored_at(db, ik));
        } else {
            let second = (ik, joined(ids.push(t.tweet_id)));
            assert(w =~= seq![first, second]);
            assert(w.drop_last() =~= seq![first]);
            assert(w.drop_last().drop_last() =~= Seq::<(Seq<char>, Seq<char>)>::empty());
            let db1 = written(db, w);
            assert(written(db, w.drop_last().drop_last()) == db);
            assert(w.drop_last().last() == first);
            assert(w.last() == second);
            assert(written(db, w.drop_last()) == db.insert(k, first.1));
            assert(db1 == db.insert(k, first.1).insert(ik, second.1));
            assert(stored_at(db1, ik) == Some(second.1));
            if !t.tweet_id.contains('\n') {
                let n = ids.push(t.tweet_id);
                assert forall|i: int| 0 <= i < n.len() implies !(#[trigger] n[i]).contains('\n') by {
                    if i < ids.len() {
                        assert(n[i] == ids[i]);
                        assert(index_safe(ids[i]));
                    }
                }
                lemma_split_joined(n);
                lemma_kept_push(ids, t.tweet_id);
                assert forall|i: int| 0 <= i < ids.len() implies (#[trigger] ids[i]).len() > 0 by {
                    assert(index_safe(ids[i]));
                }
                lemma_kept_all(ids);
                lemma_index_add_once(ids, t.tweet_id);
                if t.tweet_id.len() == 0 {
                    assert(kept(n) =~= ids);
                } else {
                    assert(kept(n) =~= n);
                }
            }
        }
    }
}

} // verus!

verus! {

pub open spec fn next_id_key() -> Seq<char> {
    "followup:meta:next_id"@
}

/// The id counter in the store: when it reads as `n` (below `u64::MAX`) and the
/// text `next_id_step` gives is written back, it reads as `n + 1`, so the ids
/// handed out go up one by one and never repeat.
pub proof fn lemma_counter_steps(db: Map<Seq<char>, Seq<char>>, n: u64)
    requires
        counter_of(stored_at(db, next_id_key())) == Some(n as int),
        n < u64::MAX,
    ensures
        counter_of(stored_at(db.insert(next_id_key(), decimal((n + 1) as nat)), next_id_key()))
            == Some(n + 1),
{
    lemma_counter_round_trip(n);
    assert(stored_at(db.insert(next_id_key(), decimal((n + 1) as nat)), next_id_key()) == Some(
        decimal((n + 1) as nat),
    ));
}

} // verus!
