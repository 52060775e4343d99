//! Reading the `#fu` tag and the mentioned account out of a tweet's text.
use vstd::prelude::*;
use crate::text::{
    bytes_of, chars_of, digits_value, is_space, is_space_char, lower_all, lower_range,
    string_of_chars, string_of_range,
};

verus! {

// ---------------------------------------------------------------------------
// Words
// ---------------------------------------------------------------------------

/// Length of the run of non-space characters that starts `s`.
pub open spec fn word_len(s: Seq<char>) -> nat
    decreases s.len(),
{
    if s.len() > 0 && !is_space(s[0]) {
        1 + word_len(s.drop_first())
    } else {
        0
    }
}

pub proof fn lemma_word_len_bounds(s: Seq<char>)
    ensures
        word_len(s) <= s.len(),
        s.len() > 0 && !is_space(s[0]) ==> word_len(s) >= 1,
    decreases s.len(),
{
    if s.len() > 0 && !is_space(s[0]) {
        lemma_word_len_bounds(s.drop_first());
    }
}

pub proof fn lemma_word_len(s: Seq<char>, m: int)
    requires
        0 <= m <= s.len(),
        forall|k: int| 0 <= k < m ==> !is_space(#[trigger] s[k]),
        m == s.len() || is_space(s[m]),
    ensures
        word_len(s) == m,
    decreases m,
{
    if m > 0 {
        lemma_word_len(s.drop_first(), m - 1);
    }
}

/// `str::split_whitespace`: the maximal runs of non-space characters, in order.
pub open spec fn words(s: Seq<char>) -> Seq<Seq<char>>
    decreases s.len(),
{
    if s.len() == 0 {
        seq![]
    } else if is_space(s[0]) {
        words(s.drop_first())
    } else {
        let n = word_len(s);
        proof {
            lemma_word_len_bounds(s);
        }
        seq![s.take(n as int)] + words(s.skip(n as int))
    }
}

/// The views of a vector of character vectors.
pub open spec fn views(v: Seq<Vec<char>>) -> Seq<Seq<char>> {
    v.map_values(|w: Vec<char>| w@)
}

/// `split_whitespace`, collected.
pub fn split_words(v: &Vec<char>) -> (r: Vec<Vec<char>>)
    ensures
        views(r@) == words(v@),
{
    let mut out: Vec<Vec<char>> = Vec::new();
    let mut i: usize = 0;
    assert(v@.skip(0) =~= v@);
    assert(views(out@) + words(v@) =~= words(v@));
    while i < v.len()
        invariant
            0 <= i <= v.len(),
            words(v@) == views(out@) + words(v@.skip(i as int)),
        decreases v.len() - i,
    {
        let ghost rest = v@.skip(i as int);
        if is_space_char(v[i]) {
            assert(rest.drop_first() =~= v@.skip(i + 1));
            i = i + 1;
        } else {
            let mut j: usize = i;
            while j < v.len() && !is_space_char(v[j])
                invariant
                    i <= j <= v.len(),
                    forall|k: int| i <= k < j ==> !is_space(#[trigger] v@[k]),
                decreases v.len() - j,
            {
                j = j + 1;
            }
            proof {
                assert forall|k: int| 0 <= k < j - i implies !is_space(#[trigger] rest[k]) by {
                    assert(rest[k] == v@[k + i]);
                }
                if j < v.len() {
                    assert(rest[j - i] == v@[j as int]);
                }
                lemma_word_len(rest, j - i);
                assert(rest.take(j - i) =~= v@.subrange(i as int, j as int));
                assert(rest.skip(j - i) =~= v@.skip(j as int));
            }
            let w = copy_range(v, i, j);
            let ghost before = views(out@);
            out.push(w);
            assert(views(out@) =~= before.push(v@.subrange(i as int, j as int)));
            assert(views(out@) + words(v@.skip(j as int)) =~= before + words(rest));
            i = j;
        }
    }
    assert(words(v@.skip(i as int)) =~= Seq::<Seq<char>>::empty()) by {
        assert(v@.skip(i as int).len() == 0);
    }
    assert(views(out@) + Seq::<Seq<char>>::empty() =~= views(out@));
    out
}

/// A copy of `v[lo..hi]`.
pub fn copy_range(v: &Vec<char>, lo: usize, hi: usize) -> (r: Vec<char>)
    requires
        lo <= hi <= v.len(),
    ensures
        r@ == v@.subrange(lo as int, hi as int),
{
    let mut r: Vec<char> = Vec::new();
    let mut k: usize = lo;
    while k < hi
        invariant
            lo <= k <= hi <= v.len(),
            r@ == v@.subrange(lo as int, k as int),
        decreases hi - k,
    {
        r.push(v[k]);
        assert(v@.subrange(lo as int, k + 1) =~= v@.subrange(lo as int, k as int).push(v@[k as int]));
        k = k + 1;
    }
    r
}

// ---------------------------------------------------------------------------
// Trimming punctuation (`str::trim_matches`)
// ---------------------------------------------------------------------------

/// The punctuation trimmed from a token: `. , ; : ! ?`, and with `brackets`
/// also `( ) [ ]`.
pub open spec fn punct(c: char, brackets: bool) -> bool {
    ||| c == '.'
    ||| c == ','
    ||| c == ';'
    ||| c == ':'
    ||| c == '!'
    ||| c == '?'
    ||| (brackets && (c == '(' || c == ')' || c == '[' || c == ']'))
}

fn punct_char(c: char, brackets: bool) -> (r: bool)
    ensures
        r == punct(c, brackets),
{
    c == '.' || c == ',' || c == ';' || c == ':' || c == '!' || c == '?' || (brackets && (c == '('
        || c == ')' || c == '[' || c == ']'))
}

pub open spec fn lead_punct(s: Seq<char>, brackets: bool) -> nat
    decreases s.len(),
{
    if s.len() > 0 && punct(s[0], brackets) {
        1 + lead_punct(s.drop_first(), brackets)
    } else {
        0
    }
}

pub open spec fn trail_punct(s: Seq<char>, brackets: bool) -> nat
    decreases s.len(),
{
    if s.len() > 0 && punct(s.last(), brackets) {
        1 + trail_punct(s.drop_last(), brackets)
    } else {
        0
    }
}

/// `s.trim_matches(..)` with the punctuation class chosen by `brackets`.
pub open spec fn strip_punct(s: Seq<char>, brackets: bool) -> Seq<char> {
    let t = s.skip(lead_punct(s, brackets) as int);
    t.take(t.len() - trail_punct(t, brackets))
}

proof fn lemma_lead_punct(s: Seq<char>, brackets: bool, i: int)
    requires
        0 <= i <= s.len(),
        forall|k: int| 0 <= k < i ==> punct(#[trigger] s[k], brackets),
        i == s.len() || !punct(s[i], brackets),
    ensures
        lead_punct(s, brackets) == i,
    decreases i,
{
    if i > 0 {
        lemma_lead_punct(s.drop_first(), brackets, i - 1);
    }
}

proof fn lemma_trail_punct(s: Seq<char>, brackets: bool, j: int)
    requires
        0 <= j <= s.len(),
        forall|k: int| j <= k < s.len() ==> punct(#[trigger] s[k], brackets),
        j == 0 || !punct(s[j - 1], brackets),
    ensures
        trail_punct(s, brackets) == s.len() - j,
    decreases s.len() - j,
{
    if j < s.len() {
        lemma_trail_punct(s.drop_last(), brackets, j);
    }
}

/// Bounds `[lo, hi)` of `strip_punct(v, brackets)` within `v`.
fn strip_bounds(v: &Vec<char>, brackets: bool) -> (r: (usize, usize))
    ensures
        r.0 <= r.1 <= v.len(),
        v@.subrange(r.0 as int, r.1 as int) == strip_punct(v@, brackets),
{
    let mut i: usize = 0;
    while i < v.len() && punct_char(v[i], brackets)
        invariant
            0 <= i <= v.len(),
            forall|k: int| 0 <= k < i ==> punct(#[trigger] v@[k], brackets),
        decreases v.len() - i,
    {
        i = i + 1;
    }
    proof {
        lemma_lead_punct(v@, brackets, i as int);
    }
    let mut j: usize = v.len();
    while j > i && punct_char(v[j - 1], brackets)
        invariant
            i <= j <= v.len(),
            forall|k: int| j <= k < v.len() ==> punct(#[trigger] v@[k], brackets),
        decreases j,
    {
        j = j - 1;
    }
    proof {
        let t = v@.skip(i as int);
        assert forall|k: int| j - i <= k < t.len() implies punct(#[trigger] t[k], brackets) by {
            assert(t[k] == v@[k + i]);
        }
        if j > i {
            assert(t[j - i - 1] == v@[j - 1]);
        }
        lemma_trail_punct(t, brackets, j - i);
        assert(t.take(t.len() - trail_punct(t, brackets)) =~= v@.subrange(i as int, j as int));
    }
    (i, j)
}

// ---------------------------------------------------------------------------
// The tag
// ---------------------------------------------------------------------------

pub open spec fn fu_prefix() -> Seq<char> {
    seq!['#', 'f', 'u']
}

pub open spec fn is_ascii_digit(c: char) -> bool {
    '0' <= c <= '9'
}

/// What one token says about the tag.
pub enum TagStep {
    /// Not a usable tag: look at the next token.
    Skip,
    /// A tag, in lower case, with its number of days.
    Found(Seq<char>, int),
    /// A tag whose digits do not fit in a `u16`: the search stops with no tag.
    Abort,
}

/// A token, once trimmed of `. , ; : ! ?` and lower-cased, is a tag when it is
/// `#fu` followed only by ASCII digits; no digits means 7 days. The days must be
/// within 1..=365, and digits beyond `u16::MAX` end the whole search.
pub open spec fn tag_step(tok: Seq<char>) -> TagStep {
    let lower = lower_all(strip_punct(tok, false));
    if lower.len() < 3 || lower.take(3) != fu_prefix() {
        TagStep::Skip
    } else {
        let rest = lower.skip(3);
        if !(forall|i: int| 0 <= i < rest.len() ==> is_ascii_digit(#[trigger] rest[i])) {
            TagStep::Skip
        } else if rest.len() == 0 {
            TagStep::Found(lower, 7)
        } else if digits_value(bytes_of(rest)) > u16::MAX {
            TagStep::Abort
        } else if 1 <= digits_value(bytes_of(rest)) <= 365 {
            TagStep::Found(lower, digits_value(bytes_of(rest)) as int)
        } else {
            TagStep::Skip
        }
    }
}

/// The first tag among the tokens.
pub open spec fn tag_in(toks: Seq<Seq<char>>) -> Option<(Seq<char>, int)>
    decreases toks.len(),
{
    if toks.len() == 0 {
        None
    } else {
        match tag_step(toks[0]) {
            TagStep::Skip => tag_in(toks.drop_first()),
            TagStep::Found(t, d) => Some((t, d)),
            TagStep::Abort => None,
        }
    }
}

pub open spec fn tag_of(text: Seq<char>) -> Option<(Seq<char>, int)> {
    tag_in(words(text))
}

/// Value of the digit characters `v[lo..hi]`, or `None` once it exceeds `u16::MAX`.
fn digits_u16(v: &Vec<char>, lo: usize, hi: usize) -> (r: Option<u16>)
    requires
        lo <= hi <= v.len(),
        forall|i: int| lo <= i < hi ==> is_ascii_digit(#[trigger] v@[i]),
    ensures
        r is Some <==> digits_value(bytes_of(v@.subrange(lo as int, hi as int))) <= u16::MAX,
        r matches Some(d) ==> d == digits_value(bytes_of(v@.subrange(lo as int, hi as int))),
{
    let ghost s = bytes_of(v@.subrange(lo as int, hi as int));
    let mut acc: u32 = 0;
    let mut k: usize = lo;
    while k < hi
        invariant
            lo <= k <= hi <= v.len(),
            s == bytes_of(v@.subrange(lo as int, hi as int)),
            forall|i: int| lo <= i < hi ==> is_ascii_digit(#[trigger] v@[i]),
            acc == digits_value(s.take(k - lo)),
            acc <= u16::MAX,
        decreases hi - k,
    {
        let d: u32 = (v[k] as u32) - 48;
        assert(s[k - lo] == v@[k as int] as u8);
        assert(s.take(k + 1 - lo).drop_last() =~= s.take(k - lo));
        let next: u32 = acc * 10 + d;
        if next > 65535 {
            proof {
                lemma_digits_prefix_bound(s, k + 1 - lo);
            }
            return None;
        }
        acc = next;
        k = k + 1;
    }
    assert(s.take(hi - lo) =~= s);
    Some(acc as u16)
}

/// A digit sequence is at least as large as each of its prefixes.
proof fn lemma_digits_prefix_bound(s: Seq<u8>, k: int)
    requires
        0 <= k <= s.len(),
    ensures
        digits_value(s.take(k)) <= digits_value(s),
    decreases s.len() - k,
{
    if k < s.len() {
        lemma_digits_prefix_bound(s, k + 1);
        let t = s.take(k + 1);
        assert(t.drop_last() =~= s.take(k));
        assert(digits_value(t) == digits_value(t.drop_last()) * 10 + (t.last() - 48) as nat);
    } else {
        assert(s.take(k) =~= s);
    }
}

/// The outcome of `tag_step` for one token, computed.
fn examine_tag(tok: &Vec<char>) -> (r: (u8, Vec<char>, u16))
    ensures
        r.0 == 0 ==> tag_step(tok@) is Skip,
        r.0 == 1 ==> tag_step(tok@) == TagStep::Found(r.1@, r.2 as int),
        r.0 == 2 ==> tag_step(tok@) is Abort,
        r.0 <= 2,
{
    let (lo, hi) = strip_bounds(tok, false);
    let lower = lower_range(tok, lo, hi);
    let ghost l = lower@;
    assert(l == lower_all(strip_punct(tok@, false)));
    if lower.len() < 3 || lower[0] != '#' || lower[1] != 'f' || lower[2] != 'u' {
        proof {
            if l.len() >= 3 && l.take(3) == fu_prefix() {
                assert(l.take(3)[0] == '#' && l.take(3)[1] == 'f' && l.take(3)[2] == 'u');
            }
        }
        return (0, Vec::new(), 0);
    }
    assert(l.take(3) =~= fu_prefix());
    let ghost rest = l.skip(3);
    let mut k: usize = 3;
    while k < lower.len()
        invariant
            3 <= k <= lower.len(),
            lower@ == l,
            rest == l.skip(3),
            l == lower_all(strip_punct(tok@, false)),
            l.len() >= 3,
            l.take(3) == fu_prefix(),
            forall|i: int| 3 <= i < k ==> is_ascii_digit(#[trigger] lower@[i]),
        decreases lower.len() - k,
    {
        if !('0' <= lower[k] && lower[k] <= '9') {
            assert(rest[k - 3] == lower@[k as int]);
            assert(!is_ascii_digit(rest[k - 3]));
            return (0, Vec::new(), 0);
        }
        k = k + 1;
    }
    assert forall|i: int| 0 <= i < rest.len() implies is_ascii_digit(#[trigger] rest[i]) by {
        assert(rest[i] == lower@[i + 3]);
    }
    if lower.len() == 3 {
        return (1, lower, 7);
    }
    assert(lower@.subrange(3, lower@.len() as int) =~= rest);
    match digits_u16(&lower, 3, lower.len()) {
        None => (2, Vec::new(), 0),
        Some(days) => {
            if 1 <= days && days <= 365 {
                (1, lower, days)
            } else {
                (0, Vec::new(), 0)
            }
        },
    }
}

/// `find_tag`: the first `#fu` tag of the text and its number of days.
fn find_tag(words_v: &Vec<Vec<char>>) -> (r: Option<(Vec<char>, u16)>)
    ensures
        match r {
            None => tag_in(views(words_v@)) is None,
            Some((t, d)) => tag_in(views(words_v@)) == Some((t@, d as int)),
        },
{
    let ghost toks = views(words_v@);
    let mut i: usize = 0;
    assert(toks.skip(0) =~= toks);
    while i < words_v.len()
        invariant
            0 <= i <= words_v.len(),
            toks == views(words_v@),
            tag_in(toks) == tag_in(toks.skip(i as int)),
        decreases words_v.len() - i,
    {
        let ghost rest = toks.skip(i as int);
        assert(rest[0] == words_v@[i as int]@);
        assert(rest.drop_first() =~= toks.skip(i + 1));
        let (kind, tag, days) = examine_tag(&words_v[i]);
        if kind == 1 {
            return Some((tag, days));
        } else if kind == 2 {
            return None;
        }
        i = i + 1;
    }
    None
}

// ---------------------------------------------------------------------------
// The mention
// ---------------------------------------------------------------------------

pub open spec fn handle_char(c: char) -> bool {
    ('a' <= c <= 'z') || ('A' <= c <= 'Z') || ('0' <= c <= '9') || c == '_'
}

/// A token, once trimmed of `. , ; : ! ? ( ) [ ]`, is a mention when it is `@`
/// followed by 1 to 15 ASCII letters, digits or underscores.
pub open spec fn mention_step(tok: Seq<char>) -> Option<Seq<char>> {
    let clean = strip_punct(tok, true);
    if clean.len() > 0 && clean[0] == '@' {
        let handle = clean.drop_first();
        if 1 <= handle.len() <= 15 && (forall|i: int|
            0 <= i < handle.len() ==> handle_char(#[trigger] handle[i])) {
            Some(clean)
        } else {
            None
        }
    } else {
        None
    }
}

/// The first mention among the tokens.
pub open spec fn mention_in(toks: Seq<Seq<char>>) -> Option<Seq<char>>
    decreases toks.len(),
{
    if toks.len() == 0 {
        None
    } else {
        match mention_step(toks[0]) {
            Some(m) => Some(m),
            None => mention_in(toks.drop_first()),
        }
    }
}

pub open spec fn mention_of(text: Seq<char>) -> Option<Seq<char>> {
    mention_in(words(text))
}

fn examine_mention(tok: &Vec<char>) -> (r: Option<String>)
    ensures
        match r {
            None => mention_step(tok@) is None,
            Some(m) => mention_step(tok@) == Some(m@),
        },
{
    let (lo, hi) = strip_bounds(tok, true);
    let ghost clean = tok@.subrange(lo as int, hi as int);
    if hi == lo || tok[lo] != '@' {
        return None;
    }
    let ghost handle = clean.drop_first();
    let n: usize = hi - lo - 1;
    if n < 1 || n > 15 {
        return None;
    }
    let mut k: usize = lo + 1;
    while k < hi
        invariant
            lo + 1 <= k <= hi <= tok.len(),
            clean == tok@.subrange(lo as int, hi as int),
            clean == strip_punct(tok@, true),
            clean.len() > 0 && clean[0] == '@',
            handle == clean.drop_first(),
            1 <= handle.len() <= 15,
            forall|i: int| lo + 1 <= i < k ==> handle_char(#[trigger] tok@[i]),
        decreases hi - k,
    {
        let c = tok[k];
        if !(('a' <= c && c <= 'z') || ('A' <= c && c <= 'Z') || ('0' <= c && c <= '9') || c
            == '_') {
            assert(handle[k - lo - 1] == tok@[k as int]);
            assert(!handle_char(handle[k - lo - 1]));
            return None;
        }
        k = k + 1;
    }
    assert forall|i: int| 0 <= i < handle.len() implies handle_char(#[trigger] handle[i]) by {
        assert(handle[i] == tok@[i + lo + 1]);
    }
    Some(string_of_range(tok, lo, hi))
}

/// `find_mention`: the first mentioned account of the text, with its `@`.
fn find_mention(words_v: &Vec<Vec<char>>) -> (r: Option<String>)
    ensures
        match r {
            None => mention_in(views(words_v@)) is None,
            Some(m) => mention_in(views(words_v@)) == Some(m@),
        },
{
    let ghost toks = views(words_v@);
    let mut i: usize = 0;
    assert(toks.skip(0) =~= toks);
    while i < words_v.len()
        invariant
            0 <= i <= words_v.len(),
            toks == views(words_v@),
            mention_in(toks) == mention_in(toks.skip(i as int)),
        decreases words_v.len() - i,
    {
        let ghost rest = toks.skip(i as int);
        assert(rest[0] == words_v@[i as int]@);
        assert(rest.drop_first() =~= toks.skip(i + 1));
        match examine_mention(&words_v[i]) {
            Some(m) => {
                return Some(m);
            },
            None => {},
        }
        i = i + 1;
    }
    None
}

// ---------------------------------------------------------------------------
// The follow-up request
// ---------------------------------------------------------------------------

/// A follow-up request read from a tweet: its tag, days to wait, and target account.
#[derive(Debug, Clone, PartialEq, Eq)]
pub struct ParsedFollowUp {
    pub tag: String,
    pub days: u16,
    pub target: String,
}

/// The follow-up request of a text: its first tag (see `tag_step`) and its first
/// mention (see `mention_step`), when the text has both.
pub open spec fn followup_of(text: Seq<char>) -> Option<(Seq<char>, int, Seq<char>)> {
    match tag_of(text) {
        None => None,
        Some((tag, days)) => match mention_of(text) {
            None => None,
            Some(target) => Some((tag, days, target)),
        },
    }
}

pub fn parse_followup(text: &str) -> (r: Option<ParsedFollowUp>)
    ensures
        match r {
            None => followup_of(text@) is None,
            Some(p) => followup_of(text@) == Some((p.tag@, p.days as int, p.target@)),
        },
{
    let chars = chars_of(text);
    let ws = split_words(&chars);
    let (tag, days) = match find_tag(&ws) {
        Some(found) => found,
        None => return None,
    };
    let target = match find_mention(&ws) {
        Some(m) => m,
        None => return None,
    };
    Some(ParsedFollowUp { tag: string_of_chars(&tag), days, target })
}

} // verus!

verus! {

// ---------------------------------------------------------------------------
// What a follow-up request always is
// ---------------------------------------------------------------------------

proof fn lemma_tag_in_bounds(toks: Seq<Seq<char>>)
    ensures
        tag_in(toks) matches Some((tag, days)) ==> 1 <= days <= 365 && tag.len() >= 3 && tag.take(
            3,
        ) == fu_prefix(),
    decreases toks.len(),
{
    if toks.len() > 0 {
        lemma_tag_in_bounds(toks.drop_first());
    }
}

proof fn lemma_mention_in_form(toks: Seq<Seq<char>>)
    ensures
        mention_in(toks) matches Some(m) ==> 2 <= m.len() <= 16 && m[0] == '@' && forall|i: int|
            1 <= i < m.len() ==> handle_char(#[trigger] m[i]),
    decreases toks.len(),
{
    if toks.len() > 0 {
        lemma_mention_in_form(toks.drop_first());
        if let Some(m) = mention_step(toks[0]) {
            assert forall|i: int| 1 <= i < m.len() implies handle_char(#[trigger] m[i]) by {
                assert(m[i] == m.drop_first()[i - 1]);
            }
        }
    }
}

/// A follow-up request waits 1 to 365 days, its tag starts with `#fu`, and its
/// target is `@` and 1 to 15 ASCII letters, digits or underscores.
pub proof fn lemma_followup_form(text: Seq<char>)
    ensures
        followup_of(text) matches Some((tag, days, target)) ==> {
            &&& 1 <= days <= 365
            &&& tag.len() >= 3 && tag.take(3) == fu_prefix()
            &&& 2 <= target.len() <= 16 && target[0] == '@'
            &&& forall|i: int| 1 <= i < target.len() ==> handle_char(#[trigger] target[i])
        },
{
    lemma_tag_in_bounds(words(text));
    lemma_mention_in_form(words(text));
}

} // verus!

verus! {

// ---------------------------------------------------------------------------
// The first handle is the target
// ---------------------------------------------------------------------------

/// A token that, trimmed of `. , ; : ! ? ( ) [ ]`, is `@` and 1 to 15 ASCII
/// letters, digits or underscores.
pub open spec fn handle_token(tok: Seq<char>) -> bool {
    let clean = strip_punct(tok, true);
    &&& 2 <= clean.len() <= 16
    &&& clean[0] == '@'
    &&& forall|i: int| 1 <= i < clean.len() ==> handle_char(#[trigger] clean[i])
}

proof fn lemma_mention_step_on_handles(tok: Seq<char>)
    ensures
        handle_token(tok) ==> mention_step(tok) == Some(strip_punct(tok, true)),
        !handle_token(tok) ==> mention_step(tok) is None,
{
    let clean = strip_punct(tok, true);
    if clean.len() > 0 && clean[0] == '@' {
        let h = clean.drop_first();
        assert forall|i: int| 1 <= i < clean.len() implies #[trigger] clean[i] == h[i - 1] by {}
        if handle_token(tok) {
            assert forall|i: int| 0 <= i < h.len() implies handle_char(#[trigger] h[i]) by {
                assert(h[i] == clean[i + 1]);
            }
        } else if 1 <= h.len() <= 15 && (forall|i: int| 0 <= i < h.len() ==> handle_char(#[trigger] h[i])) {
            assert forall|i: int| 1 <= i < clean.len() implies handle_char(#[trigger] clean[i]) by {
                assert(clean[i] == h[i - 1]);
            }
        }
    }
}

proof fn lemma_first_handle(toks: Seq<Seq<char>>, i: int)
    requires
        0 <= i < toks.len(),
        handle_token(toks[i]),
        forall|j: int| 0 <= j < i ==> !handle_token(#[trigger] toks[j]),
    ensures
        mention_in(toks) == Some(strip_punct(toks[i], true)),
    decreases i,
{
    lemma_mention_step_on_handles(toks[0]);
    if i > 0 {
        assert forall|j: int| 0 <= j < i - 1 implies !handle_token(#[trigger] toks.drop_first()[j]) by {
            assert(toks.drop_first()[j] == toks[j + 1]);
        }
        lemma_first_handle(toks.drop_first(), i - 1);
    }
}

/// The target of a tagged tweet is its first token that, trimmed of
/// punctuation, is `@` and 1 to 15 ASCII letters, digits or underscores.
pub proof fn lemma_first_handle_is_target(text: Seq<char>, i: int)
    requires
        0 <= i < words(text).len(),
        handle_token(words(text)[i]),
        forall|j: int| 0 <= j < i ==> !handle_token(#[trigger] words(text)[j]),
        tag_of(text) is Some,
    ensures
        followup_of(text) == Some(
            (tag_of(text).unwrap().0, tag_of(text).unwrap().1, strip_punct(words(text)[i], true)),
        ),
{
    lemma_first_handle(words(text), i);
}

/// A tweet none of whose tokens is such a handle is not tracked.
pub proof fn lemma_no_handle_untracked(text: Seq<char>)
    requires
        forall|i: int| 0 <= i < words(text).len() ==> !handle_token(#[trigger] words(text)[i]),
    ensures
        followup_of(text) is None,
{
    lemma_no_handle(words(text));
}

proof fn lemma_no_handle(toks: Seq<Seq<char>>)
    requires
        forall|i: int| 0 <= i < toks.len() ==> !handle_token(#[trigger] toks[i]),
    ensures
        mention_in(toks) is None,
    decreases toks.len(),
{
    if toks.len() > 0 {
        lemma_mention_step_on_handles(toks[0]);
        assert forall|i: int| 0 <= i < toks.drop_first().len() implies !handle_token(
            #[trigger] toks.drop_first()[i],
        ) by {
            assert(toks.drop_first()[i] == toks[i + 1]);
        }
        lemma_no_handle(toks.drop_first());
    }
}

} // verus!
