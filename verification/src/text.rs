//! Character and number helpers shared by the codec, the date arithmetic and the parsers.
use vstd::prelude::*;
use vstd::string::*;

verus! {

// ---------------------------------------------------------------------------
// Building strings
// ---------------------------------------------------------------------------

/// Appends one character with `String::push`; what is trusted is that the
/// characters afterwards are those before with `c` added at the end.
#[verifier::external_body]
pub(crate) fn push_char(s: &mut String, c: char)
    ensures
        final(s)@ == old(s)@.push(c),
{
    s.push(c)
}

/// Appends a string slice.
pub fn push_str(out: &mut String, s: &str)
    ensures
        final(out)@ == old(out)@ + s@,
{
    out.append(s);
}

/// The characters of a string slice, in order.
pub fn chars_of(s: &str) -> (v: Vec<char>)
    ensures
        v@ == s@,
{
    let mut v: Vec<char> = Vec::new();
    for c in it: s.chars()
        invariant
            v@ == it.seq().take(it.index() as int),
            it.seq() == s@,
    {
        v.push(c);
    }
    v
}

/// A string made of the characters `v[lo..hi]`.
pub fn string_of_range(v: &Vec<char>, lo: usize, hi: usize) -> (s: String)
    requires
        lo <= hi <= v.len(),
    ensures
        s@ == v@.subrange(lo as int, hi as int),
{
    let mut s = String::new();
    let mut i: usize = lo;
    while i < hi
        invariant
            lo <= i <= hi <= v.len(),
            s@ == v@.subrange(lo as int, i as int),
        decreases hi - i,
    {
        push_char(&mut s, v[i]);
        assert(v@.subrange(lo as int, i + 1) == v@.subrange(lo as int, i as int).push(v@[i as int]));
        i = i + 1;
    }
    s
}

/// A string made of all the characters of `v`.
pub fn string_of_chars(v: &Vec<char>) -> (s: String)
    ensures
        s@ == v@,
{
    let s = string_of_range(v, 0, v.len());
    assert(v@.subrange(0, v@.len() as int) == v@);
    s
}

/// Whether two strings hold the same characters.
pub fn same_text(a: &str, b: &str) -> (r: bool)
    ensures
        r == (a@ == b@),
{
    let x = chars_of(a);
    let y = chars_of(b);
    if x.len() != y.len() {
        return false;
    }
    let mut i: usize = 0;
    while i < x.len()
        invariant
            x@ == a@,
            y@ == b@,
            x.len() == y.len(),
            0 <= i <= x.len(),
            forall|k: int| 0 <= k < i ==> x@[k] == y@[k],
        decreases x.len() - i,
    {
        if x[i] != y[i] {
            return false;
        }
        i = i + 1;
    }
    assert(x@ =~= y@);
    true
}

// ---------------------------------------------------------------------------
// ASCII and Unicode character classes
// ---------------------------------------------------------------------------

/// `char::is_whitespace`: the Unicode `White_Space` property.
pub open spec fn is_space(c: char) -> bool {
    let u = c as u32;
    ||| 0x09 <= u <= 0x0d
    ||| u == 0x20
    ||| u == 0x85
    ||| u == 0xa0
    ||| u == 0x1680
    ||| 0x2000 <= u <= 0x200a
    ||| u == 0x2028
    ||| u == 0x2029
    ||| u == 0x202f
    ||| u == 0x205f
    ||| u == 0x3000
}

pub fn is_space_char(c: char) -> (r: bool)
    ensures
        r == is_space(c),
{
    let u = c as u32;
    (0x09 <= u && u <= 0x0d) || u == 0x20 || u == 0x85 || u == 0xa0 || u == 0x1680 || (0x2000 <= u
        && u <= 0x200a) || u == 0x2028 || u == 0x2029 || u == 0x202f || u == 0x205f || u == 0x3000
}

/// `char::to_ascii_lowercase`.
pub open spec fn lower(c: char) -> char {
    if 'A' <= c <= 'Z' {
        ((c as u32) + 32) as char
    } else {
        c
    }
}

/// `char::to_ascii_uppercase`.
pub open spec fn upper(c: char) -> char {
    if 'a' <= c <= 'z' {
        ((c as u32) - 32) as char
    } else {
        c
    }
}

pub open spec fn lower_all(s: Seq<char>) -> Seq<char> {
    s.map_values(|c: char| lower(c))
}

pub open spec fn upper_all(s: Seq<char>) -> Seq<char> {
    s.map_values(|c: char| upper(c))
}

pub fn lower_char(c: char) -> (r: char)
    ensures
        r == lower(c),
{
    if 'A' <= c && c <= 'Z' {
        ((c as u32) + 32) as u8 as char
    } else {
        c
    }
}

pub fn upper_char(c: char) -> (r: char)
    ensures
        r == upper(c),
{
    if 'a' <= c && c <= 'z' {
        ((c as u32) - 32) as u8 as char
    } else {
        c
    }
}

/// `to_ascii_lowercase` over `v[lo..hi]`.
pub fn lower_range(v: &Vec<char>, lo: usize, hi: usize) -> (r: Vec<char>)
    requires
        lo <= hi <= v.len(),
    ensures
        r@ == lower_all(v@.subrange(lo as int, hi as int)),
{
    let mut r: Vec<char> = Vec::new();
    let mut i: usize = lo;
    while i < hi
        invariant
            lo <= i <= hi <= v.len(),
            r@ == lower_all(v@.subrange(lo as int, i as int)),
        decreases hi - i,
    {
        r.push(lower_char(v[i]));
        assert(lower_all(v@.subrange(lo as int, i + 1)) =~= lower_all(
            v@.subrange(lo as int, i as int),
        ).push(lower(v@[i as int])));
        i = i + 1;
    }
    r
}

/// `to_ascii_uppercase` over a whole sequence.
pub fn upper_vec(v: &Vec<char>) -> (r: Vec<char>)
    ensures
        r@ == upper_all(v@),
{
    let mut r: Vec<char> = Vec::new();
    let mut i: usize = 0;
    while i < v.len()
        invariant
            0 <= i <= v.len(),
            r@ == upper_all(v@.subrange(0, i as int)),
        decreases v.len() - i,
    {
        r.push(upper_char(v[i]));
        assert(upper_all(v@.subrange(0, i + 1)) =~= upper_all(v@.subrange(0, i as int)).push(
            upper(v@[i as int]),
        ));
        i = i + 1;
    }
    assert(v@.subrange(0, v@.len() as int) == v@);
    r
}

/// Whether `s` holds exactly the characters `lit`.
pub fn vec_is(v: &Vec<char>, lit: &str) -> (r: bool)
    ensures
        r == (v@ == lit@),
{
    let w = chars_of(lit);
    if v.len() != w.len() {
        return false;
    }
    let mut i: usize = 0;
    while i < v.len()
        invariant
            w@ == lit@,
            v.len() == w.len(),
            0 <= i <= v.len(),
            forall|k: int| 0 <= k < i ==> v@[k] == w@[k],
        decreases v.len() - i,
    {
        if v[i] != w[i] {
            return false;
        }
        i = i + 1;
    }
    assert(v@ =~= w@);
    true
}

// ---------------------------------------------------------------------------
// Trimming
// ---------------------------------------------------------------------------

/// Number of leading characters of `s` that are white space.
pub open spec fn lead_space(s: Seq<char>) -> nat
    decreases s.len(),
{
    if s.len() > 0 && is_space(s[0]) {
        1 + lead_space(s.drop_first())
    } else {
        0
    }
}

/// Number of trailing characters of `s` that are white space.
pub open spec fn trail_space(s: Seq<char>) -> nat
    decreases s.len(),
{
    if s.len() > 0 && is_space(s.last()) {
        1 + trail_space(s.drop_last())
    } else {
        0
    }
}

/// `str::trim`: `s` without its leading and trailing white space.
pub open spec fn trim(s: Seq<char>) -> Seq<char> {
    let t = s.skip(lead_space(s) as int);
    t.take(t.len() - trail_space(t))
}

pub proof fn lemma_lead_space(s: Seq<char>, i: int)
    requires
        0 <= i <= s.len(),
        forall|k: int| 0 <= k < i ==> is_space(#[trigger] s[k]),
        i == s.len() || !is_space(s[i]),
    ensures
        lead_space(s) == i,
    decreases i,
{
    if i > 0 {
        lemma_lead_space(s.drop_first(), i - 1);
    }
}

pub proof fn lemma_trail_space(s: Seq<char>, j: int)
    requires
        0 <= j <= s.len(),
        forall|k: int| j <= k < s.len() ==> is_space(#[trigger] s[k]),
        j == 0 || !is_space(s[j - 1]),
    ensures
        trail_space(s) == s.len() - j,
    decreases s.len() - j,
{
    if j < s.len() {
        lemma_trail_space(s.drop_last(), j);
    }
}

/// Bounds `[lo, hi)` of the trimmed part of `v`.
pub fn trim_bounds(v: &Vec<char>) -> (r: (usize, usize))
    ensures
        r.0 <= r.1 <= v.len(),
        v@.subrange(r.0 as int, r.1 as int) == trim(v@),
{
    let mut i: usize = 0;
    while i < v.len() && is_space_char(v[i])
        invariant
            0 <= i <= v.len(),
            forall|k: int| 0 <= k < i ==> is_space(#[trigger] v@[k]),
        decreases v.len() - i,
    {
        i = i + 1;
    }
    proof {
        lemma_lead_space(v@, i as int);
    }
    let mut j: usize = v.len();
    while j > i && is_space_char(v[j - 1])
        invariant
            i <= j <= v.len(),
            forall|k: int| j <= k < v.len() ==> is_space(#[trigger] v@[k]),
        decreases j,
    {
        j = j - 1;
    }
    proof {
        let t = v@.skip(i as int);
        assert forall|k: int| j - i <= k < t.len() implies is_space(#[trigger] t[k]) by {
            assert(t[k] == v@[k + i]);
        }
        if j > i {
            assert(t[j - i - 1] == v@[j - 1]);
        }
        lemma_trail_space(t, j - i);
        assert(t.take(t.len() - trail_space(t)) =~= v@.subrange(i as int, j as int));
    }
    (i, j)
}

/// `str::trim` followed by `to_string`.
pub fn trimmed(s: &str) -> (r: String)
    ensures
        r@ == trim(s@),
{
    let v = chars_of(s);
    let (lo, hi) = trim_bounds(&v);
    string_of_range(&v, lo, hi)
}

// ---------------------------------------------------------------------------
// Decimal formatting
// ---------------------------------------------------------------------------

/// The character of decimal digit `d`.
pub open spec fn digit_char(d: int) -> char {
    ((d + 48) as u32) as char
}

/// `n` written in decimal, as `format!("{}", n)` writes it.
pub open spec fn decimal(n: nat) -> Seq<char>
    decreases n,
{
    if n < 10 {
        seq![digit_char(n as int)]
    } else {
        decimal(n / 10).push(digit_char((n % 10) as int))
    }
}

pub open spec fn zeros(k: nat) -> Seq<char> {
    Seq::new(k, |i: int| '0')
}

/// `format!("{:0w$}", n)` for a non-negative `n`.
pub open spec fn padded(n: nat, w: nat) -> Seq<char> {
    let d = decimal(n);
    if d.len() < w {
        zeros((w - d.len()) as nat) + d
    } else {
        d
    }
}

/// `format!("{:0w$}", v)` for a signed `v`: the sign counts toward the width.
pub open spec fn padded_signed(v: int, w: nat) -> Seq<char> {
    if v < 0 {
        seq!['-'] + padded((-v) as nat, if w > 0 {
            (w - 1) as nat
        } else {
            0
        })
    } else {
        padded(v as nat, w)
    }
}

pub fn digit(d: u64) -> (c: char)
    requires
        d < 10,
    ensures
        c == digit_char(d as int),
{
    ((d as u8) + 48) as char
}

/// Appends `n` in decimal.
pub fn push_decimal(out: &mut String, n: u64)
    ensures
        final(out)@ == old(out)@ + decimal(n as nat),
    decreases n,
{
    if n >= 10 {
        push_decimal(out, n / 10);
    }
    push_char(out, digit(n % 10));
    proof {
        if n >= 10 {
            assert(old(out)@ + decimal(n as nat) =~= old(out)@ + decimal((n / 10) as nat) + seq![
                digit_char((n % 10) as int),
            ]);
        }
    }
}

pub open spec fn pow10(k: nat) -> nat
    decreases k,
{
    if k == 0 {
        1
    } else {
        10 * pow10((k - 1) as nat)
    }
}

pub proof fn lemma_decimal_len(n: nat, k: nat)
    requires
        n < pow10(k),
        k > 0,
    ensures
        decimal(n).len() <= k,
    decreases k,
{
    if n >= 10 {
        if k == 1 {
            assert(pow10(1) == 10) by {
                reveal_with_fuel(pow10, 2);
            }
        }
        let p = pow10((k - 1) as nat);
        assert(n / 10 < p) by (nonlinear_arith)
            requires
                n < 10 * p,
        ;
        lemma_decimal_len(n / 10, (k - 1) as nat);
    }
}

pub proof fn lemma_decimal_len_u64(n: u64)
    ensures
        decimal(n as nat).len() <= 20,
{
    reveal_with_fuel(pow10, 21);
    assert(pow10(20) == 100000000000000000000nat);
    lemma_decimal_len(n as nat, 20);
}

/// The number of characters in `decimal(n)`.
pub fn decimal_len(n: u64) -> (r: usize)
    ensures
        r == decimal(n as nat).len(),
        r <= 20,
    decreases n,
{
    proof {
        lemma_decimal_len_u64(n);
    }
    if n < 10 {
        1
    } else {
        let k: usize = decimal_len(n / 10);
        k + 1
    }
}

/// Appends `n` in decimal, left-padded with zeros to `w` characters.
pub fn push_padded(out: &mut String, n: u64, w: usize)
    ensures
        final(out)@ == old(out)@ + padded(n as nat, w as nat),
{
    let len: usize = decimal_len(n);
    let ghost start = out@;
    if len < w {
        let mut k: usize = 0;
        while k < w - len
            invariant
                len < w,
                k <= w - len,
                out@ == start + zeros(k as nat),
            decreases w - len - k,
        {
            push_char(out, '0');
            assert(zeros((k + 1) as nat) =~= zeros(k as nat).push('0'));
            k = k + 1;
        }
    }
    push_decimal(out, n);
    assert(out@ =~= start + padded(n as nat, w as nat));
}

/// Appends `v` in decimal, zero-padded to `w` characters with the sign counted.
pub fn push_padded_signed(out: &mut String, v: i64, w: usize)
    requires
        v > i64::MIN,
    ensures
        final(out)@ == old(out)@ + padded_signed(v as int, w as nat),
{
    if v < 0 {
        let ghost start = out@;
        push_char(out, '-');
        let w1: usize = if w > 0 {
            w - 1
        } else {
            0
        };
        push_padded(out, (-v) as u64, w1);
        assert(out@ =~= start + padded_signed(v as int, w as nat));
    } else {
        push_padded(out, v as u64, w);
    }
}

// ---------------------------------------------------------------------------
// Integer parsing, as `str::parse` does it
// ---------------------------------------------------------------------------

pub open spec fn is_digit_byte(b: u8) -> bool {
    48 <= b <= 57
}

pub open spec fn all_digits(s: Seq<u8>) -> bool {
    forall|i: int| 0 <= i < s.len() ==> is_digit_byte(#[trigger] s[i])
}

/// The value of a sequence of decimal digit bytes.
pub open spec fn digits_value(s: Seq<u8>) -> nat
    decreases s.len(),
{
    if s.len() == 0 {
        0
    } else {
        digits_value(s.drop_last()) * 10 + (s.last() - 48) as nat
    }
}

/// `str::parse::<T>()` for an integer type `T` whose values are `min..=max`, on the
/// bytes of the string: an optional `+` (or `-` where `T` is signed), then at
/// least one ASCII digit, and a value that fits in `T`.
pub open spec fn parse_int(s: Seq<u8>, min: int, max: int) -> Option<int> {
    if s.len() == 0 {
        None
    } else {
        let neg = s[0] == 45u8 && min < 0;
        let body = if s[0] == 43u8 || neg {
            s.drop_first()
        } else {
            s
        };
        if body.len() == 0 || !all_digits(body) {
            None
        } else {
            let v = if neg {
                -(digits_value(body) as int)
            } else {
                digits_value(body) as int
            };
            if min <= v <= max {
                Some(v)
            } else {
                None
            }
        }
    }
}

proof fn lemma_digits_value_grows(s: Seq<u8>, k: int)
    requires
        0 <= k <= s.len(),
        all_digits(s),
    ensures
        digits_value(s.take(k)) <= digits_value(s),
    decreases s.len() - k,
{
    if k < s.len() {
        lemma_digits_value_grows(s, k + 1);
        let t = s.take(k + 1);
        assert(t.drop_last() =~= s.take(k));
        assert(digits_value(t) == digits_value(t.drop_last()) * 10 + (t.last() - 48) as nat);
    } else {
        assert(s.take(k) =~= s);
    }
}

/// The value of the digits `b[lo..hi]` if they are all digits and the value fits in a `u64`.
fn digits_u64(b: &[u8], lo: usize, hi: usize) -> (r: Option<u64>)
    requires
        lo <= hi <= b@.len(),
    ensures
        all_digits(b@.subrange(lo as int, hi as int)) && digits_value(
            b@.subrange(lo as int, hi as int),
        ) <= u64::MAX <==> r is Some,
        r matches Some(v) ==> v == digits_value(b@.subrange(lo as int, hi as int)),
{
    let ghost s = b@.subrange(lo as int, hi as int);
    let mut acc: u64 = 0;
    let mut i: usize = lo;
    while i < hi
        invariant
            lo <= i <= hi <= b@.len(),
            s == b@.subrange(lo as int, hi as int),
            all_digits(s.take(i - lo)),
            acc == digits_value(s.take(i - lo)),
        decreases hi - i,
    {
        let c: u8 = b[i];
        assert(s[i - lo] == c);
        if c < 48 || c > 57 {
            return None;
        }
        assert(s.take(i + 1 - lo).drop_last() =~= s.take(i - lo));
        assert(s.take(i + 1 - lo).last() == c);
        let d: u64 = (c - 48) as u64;
        match acc.checked_mul(10) {
            Some(m) => match m.checked_add(d) {
                Some(n) => {
                    acc = n;
                },
                None => {
                    proof {
                        lemma_prefix_too_large(s, i + 1 - lo);
                    }
                    return None;
                },
            },
            None => {
                proof {
                    lemma_prefix_too_large(s, i + 1 - lo);
                }
                return None;
            },
        }
        assert(all_digits(s.take(i + 1 - lo)));
        i = i + 1;
    }
    assert(s.take(hi - lo) =~= s);
    Some(acc)
}

/// When a prefix of `s` already exceeds `u64::MAX`, so does `s` (or `s` is not all digits).
proof fn lemma_prefix_too_large(s: Seq<u8>, k: int)
    requires
        0 <= k <= s.len(),
        digits_value(s.take(k)) > u64::MAX,
    ensures
        !(all_digits(s) && digits_value(s) <= u64::MAX),
{
    if all_digits(s) {
        lemma_digits_value_grows(s, k);
    }
}

/// `str::parse` of the bytes `b[lo..hi]` into an unsigned type whose largest value is `max`.
pub fn parse_unsigned(b: &[u8], lo: usize, hi: usize, max: u64) -> (r: Option<u64>)
    requires
        lo <= hi <= b@.len(),
    ensures
        r == (match parse_int(b@.subrange(lo as int, hi as int), 0, max as int) {
            Some(v) => Some(v as u64),
            None => None::<u64>,
        }),
{
    let ghost s = b@.subrange(lo as int, hi as int);
    if lo == hi {
        return None;
    }
    let start: usize = if b[lo] == 43u8 {
        lo + 1
    } else {
        lo
    };
    assert(s[0] == b@[lo as int]);
    let ghost body = b@.subrange(start as int, hi as int);
    assert(body =~= (if s[0] == 43u8 {
        s.drop_first()
    } else {
        s
    }));
    if start == hi {
        return None;
    }
    match digits_u64(b, start, hi) {
        Some(v) => {
            if v <= max {
                Some(v)
            } else {
                None
            }
        },
        None => None,
    }
}

/// `str::parse` of the bytes `b[lo..hi]` into a signed type whose values are `min..=max`.
pub fn parse_signed(b: &[u8], lo: usize, hi: usize, min: i64, max: i64) -> (r: Option<i64>)
    requires
        lo <= hi <= b@.len(),
        min < 0 <= max,
    ensures
        r == (match parse_int(b@.subrange(lo as int, hi as int), min as int, max as int) {
            Some(v) => Some(v as i64),
            None => None::<i64>,
        }),
{
    let ghost s = b@.subrange(lo as int, hi as int);
    if lo == hi {
        return None;
    }
    let neg = b[lo] == 45u8;
    let start: usize = if b[lo] == 43u8 || neg {
        lo + 1
    } else {
        lo
    };
    assert(s[0] == b@[lo as int]);
    let ghost body = b@.subrange(start as int, hi as int);
    assert(body =~= (if s[0] == 43u8 || (s[0] == 45u8 && min < 0) {
        s.drop_first()
    } else {
        s
    }));
    if start == hi {
        return None;
    }
    match digits_u64(b, start, hi) {
        Some(v) => {
            if neg {
                if v <= (-(min as i128)) as u64 {
                    Some((-(v as i128)) as i64)
                } else {
                    None
                }
            } else {
                if v <= max as u64 {
                    Some(v as i64)
                } else {
                    None
                }
            }
        },
        None => None,
    }
}

} // verus!

verus! {

// ---------------------------------------------------------------------------
// Reading back what the formatters write
// ---------------------------------------------------------------------------

/// The bytes of an ASCII character sequence.
pub open spec fn bytes_of(s: Seq<char>) -> Seq<u8> {
    s.map_values(|c: char| c as u8)
}

pub open spec fn is_digit_char(c: char) -> bool {
    '0' <= c <= '9'
}

pub proof fn lemma_decimal_digits(n: nat)
    ensures
        forall|i: int| 0 <= i < decimal(n).len() ==> is_digit_char(#[trigger] decimal(n)[i]),
        decimal(n).len() >= 1,
        all_digits(bytes_of(decimal(n))),
        digits_value(bytes_of(decimal(n))) == n,
    decreases n,
{
    let b = bytes_of(decimal(n));
    if n >= 10 {
        lemma_decimal_digits(n / 10);
        let p = decimal(n / 10);
        assert(b.drop_last() =~= bytes_of(p));
        assert(decimal(n).last() == digit_char((n % 10) as int));
        assert(b.last() == decimal(n).last() as u8);
        assert(b.last() == (n % 10) + 48);
        assert(digits_value(b) == digits_value(b.drop_last()) * 10 + (b.last() - 48) as nat);
    } else {
        assert(b.drop_last() =~= Seq::<u8>::empty());
        assert(b.last() == n + 48);
        assert(digits_value(b) == digits_value(b.drop_last()) * 10 + (b.last() - 48) as nat);
    }
}

proof fn lemma_zeros_value(k: nat)
    ensures
        all_digits(bytes_of(zeros(k))),
        digits_value(bytes_of(zeros(k))) == 0,
    decreases k,
{
    if k > 0 {
        lemma_zeros_value((k - 1) as nat);
        assert(bytes_of(zeros(k)).drop_last() =~= bytes_of(zeros((k - 1) as nat)));
    }
}

proof fn lemma_zeros_prefix(k: nat, x: Seq<u8>)
    ensures
        digits_value(bytes_of(zeros(k)) + x) == digits_value(x),
    decreases x.len(),
{
    if x.len() == 0 {
        lemma_zeros_value(k);
        assert(bytes_of(zeros(k)) + x =~= bytes_of(zeros(k)));
    } else {
        lemma_zeros_prefix(k, x.drop_last());
        assert((bytes_of(zeros(k)) + x).drop_last() =~= bytes_of(zeros(k)) + x.drop_last());
    }
}

/// `padded(n, w)` is `w` digits (when `n` has at most `w` digits) whose value is `n`.
pub proof fn lemma_padded(n: nat, w: nat)
    requires
        decimal(n).len() <= w,
    ensures
        padded(n, w).len() == w,
        forall|i: int| 0 <= i < padded(n, w).len() ==> is_digit_char(#[trigger] padded(n, w)[i]),
        all_digits(bytes_of(padded(n, w))),
        digits_value(bytes_of(padded(n, w))) == n,
{
    lemma_decimal_digits(n);
    let d = decimal(n);
    if d.len() < w {
        let z = zeros((w - d.len()) as nat);
        lemma_zeros_value((w - d.len()) as nat);
        assert(bytes_of(z + d) =~= bytes_of(z) + bytes_of(d));
        lemma_zeros_prefix((w - d.len()) as nat, bytes_of(d));
        assert forall|i: int| 0 <= i < padded(n, w).len() implies is_digit_char(
            #[trigger] padded(n, w)[i],
        ) by {
            if i >= z.len() {
                assert(padded(n, w)[i] == d[i - z.len()]);
            }
        }
    }
}

/// Exact lengths of `decimal(n)` for small `n`.
pub proof fn lemma_decimal_small(n: nat)
    ensures
        n < 10 ==> decimal(n).len() == 1,
        10 <= n < 100 ==> decimal(n).len() == 2,
        100 <= n < 1000 ==> decimal(n).len() == 3,
        1000 <= n < 10000 ==> decimal(n).len() == 4,
{
    reveal_with_fuel(decimal, 5);
}

} // verus!

verus! {

/// `str::parse` reads back what `padded` writes.
pub proof fn lemma_parse_padded(n: nat, w: nat, min: int, max: int)
    requires
        decimal(n).len() <= w,
        min <= n <= max,
    ensures
        parse_int(bytes_of(padded(n, w)), min, max) == Some(n as int),
{
    lemma_padded(n, w);
    lemma_decimal_digits(n);
    let p = bytes_of(padded(n, w));
    assert(is_digit_char(padded(n, w)[0]));
    assert(p[0] == padded(n, w)[0] as u8);
}

} // verus!
