//! Text primitives over sequences of characters: whitespace, word and line
//! splitting, trimming and decimal integer parsing, each with the meaning that
//! the standard string methods of the same name give it.
use vstd::prelude::*;

verus! {

/// The characters of `s`, in order.
pub fn chars_of(s: &str) -> (r: Vec<char>)
    ensures
        r@ == s@,
{
    let mut out: Vec<char> = Vec::new();
    for c in it: s.chars()
        invariant
            out@ == it.seq().take(it.index() as int),
    {
        out.push(c);
    }
    out
}

/// Unicode `White_Space`, the set that `char::is_whitespace` tests.
pub open spec fn is_ws(c: char) -> bool {
    let u = c as u32;
    ||| 0x09 <= u <= 0x0D
    ||| u == 0x20
    ||| u == 0x85
    ||| u == 0xA0
    ||| u == 0x1680
    ||| 0x2000 <= u <= 0x200A
    ||| u == 0x2028
    ||| u == 0x2029
    ||| u == 0x202F
    ||| u == 0x205F
    ||| u == 0x3000
}

pub fn is_whitespace(c: char) -> (r: bool)
    ensures
        r == is_ws(c),
{
    let u = c as u32;
    (0x09 <= u && u <= 0x0D) || u == 0x20 || u == 0x85 || u == 0xA0 || u == 0x1680 || (0x2000
        <= u && u <= 0x200A) || u == 0x2028 || u == 0x2029 || u == 0x202F || u == 0x205F || u
        == 0x3000
}

/// The pieces of `s` between the given spans.
pub open spec fn spans_view<T>(s: Seq<T>, spans: Seq<(usize, usize)>) -> Seq<Seq<T>> {
    spans.map_values(|p: (usize, usize)| s.subrange(p.0 as int, p.1 as int))
}

pub open spec fn spans_within(spans: Seq<(usize, usize)>, lo: int, hi: int) -> bool {
    forall|k: int|
        0 <= k < spans.len() ==> lo <= (#[trigger] spans[k]).0 && spans[k].0 <= spans[k].1
            && spans[k].1 <= hi
}

// ---------------------------------------------------------------- words

/// Number of leading characters of `s` that are not whitespace.
pub open spec fn word_len(s: Seq<char>) -> nat
    decreases s.len(),
{
    if s.len() == 0 || is_ws(s[0]) {
        0
    } else {
        1 + word_len(s.drop_first())
    }
}

/// The maximal runs of non-whitespace characters of `s`, in order
/// (what `str::split_whitespace` yields).
pub open spec fn split_ws(s: Seq<char>) -> Seq<Seq<char>>
    decreases s.len(),
{
    if s.len() == 0 {
        seq![]
    } else if is_ws(s[0]) {
        split_ws(s.drop_first())
    } else {
        proof {
            lemma_word_len_bound(s);
        }
        let n = word_len(s);
        seq![s.take(n as int)] + split_ws(s.skip(n as int))
    }
}

pub proof fn lemma_word_len(s: Seq<char>, k: int)
    requires
        0 <= k <= s.len(),
        forall|i: int| 0 <= i < k ==> !is_ws(#[trigger] s[i]),
        k == s.len() || is_ws(s[k]),
    ensures
        word_len(s) == k,
    decreases k,
{
    if k > 0 {
        lemma_word_len(s.drop_first(), k - 1);
    }
}

pub proof fn lemma_word_len_bound(s: Seq<char>)
    ensures
        word_len(s) <= s.len(),
        0 < s.len() && !is_ws(s[0]) ==> word_len(s) > 0,
    decreases s.len(),
{
    if s.len() > 0 && !is_ws(s[0]) {
        lemma_word_len_bound(s.drop_first());
    }
}

/// Spans of the words of `s[lo..hi]`.
pub fn word_spans(s: &Vec<char>, lo: usize, hi: usize) -> (r: Vec<(usize, usize)>)
    requires
        lo <= hi <= s@.len(),
    ensures
        spans_view(s@, r@) == split_ws(s@.subrange(lo as int, hi as int)),
        spans_within(r@, lo as int, hi as int),
{
    let mut out: Vec<(usize, usize)> = Vec::new();
    let mut i = lo;
    while i < hi
        invariant
            lo <= i <= hi <= s@.len(),
            spans_within(out@, lo as int, hi as int),
            split_ws(s@.subrange(lo as int, hi as int)) == spans_view(s@, out@) + split_ws(
                s@.subrange(i as int, hi as int),
            ),
        decreases hi - i,
    {
        let ghost rest = s@.subrange(i as int, hi as int);
        if is_whitespace(s[i]) {
            assert(rest.drop_first() =~= s@.subrange(i + 1, hi as int));
            i = i + 1;
        } else {
            let mut j = i + 1;
            while j < hi && !is_whitespace(s[j])
                invariant
                    i < j <= hi <= s@.len(),
                    forall|t: int| i <= t < j ==> !is_ws(#[trigger] s@[t]),
                decreases hi - j,
            {
                j = j + 1;
            }
            proof {
                assert forall|t: int| 0 <= t < j - i implies !is_ws(#[trigger] rest[t]) by {
                    assert(rest[t] == s@[i + t]);
                }
                lemma_word_len(rest, j - i);
                assert(rest.take(j - i) =~= s@.subrange(i as int, j as int));
                assert(rest.skip(j - i) =~= s@.subrange(j as int, hi as int));
            }
            let ghost before = spans_view(s@, out@);
            out.push((i, j));
            proof {
                assert(spans_view(s@, out@) =~= before.push(s@.subrange(i as int, j as int)));
                assert(split_ws(rest) == seq![s@.subrange(i as int, j as int)] + split_ws(
                    s@.subrange(j as int, hi as int),
                ));
                assert(before + split_ws(rest) =~= spans_view(s@, out@) + split_ws(
                    s@.subrange(j as int, hi as int),
                ));
            }
            i = j;
        }
    }
    assert(s@.subrange(hi as int, hi as int) =~= Seq::<char>::empty());
    assert(spans_view(s@, out@) + Seq::<Seq<char>>::empty() =~= spans_view(s@, out@));
    out
}

// ---------------------------------------------------------------- lines

/// Number of elements of `s` before its first `nl` (all of them if none).
pub open spec fn line_len<T>(s: Seq<T>, nl: T) -> nat
    decreases s.len(),
{
    if s.len() == 0 || s[0] == nl {
        0
    } else {
        1 + line_len(s.drop_first(), nl)
    }
}

/// `s` without one trailing `cr`, if it has one.
pub open spec fn strip_last<T>(s: Seq<T>, cr: T) -> Seq<T> {
    if s.len() > 0 && s.last() == cr {
        s.drop_last()
    } else {
        s
    }
}

/// The lines of `s` as `str::lines` yields them: split after each `nl`, no
/// final empty line, and one `cr` removed before each `nl`.
pub open spec fn lines_of<T>(s: Seq<T>, nl: T, cr: T) -> Seq<Seq<T>>
    decreases s.len(),
{
    if s.len() == 0 {
        seq![]
    } else {
        let n = line_len(s, nl);
        if n < s.len() {
            seq![strip_last(s.take(n as int), cr)] + lines_of(s.skip((n + 1) as int), nl, cr)
        } else {
            seq![s]
        }
    }
}

/// The lines of a text.
pub open spec fn lines(s: Seq<char>) -> Seq<Seq<char>> {
    lines_of(s, '\n', '\r')
}

pub proof fn lemma_line_len<T>(s: Seq<T>, nl: T, k: int)
    requires
        0 <= k <= s.len(),
        forall|i: int| 0 <= i < k ==> #[trigger] s[i] != nl,
        k == s.len() || s[k] == nl,
    ensures
        line_len(s, nl) == k,
    decreases k,
{
    if k > 0 {
        lemma_line_len(s.drop_first(), nl, k - 1);
    }
}

/// Spans of the lines of `s` (the spans exclude the line terminators).
pub fn line_spans(s: &Vec<char>) -> (r: Vec<(usize, usize)>)
    ensures
        spans_view(s@, r@) == lines(s@),
        spans_within(r@, 0, s@.len() as int),
{
    let mut out: Vec<(usize, usize)> = Vec::new();
    let n = s.len();
    let mut i: usize = 0;
    assert(s@.subrange(0, n as int) =~= s@);
    while i < n
        invariant
            i <= n == s@.len(),
            spans_within(out@, 0, n as int),
            lines(s@) == spans_view(s@, out@) + lines(s@.subrange(i as int, n as int)),
        decreases n - i,
    {
        let ghost rest = s@.subrange(i as int, n as int);
        let mut j = i;
        while j < n && s[j] != '\n'
            invariant
                i <= j <= n == s@.len(),
                forall|t: int| i <= t < j ==> #[trigger] s@[t] != '\n',
            decreases n - j,
        {
            j = j + 1;
        }
        proof {
            assert forall|t: int| 0 <= t < j - i implies #[trigger] rest[t] != '\n' by {
                assert(rest[t] == s@[i + t]);
            }
            lemma_line_len(rest, '\n', j - i);
        }
        let ghost before = spans_view(s@, out@);
        if j < n {
            let end = if j > i && s[j - 1] == '\r' {
                j - 1
            } else {
                j
            };
            out.push((i, end));
            proof {
                assert(rest.take(j - i) =~= s@.subrange(i as int, j as int));
                assert(strip_last(rest.take(j - i), '\r') =~= s@.subrange(i as int, end as int));
                assert(rest.skip(j - i + 1) =~= s@.subrange(j + 1, n as int));
                assert(spans_view(s@, out@) =~= before.push(s@.subrange(i as int, end as int)));
                assert(before + lines(rest) =~= spans_view(s@, out@) + lines(
                    s@.subrange(j + 1, n as int),
                ));
            }
            i = j + 1;
        } else {
            out.push((i, n));
            proof {
                assert(spans_view(s@, out@) =~= before.push(rest));
                assert(s@.subrange(n as int, n as int) =~= Seq::<char>::empty());
                assert(before + lines(rest) =~= spans_view(s@, out@) + lines(
                    s@.subrange(n as int, n as int),
                ));
            }
            i = n;
        }
    }
    assert(s@.subrange(n as int, n as int) =~= Seq::<char>::empty());
    assert(spans_view(s@, out@) + Seq::<Seq<char>>::empty() =~= spans_view(s@, out@));
    out
}

// ---------------------------------------------------------------- trimming

pub open spec fn trim_start(s: Seq<char>) -> Seq<char>
    decreases s.len(),
{
    if s.len() > 0 && is_ws(s[0]) {
        trim_start(s.drop_first())
    } else {
        s
    }
}

pub open spec fn trim_end(s: Seq<char>) -> Seq<char>
    decreases s.len(),
{
    if s.len() > 0 && is_ws(s.last()) {
        trim_end(s.drop_last())
    } else {
        s
    }
}

/// `s` without leading and trailing whitespace (`str::trim`).
pub open spec fn trim(s: Seq<char>) -> Seq<char> {
    trim_start(trim_end(s))
}

/// `s` without any trailing `c` (`str::trim_end_matches` with one character).
pub open spec fn trim_end_char(s: Seq<char>, c: char) -> Seq<char>
    decreases s.len(),
{
    if s.len() > 0 && s.last() == c {
        trim_end_char(s.drop_last(), c)
    } else {
        s
    }
}

/// The span of `s[lo..hi]` that remains after `trim`.
pub fn trim_span(s: &Vec<char>, lo: usize, hi: usize) -> (r: (usize, usize))
    requires
        lo <= hi <= s@.len(),
    ensures
        lo <= r.0 <= r.1 <= hi,
        s@.subrange(r.0 as int, r.1 as int) == trim(s@.subrange(lo as int, hi as int)),
{
    let mut b = hi;
    while b > lo && is_whitespace(s[b - 1])
        invariant
            lo <= b <= hi <= s@.len(),
            trim_end(s@.subrange(lo as int, hi as int)) == trim_end(
                s@.subrange(lo as int, b as int),
            ),
        decreases b,
    {
        assert(s@.subrange(lo as int, b as int).drop_last() =~= s@.subrange(
            lo as int,
            b - 1,
        ));
        b = b - 1;
    }
    let mut a = lo;
    while a < b && is_whitespace(s[a])
        invariant
            lo <= a <= b <= hi <= s@.len(),
            trim(s@.subrange(lo as int, hi as int)) == trim_start(
                s@.subrange(a as int, b as int),
            ),
        decreases b - a,
    {
        assert(s@.subrange(a as int, b as int).drop_first() =~= s@.subrange(
            a + 1,
            b as int,
        ));
        a = a + 1;
    }
    (a, b)
}

/// The span of `s[lo..hi]` that remains after `trim_end_char(.., c)`.
pub fn trim_end_char_span(s: &Vec<char>, lo: usize, hi: usize, c: char) -> (r: usize)
    requires
        lo <= hi <= s@.len(),
    ensures
        lo <= r <= hi,
        s@.subrange(lo as int, r as int) == trim_end_char(s@.subrange(lo as int, hi as int), c),
{
    let mut b = hi;
    while b > lo && s[b - 1] == c
        invariant
            lo <= b <= hi <= s@.len(),
            trim_end_char(s@.subrange(lo as int, hi as int), c) == trim_end_char(
                s@.subrange(lo as int, b as int),
                c,
            ),
        decreases b,
    {
        assert(s@.subrange(lo as int, b as int).drop_last() =~= s@.subrange(
            lo as int,
            b - 1,
        ));
        b = b - 1;
    }
    b
}

/// Whether `s[lo..hi]` equals `t`.
pub fn span_eq(s: &Vec<char>, lo: usize, hi: usize, t: &[char]) -> (r: bool)
    requires
        lo <= hi <= s@.len(),
    ensures
        r == (s@.subrange(lo as int, hi as int) == t@),
{
    if hi - lo != t.len() {
        return false;
    }
    let mut k: usize = 0;
    while k < t.len()
        invariant
            hi - lo == t@.len(),
            lo <= hi <= s@.len(),
            k <= t@.len(),
            forall|m: int| 0 <= m < k ==> s@[lo + m] == t@[m],
        decreases t@.len() - k,
    {
        if s[lo + k] != t[k] {
            assert(s@.subrange(lo as int, hi as int)[k as int] != t@[k as int]);
            return false;
        }
        k = k + 1;
    }
    assert(s@.subrange(lo as int, hi as int) =~= t@);
    true
}

/// Whether `s[lo..hi]` begins with `t`.
pub fn span_starts_with(s: &Vec<char>, lo: usize, hi: usize, t: &[char]) -> (r: bool)
    requires
        lo <= hi <= s@.len(),
    ensures
        r == (t@.len() <= hi - lo && s@.subrange(lo as int, lo + t@.len()) == t@),
{
    if t.len() > hi - lo {
        return false;
    }
    span_eq(s, lo, lo + t.len(), t)
}

// ---------------------------------------------------------------- numbers

pub open spec fn is_digit(c: char) -> bool {
    '0' as u32 <= c as u32 <= '9' as u32
}

pub open spec fn all_digits(d: Seq<char>) -> bool {
    forall|i: int| 0 <= i < d.len() ==> is_digit(#[trigger] d[i])
}

/// The value of a string of decimal digits.
pub open spec fn digits_value(d: Seq<char>) -> nat
    decreases d.len(),
{
    if d.len() == 0 {
        0
    } else {
        digits_value(d.drop_last()) * 10 + ((d.last() as u32 - '0' as u32) as nat)
    }
}

/// `u64::from_str`: an optional `+`, then one or more ASCII digits whose value fits.
pub open spec fn parse_u64(s: Seq<char>) -> Option<u64> {
    let d = if s.len() > 0 && s[0] == '+' {
        s.drop_first()
    } else {
        s
    };
    if d.len() > 0 && all_digits(d) && digits_value(d) <= u64::MAX {
        Some(digits_value(d) as u64)
    } else {
        None
    }
}

/// `i64::from_str`: an optional `+` or `-`, then one or more ASCII digits whose
/// signed value fits.
pub open spec fn parse_i64(s: Seq<char>) -> Option<i64> {
    if s.len() > 0 && s[0] == '-' {
        let d = s.drop_first();
        if d.len() > 0 && all_digits(d) && digits_value(d) <= 0x8000_0000_0000_0000 {
            Some((0 - digits_value(d)) as i64)
        } else {
            None
        }
    } else {
        let d = if s.len() > 0 && s[0] == '+' {
            s.drop_first()
        } else {
            s
        };
        if d.len() > 0 && all_digits(d) && digits_value(d) <= i64::MAX {
            Some(digits_value(d) as i64)
        } else {
            None
        }
    }
}

proof fn lemma_digits_value_prefix(d: Seq<char>, k: int)
    requires
        0 <= k <= d.len(),
        all_digits(d),
    ensures
        digits_value(d.take(k)) <= digits_value(d),
    decreases d.len() - k,
{
    if k < d.len() {
        lemma_digits_value_prefix(d, k + 1);
        assert(d.take(k + 1).drop_last() =~= d.take(k));
        assert(is_digit(d[k]));
    } else {
        assert(d.take(k) =~= d);
    }
}

/// Value of the digits `s[lo..hi]`, if they are all digits, there is at least
/// one, and the value is at most `max`.
fn digits_upto(s: &Vec<char>, lo: usize, hi: usize, max: u64) -> (r: Option<u64>)
    requires
        lo <= hi <= s@.len(),
    ensures
        ({
            let d = s@.subrange(lo as int, hi as int);
            r == if d.len() > 0 && all_digits(d) && digits_value(d) <= max {
                Some(digits_value(d) as u64)
            } else {
                None
            }
        }),
{
    let ghost d = s@.subrange(lo as int, hi as int);
    if lo == hi {
        return None;
    }
    let mut v: u64 = 0;
    let mut i = lo;
    while i < hi
        invariant
            lo <= i <= hi <= s@.len(),
            d == s@.subrange(lo as int, hi as int),
            all_digits(d.take(i - lo)),
            v == digits_value(d.take(i - lo)),
            v <= max,
        decreases hi - i,
    {
        let c = s[i];
        let cu = c as u32;
        if cu < '0' as u32 || cu > '9' as u32 {
            assert(!is_digit(d[i - lo]));
            return None;
        }
        let dv = (cu - '0' as u32) as u64;
        proof {
            assert(d.take(i - lo + 1).drop_last() =~= d.take(i - lo));
            assert(d.take(i - lo + 1).last() == c);
        }
        if (v as u128) * 10 + (dv as u128) > max as u128 {
            proof {
                assert(digits_value(d.take(i - lo + 1)) == v * 10 + dv);
                assert(all_digits(d.take(i - lo + 1)));
                if all_digits(d) {
                    lemma_digits_value_prefix(d, i - lo + 1);
                    assert(d.take(i - lo + 1) =~= d.take(i - lo + 1));
                }
            }
            return None;
        }
        v = v * 10 + dv;
        i = i + 1;
        proof {
            assert forall|t: int| 0 <= t < i - lo implies is_digit(#[trigger] d.take(i - lo)[t]) by {
                if t < i - lo - 1 {
                    assert(d.take(i - lo)[t] == d.take(i - lo - 1)[t]);
                }
            }
        }
    }
    assert(d.take(hi - lo) =~= d);
    Some(v)
}

/// `u64::from_str` on `s[lo..hi]`.
pub fn parse_u64_span(s: &Vec<char>, lo: usize, hi: usize) -> (r: Option<u64>)
    requires
        lo <= hi <= s@.len(),
    ensures
        r == parse_u64(s@.subrange(lo as int, hi as int)),
{
    let ghost w = s@.subrange(lo as int, hi as int);
    if lo < hi && s[lo] == '+' {
        assert(w.drop_first() =~= s@.subrange(lo + 1, hi as int));
        digits_upto(s, lo + 1, hi, u64::MAX)
    } else {
        digits_upto(s, lo, hi, u64::MAX)
    }
}

/// `i64::from_str` on `s[lo..hi]`.
pub fn parse_i64_span(s: &Vec<char>, lo: usize, hi: usize) -> (r: Option<i64>)
    requires
        lo <= hi <= s@.len(),
    ensures
        r == parse_i64(s@.subrange(lo as int, hi as int)),
{
    let ghost w = s@.subrange(lo as int, hi as int);
    if lo < hi && s[lo] == '-' {
        assert(w.drop_first() =~= s@.subrange(lo + 1, hi as int));
        let m = digits_upto(s, lo + 1, hi, 0x8000_0000_0000_0000u64);
        match m {
            Some(v) => {
                if v == 0x8000_0000_0000_0000u64 {
                    Some(i64::MIN)
                } else {
                    Some(0 - (v as i64))
                }
            },
            None => None,
        }
    } else if lo < hi && s[lo] == '+' {
        assert(w.drop_first() =~= s@.subrange(lo + 1, hi as int));
        match digits_upto(s, lo + 1, hi, i64::MAX as u64) {
            Some(v) => Some(v as i64),
            None => None,
        }
    } else {
        match digits_upto(s, lo, hi, i64::MAX as u64) {
            Some(v) => Some(v as i64),
            None => None,
        }
    }
}

/// `u64::from_str` on a whole string.
pub fn parse_u64_str(s: &str) -> (r: Option<u64>)
    ensures
        r == parse_u64(s@),
{
    let cs = chars_of(s);
    assert(cs@.subrange(0, cs@.len() as int) =~= cs@);
    parse_u64_span(&cs, 0, cs.len())
}

} // verus!

verus! {

/// What `String::from_utf8_lossy` makes of the bytes `b`.
pub uninterp spec fn lossy_text(b: Seq<u8>) -> Seq<char>;

/// Calls `String::from_utf8_lossy` (std). Trusted: the result is
/// `lossy_text(bytes)`, which for valid UTF-8 is the decoded text (as std
/// documents); how invalid sequences are replaced is left to the name.
#[verifier::external_body]
pub(crate) fn utf8_lossy(bytes: &[u8]) -> (r: String)
    ensures
        r@ == lossy_text(bytes@),
        vstd::utf8::valid_utf8(bytes@) ==> r@ == vstd::utf8::decode_utf8(bytes@),
{
    String::from_utf8_lossy(bytes).into_owned()
}

/// Calls `FromIterator<&char>` for `String` (std). Trusted: the string holds
/// exactly the characters `cs`, in order, as std documents.
#[verifier::external_body]
pub(crate) fn string_from_chars(cs: &[char]) -> (r: String)
    ensures
        r@ == cs@,
{
    cs.iter().collect()
}

} // verus!
