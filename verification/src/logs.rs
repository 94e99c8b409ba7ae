//! Container log lines: splitting the byte stream into lines, timestamp
//! de-duplication, tails of log files and the rotation of those files.
use vstd::prelude::*;
use vstd::slice::{slice_subrange, slice_to_vec};
use vstd::string::*;

use crate::text::{
    chars_of, lemma_line_len, line_len, line_spans, lines, lossy_text, spans_view,
    string_from_chars, trim_end_char, trim_end_char_span, utf8_lossy,
};

verus! {

/// Capacity of each container's live line channel.
pub const BROADCAST_CAP: usize = 512;

/// At most this many bytes are read from the end of a log file for its tail.
pub const TAIL_READ_CAP: u64 = 524288;

/// A pending partial line longer than this is emitted as a line of its own.
pub const MAX_LINE_BYTES: usize = 262144;

/// The views of a sequence of strings.
pub open spec fn strings_view(v: Seq<String>) -> Seq<Seq<char>> {
    v.map_values(|s: String| s@)
}

pub open spec fn bytes_view(o: Option<Vec<u8>>) -> Option<Seq<u8>> {
    match o {
        Some(v) => Some(v@),
        None => None,
    }
}

/// The last `n` elements of `s` (all of them if there are fewer).
pub open spec fn last_n<T>(s: Seq<T>, n: nat) -> Seq<T> {
    if s.len() > n {
        s.skip(s.len() - n)
    } else {
        s
    }
}

// ---------------------------------------------------------------- timestamps

/// The leading timestamp of a line given by its UTF-8 bytes: the text before
/// the first space, if it is at least 20 bytes long, has `-` at byte 4 and
/// contains a `T`.
pub open spec fn ts_of(b: Seq<u8>) -> Option<Seq<u8>> {
    let head = b.take(line_len(b, 32u8) as int);
    if head.len() >= 20 && head[4] == 45u8 && head.contains(84u8) {
        Some(head)
    } else {
        None
    }
}

/// Lexicographic order on byte strings (the order of `str`).
pub open spec fn bytes_le(a: Seq<u8>, b: Seq<u8>) -> bool
    decreases a.len(),
{
    if a.len() == 0 {
        true
    } else if b.len() == 0 {
        false
    } else if a[0] < b[0] {
        true
    } else if a[0] > b[0] {
        false
    } else {
        bytes_le(a.drop_first(), b.drop_first())
    }
}

/// Whether `a <= b` in lexicographic byte order.
pub fn le_bytes(a: &[u8], b: &[u8]) -> (r: bool)
    ensures
        r == bytes_le(a@, b@),
{
    let mut i: usize = 0;
    assert(a@.skip(0) =~= a@);
    assert(b@.skip(0) =~= b@);
    while i < a.len() && i < b.len()
        invariant
            i <= a@.len(),
            i <= b@.len(),
            bytes_le(a@, b@) == bytes_le(a@.skip(i as int), b@.skip(i as int)),
        decreases a@.len() - i,
    {
        if a[i] < b[i] {
            return true;
        }
        if a[i] > b[i] {
            return false;
        }
        assert(a@.skip(i as int).drop_first() =~= a@.skip(i + 1));
        assert(b@.skip(i as int).drop_first() =~= b@.skip(i + 1));
        i = i + 1;
    }
    i == a.len()
}

/// The timestamp at the start of `line`, if it has one (its bytes).
pub fn parse_ts(line: &str) -> (r: Option<Vec<u8>>)
    ensures
        bytes_view(r) == ts_of(line.spec_bytes()),
{
    let b = line.as_bytes();
    let mut j: usize = 0;
    while j < b.len() && b[j] != 32u8
        invariant
            j <= b@.len(),
            forall|t: int| 0 <= t < j ==> #[trigger] b@[t] != 32u8,
        decreases b@.len() - j,
    {
        j = j + 1;
    }
    proof {
        lemma_line_len(b@, 32u8, j as int);
    }
    let head = slice_subrange(b, 0, j);
    assert(head@ =~= b@.take(j as int));
    if j < 20 || head[4] != 45u8 {
        return None;
    }
    let mut k: usize = 0;
    while k < j && head[k] != 84u8
        invariant
            k <= j == head@.len(),
            forall|t: int| 0 <= t < k ==> #[trigger] head@[t] != 84u8,
        decreases j - k,
    {
        k = k + 1;
    }
    if k == j {
        assert(!head@.contains(84u8));
        None
    } else {
        assert(head@[k as int] == 84u8);
        Some(slice_to_vec(head))
    }
}

/// What `accept_line` decides for a line with bytes `b` after the last
/// timestamp `last`: whether the line is kept, and the last timestamp then.
pub open spec fn accept_step(b: Seq<u8>, last: Option<Seq<u8>>) -> (bool, Option<Seq<u8>>) {
    match ts_of(b) {
        Some(t) => match last {
            Some(p) => if bytes_le(t, p) {
                (false, last)
            } else {
                (true, Some(t))
            },
            None => (true, Some(t)),
        },
        None => (true, last),
    }
}

/// Whether a streamed line is new: a line without a timestamp always is; a
/// line with one is new only if its timestamp is later than the last one
/// seen, which it then becomes.
pub fn accept_line(line: &str, last_ts: &mut Option<Vec<u8>>) -> (r: bool)
    ensures
        (r, bytes_view(*final(last_ts))) == accept_step(line.spec_bytes(), bytes_view(*old(last_ts))),
{
    match parse_ts(line) {
        Some(t) => {
            let older = match last_ts {
                Some(prev) => le_bytes(t.as_slice(), prev.as_slice()),
                None => false,
            };
            if older {
                false
            } else {
                *last_ts = Some(t);
                true
            }
        },
        None => true,
    }
}

/// The timestamp of the last line of `ls` that has one.
pub open spec fn last_ts_of(ls: Seq<Seq<char>>) -> Option<Seq<u8>>
    decreases ls.len(),
{
    if ls.len() == 0 {
        None
    } else {
        match ts_of(vstd::utf8::encode_utf8(ls.last())) {
            Some(t) => Some(t),
            None => last_ts_of(ls.drop_last()),
        }
    }
}

/// The timestamp of the last of `lines` that carries one.
pub fn last_timestamp(lines: &Vec<String>) -> (r: Option<Vec<u8>>)
    ensures
        bytes_view(r) == last_ts_of(strings_view(lines@)),
{
    let mut i = lines.len();
    assert(strings_view(lines@).take(i as int) =~= strings_view(lines@));
    while i > 0
        invariant
            i <= lines@.len(),
            last_ts_of(strings_view(lines@)) == last_ts_of(strings_view(lines@).take(i as int)),
        decreases i,
    {
        let ghost pre = strings_view(lines@).take(i as int);
        assert(pre.last() == lines@[i - 1]@);
        assert(pre.drop_last() =~= strings_view(lines@).take(i - 1));
        match parse_ts(lines[i - 1].as_str()) {
            Some(t) => {
                return Some(t);
            },
            None => {},
        }
        i = i - 1;
    }
    None
}

/// The name of a container's log file: its short id and `.log`.
pub fn log_file_name(id: &str) -> (r: String)
    ensures
        r@ == crate::ids::short_id_of(id@) + ".log"@,
{
    let mut s = crate::ids::short_id(id);
    s.append(".log");
    s
}

/// The timestamp of the last of `lines`, if it has one (where a stream
/// resumes from).
pub fn last_line_timestamp(lines: &Vec<String>) -> (r: Option<Vec<u8>>)
    ensures
        bytes_view(r) == if lines@.len() > 0 {
            ts_of(vstd::utf8::encode_utf8(lines@.last()@))
        } else {
            None
        },
{
    if lines.len() == 0 {
        None
    } else {
        parse_ts(lines[lines.len() - 1].as_str())
    }
}

/// Whether a live line is shown after a backlog whose last timestamp is
/// `last_ts`: it is hidden only when both it and the backlog carry timestamps
/// and its own is not later.
pub fn live_line_passes(line: &str, last_ts: &Option<Vec<u8>>) -> (r: bool)
    ensures
        r == !(match (bytes_view(*last_ts), ts_of(line.spec_bytes())) {
            (Some(p), Some(t)) => bytes_le(t, p),
            _ => false,
        }),
{
    match last_ts {
        Some(prev) => match parse_ts(line) {
            Some(t) => !le_bytes(t.as_slice(), prev.as_slice()),
            None => true,
        },
        None => true,
    }
}

// ---------------------------------------------------------------- line splitting

/// `text` without its trailing carriage returns.
pub fn without_trailing_cr(text: &str) -> (r: String)
    ensures
        r@ == trim_end_char(text@, '\r'),
{
    let cs = chars_of(text);
    let end = trim_end_char_span(&cs, 0, cs.len(), '\r');
    assert(cs@.subrange(0, cs@.len() as int) =~= cs@);
    let part = slice_subrange(cs.as_slice(), 0, end);
    string_from_chars(part)
}

/// The line that a run of bytes stands for: decoded (invalid UTF-8 replaced)
/// and without trailing carriage returns.
pub open spec fn line_text(b: Seq<u8>) -> Seq<char> {
    trim_end_char(lossy_text(b), '\r')
}

fn line_from_bytes(b: &[u8]) -> (r: String)
    ensures
        r@ == line_text(b@),
{
    let t = utf8_lossy(b);
    without_trailing_cr(t.as_str())
}

/// Splits a stream of bytes into lines.
pub struct LineSplitter {
    pending: Vec<u8>,
}

impl View for LineSplitter {
    type V = Seq<u8>;

    closed spec fn view(&self) -> Seq<u8> {
        self.pending@
    }
}

impl LineSplitter {
    /// A splitter with nothing pending.
    pub fn new() -> (r: LineSplitter)
        ensures
            r@ == Seq::<u8>::empty(),
    {
        LineSplitter { pending: Vec::new() }
    }

    /// Number of bytes pending.
    pub fn pending_len(&self) -> (r: usize)
        ensures
            r == self@.len(),
    {
        self.pending.len()
    }

    /// Appends a chunk of the stream.
    pub fn push(&mut self, chunk: &[u8])
        ensures
            final(self)@ == old(self)@ + chunk@,
    {
        let mut i: usize = 0;
        while i < chunk.len()
            invariant
                i <= chunk@.len(),
                self@ == old(self)@ + chunk@.take(i as int),
            decreases chunk@.len() - i,
        {
            self.pending.push(chunk[i]);
            i = i + 1;
            assert(self@ =~= old(self)@ + chunk@.take(i as int));
        }
        assert(chunk@.take(chunk@.len() as int) =~= chunk@);
    }

    /// Takes the first complete (newline-terminated) line, if there is one.
    pub fn next_line(&mut self) -> (r: Option<String>)
        ensures
            ({
                let p = line_len(old(self)@, 10u8);
                if p < old(self)@.len() {
                    &&& r is Some
                    &&& r->0@ == line_text(old(self)@.take(p as int))
                    &&& final(self)@ == old(self)@.skip((p + 1) as int)
                } else {
                    &&& r is None
                    &&& final(self)@ == old(self)@
                }
            }),
    {
        let n = self.pending.len();
        let mut j: usize = 0;
        while j < n && self.pending[j] != 10u8
            invariant
                j <= n == self@.len(),
                forall|t: int| 0 <= t < j ==> #[trigger] self@[t] != 10u8,
            decreases n - j,
        {
            j = j + 1;
        }
        proof {
            lemma_line_len(self@, 10u8, j as int);
        }
        if j == n {
            return None;
        }
        let all = self.pending.as_slice();
        let line = line_from_bytes(slice_subrange(all, 0, j));
        let rest = slice_to_vec(slice_subrange(all, j + 1, n));
        assert(old(self)@.subrange(0, j as int) =~= old(self)@.take(j as int));
        assert(rest@ =~= old(self)@.skip(j + 1));
        self.pending = rest;
        Some(line)
    }

    /// Takes complete lines, offering each to `accept_line` (which updates
    /// `last_ts`), until one is kept, and returns that one. Successive calls
    /// return the lines `drain_kept` gives, in order; `None` once no complete
    /// line is left to keep, all complete lines then having been taken.
    pub fn next_kept_line(&mut self, last_ts: &mut Option<Vec<u8>>) -> (r: Option<String>)
        ensures
            ({
                let (kept, rest, fin) = drain_kept(old(self)@, bytes_view(*old(last_ts)));
                match r {
                    Some(line) => {
                        &&& kept.len() > 0
                        &&& line@ == kept[0]
                        &&& drain_kept(final(self)@, bytes_view(*final(last_ts))) == (
                            kept.drop_first(),
                            rest,
                            fin,
                        )
                    },
                    None => {
                        &&& kept.len() == 0
                        &&& final(self)@ == rest
                        &&& bytes_view(*final(last_ts)) == fin
                    },
                }
            }),
    {
        loop
            invariant
                drain_kept(self@, bytes_view(*last_ts)) == drain_kept(old(self)@, bytes_view(*old(last_ts))),
            decreases self@.len(),
        {
            let ghost before = self@;
            let ghost last_before = bytes_view(*last_ts);
            match self.next_line() {
                None => {
                    return None;
                },
                Some(line) => {
                    let ghost p = line_len(before, 10u8);
                    assert(line@ == line_text(before.take(p as int)));
                    if accept_line(line.as_str(), last_ts) {
                        assert(drain_kept(before, last_before).0 == seq![line@] + drain_kept(
                            self@,
                            bytes_view(*last_ts),
                        ).0);
                        assert((seq![line@] + drain_kept(self@, bytes_view(*last_ts)).0).drop_first()
                            =~= drain_kept(self@, bytes_view(*last_ts)).0);
                        return Some(line);
                    }
                },
            }
        }
    }

    /// Takes everything pending as one line if more than `MAX_LINE_BYTES` are pending.
    pub fn take_oversize(&mut self) -> (r: Option<String>)
        ensures
            if old(self)@.len() > MAX_LINE_BYTES {
                &&& r is Some
                &&& r->0@ == line_text(old(self)@)
                &&& final(self)@ == Seq::<u8>::empty()
            } else {
                &&& r is None
                &&& final(self)@ == old(self)@
            },
    {
        if self.pending.len() > MAX_LINE_BYTES {
            let line = line_from_bytes(self.pending.as_slice());
            self.pending = Vec::new();
            Some(line)
        } else {
            None
        }
    }

    /// Takes what is pending as a last, unterminated line, if anything is.
    pub fn finish(&mut self) -> (r: Option<String>)
        ensures
            if old(self)@.len() > 0 {
                &&& r is Some
                &&& r->0@ == line_text(old(self)@)
                &&& final(self)@ == Seq::<u8>::empty()
            } else {
                &&& r is None
                &&& final(self)@ == old(self)@
            },
    {
        if self.pending.len() > 0 {
            let line = line_from_bytes(self.pending.as_slice());
            self.pending = Vec::new();
            Some(line)
        } else {
            None
        }
    }
}

// ---------------------------------------------------------------- live streaming

/// The complete lines pending in `b`, offered in turn to `accept_line` from
/// the last timestamp `last`: the lines kept, what is left pending after the
/// last newline, and the last timestamp afterwards.
pub open spec fn drain_kept(b: Seq<u8>, last: Option<Seq<u8>>) -> (Seq<Seq<char>>, Seq<u8>, Option<Seq<u8>>)
    decreases b.len(),
{
    let p = line_len(b, 10u8);
    if p < b.len() {
        let line = line_text(b.take(p as int));
        let (keep, next) = accept_step(vstd::utf8::encode_utf8(line), last);
        let (kept, rest, fin) = drain_kept(b.skip((p + 1) as int), next);
        (
            if keep {
                seq![line] + kept
            } else {
                kept
            },
            rest,
            fin,
        )
    } else {
        (seq![], b, last)
    }
}

/// Chunk boundaries do not matter to a live stream: draining what is pending
/// after `a`, then draining what is left followed by `b` (with the last
/// timestamp carried over), keeps the same lines, leaves the same bytes and
/// ends at the same timestamp as draining `a` and `b` at once.
pub proof fn law_drain_kept_chunks(a: Seq<u8>, b: Seq<u8>, last: Option<Seq<u8>>)
    ensures
        ({
            let (k1, r1, f1) = drain_kept(a, last);
            let (k2, r2, f2) = drain_kept(r1 + b, f1);
            drain_kept(a + b, last) == (k1 + k2, r2, f2)
        }),
    decreases a.len(),
{
    lemma_line_len_bound(a, 10u8);
    let p = line_len(a, 10u8);
    if p < a.len() {
        let ab = a + b;
        assert forall|i: int| 0 <= i < p implies #[trigger] ab[i] != 10u8 by {
            assert(ab[i] == a[i]);
        }
        assert(ab[p as int] == a[p as int]);
        lemma_line_len(ab, 10u8, p as int);
        assert(ab.take(p as int) =~= a.take(p as int));
        assert(ab.skip((p + 1) as int) =~= a.skip((p + 1) as int) + b);
        let line = line_text(a.take(p as int));
        let (keep, next) = accept_step(vstd::utf8::encode_utf8(line), last);
        law_drain_kept_chunks(a.skip((p + 1) as int), b, next);
        let (kk, r1, f1) = drain_kept(a.skip((p + 1) as int), next);
        let (k2, r2, f2) = drain_kept(r1 + b, f1);
        assert((seq![line] + kk) + k2 =~= seq![line] + (kk + k2));
    } else {
        assert(seq![] + drain_kept(a + b, last).0 =~= drain_kept(a + b, last).0);
    }
}

/// The timestamp a line starts with, if any.
pub open spec fn line_ts(l: Seq<char>) -> Option<Seq<u8>> {
    ts_of(vstd::utf8::encode_utf8(l))
}

/// What a live stream writes has no repeated or backward timestamps: of
/// the lines kept from the complete lines pending (those the log file and the
/// live channel get), each one with a timestamp has one strictly later than
/// the last timestamp seen before and than that of every earlier kept line.
pub proof fn law_kept_lines_increase(b: Seq<u8>, last: Option<Seq<u8>>)
    ensures
        forall|i: int, j: int|
            #![trigger drain_kept(b, last).0[i], drain_kept(b, last).0[j]]
            0 <= i < j < drain_kept(b, last).0.len() && line_ts(drain_kept(b, last).0[i]) is Some
                && line_ts(drain_kept(b, last).0[j]) is Some ==> bytes_gt(
                line_ts(drain_kept(b, last).0[j])->0,
                line_ts(drain_kept(b, last).0[i])->0,
            ),
        forall|i: int|
            0 <= i < drain_kept(b, last).0.len() && line_ts(#[trigger] drain_kept(b, last).0[i]) is Some
                && last is Some ==> bytes_gt(line_ts(drain_kept(b, last).0[i])->0, last->0),
    decreases b.len(),
{
    let p = line_len(b, 10u8);
    if p < b.len() {
        let line = line_text(b.take(p as int));
        let (keep, next) = accept_step(vstd::utf8::encode_utf8(line), last);
        let b2 = b.skip((p + 1) as int);
        law_kept_lines_increase(b2, next);
        let k2 = drain_kept(b2, next).0;
        let k = drain_kept(b, last).0;
        // next is never before last, and is the head's stamp when the head is
        // kept with one.
        assert forall|i: int|
            0 <= i < k2.len() && line_ts(#[trigger] k2[i]) is Some && last is Some implies bytes_gt(
                line_ts(k2[i])->0,
                last->0,
            ) by {
            let t = line_ts(k2[i])->0;
            let p0 = last->0;
            if next != last {
                let t0 = next->0;
                assert(!bytes_le(t0, p0));
                lemma_bytes_le_total(t0, p0);
                lemma_bytes_le_total(t, t0);
                if bytes_le(t, p0) {
                    lemma_bytes_le_trans(t0, t, p0);
                }
            }
        }
        if keep {
            assert(k == seq![line] + k2);
            assert forall|i: int, j: int|
                #![trigger k[i], k[j]]
                0 <= i < j < k.len() && line_ts(k[i]) is Some && line_ts(k[j]) is Some implies bytes_gt(
                line_ts(k[j])->0,
                line_ts(k[i])->0,
            ) by {
                assert(k[j] == k2[j - 1]);
                if i > 0 {
                    assert(k[i] == k2[i - 1]);
                } else {
                    assert(k[0] == line);
                    assert(next == line_ts(line));
                }
            }
            assert forall|i: int|
                0 <= i < k.len() && line_ts(#[trigger] k[i]) is Some && last is Some implies bytes_gt(
                line_ts(k[i])->0,
                last->0,
            ) by {
                if i > 0 {
                    assert(k[i] == k2[i - 1]);
                }
            }
        } else {
            assert(k == k2);
        }
    }
}

// ---------------------------------------------------------------- whole outputs

/// The lines of a complete output: each newline ends a line, and what follows
/// the last newline, if anything, is a last line.
pub open spec fn split_lines(b: Seq<u8>) -> Seq<Seq<char>>
    decreases b.len(),
{
    let p = line_len(b, 10u8);
    if p < b.len() {
        seq![line_text(b.take(p as int))] + split_lines(b.skip((p + 1) as int))
    } else if b.len() > 0 {
        seq![line_text(b)]
    } else {
        seq![]
    }
}

/// The bytes of `chunks`, one after the other.
pub open spec fn concat_chunks(chunks: Seq<Vec<u8>>) -> Seq<u8>
    decreases chunks.len(),
{
    if chunks.len() == 0 {
        seq![]
    } else {
        concat_chunks(chunks.drop_last()) + chunks.last()@
    }
}

proof fn lemma_line_len_bound(b: Seq<u8>, nl: u8)
    ensures
        line_len(b, nl) <= b.len(),
        line_len(b, nl) < b.len() ==> b[line_len(b, nl) as int] == nl,
        forall|i: int| 0 <= i < line_len(b, nl) ==> b[i] != nl,
    decreases b.len(),
{
    if b.len() > 0 && b[0] != nl {
        lemma_line_len_bound(b.drop_first(), nl);
        assert forall|i: int| 0 <= i < line_len(b, nl) implies b[i] != nl by {
            if i > 0 {
                assert(b[i] == b.drop_first()[i - 1]);
            }
        }
        if line_len(b, nl) < b.len() {
            assert(b[line_len(b, nl) as int] == b.drop_first()[line_len(b.drop_first(), nl) as int]);
        }
    }
}

/// Splitting is independent of where the output was cut: the lines of `a`
/// followed by `b`, where `a` is empty or ends with a newline, are the lines
/// of `a` followed by those of `b`.
pub proof fn law_split_lines_concat(a: Seq<u8>, b: Seq<u8>)
    requires
        a.len() == 0 || a.last() == 10u8,
    ensures
        split_lines(a + b) == split_lines(a) + split_lines(b),
    decreases a.len(),
{
    if a.len() == 0 {
        assert(a + b =~= b);
        assert(split_lines(a) =~= Seq::<Seq<char>>::empty());
        assert(split_lines(a) + split_lines(b) =~= split_lines(b));
    } else {
        let ab = a + b;
        lemma_line_len_bound(a, 10u8);
        let p = line_len(a, 10u8) as int;
        assert(p < a.len());
        assert forall|i: int| 0 <= i < p implies #[trigger] ab[i] != 10u8 by {
            assert(ab[i] == a[i]);
        }
        assert(ab[p] == a[p]);
        lemma_line_len(ab, 10u8, p);
        assert(ab.take(p) =~= a.take(p));
        assert(ab.skip(p + 1) =~= a.skip(p + 1) + b);
        let rest = a.skip(p + 1);
        assert(rest.len() == 0 || rest.last() == 10u8) by {
            if rest.len() > 0 {
                assert(rest.last() == a.last());
            }
        }
        law_split_lines_concat(rest, b);
        assert(split_lines(ab) =~= split_lines(a) + split_lines(b));
    }
}

proof fn lemma_split_one_line(t: Seq<u8>, p: int)
    requires
        0 <= p < t.len(),
        t.len() == p + 1,
        t[p] == 10u8,
        forall|i: int| 0 <= i < p ==> t[i] != 10u8,
    ensures
        split_lines(t) == seq![line_text(t.take(p))],
{
    lemma_line_len(t, 10u8, p);
    assert(t.skip(p + 1) =~= Seq::<u8>::empty());
    assert(split_lines(t.skip(p + 1)) =~= Seq::<Seq<char>>::empty());
    assert(seq![line_text(t.take(p))] + Seq::<Seq<char>>::empty() =~= seq![line_text(t.take(p))]);
}

proof fn lemma_split_no_newline(t: Seq<u8>)
    requires
        t.len() > 0,
        forall|i: int| 0 <= i < t.len() ==> t[i] != 10u8,
    ensures
        split_lines(t) == seq![line_text(t)],
{
    lemma_line_len(t, 10u8, t.len() as int);
}

/// Whether the daemon is asked for a container's recent output: only for a
/// container id and a positive number of lines.
pub fn wants_history(id: &str, n: usize) -> (r: bool)
    ensures
        r == (crate::ids::hex_id(id@) && n > 0),
{
    n > 0 && crate::ids::is_hex_id(id)
}

/// The last `n` lines of a complete output received as `chunks` (the
/// messages read before the stream ended).
pub fn lines_of_output(chunks: &Vec<Vec<u8>>, n: usize) -> (r: Vec<String>)
    ensures
        strings_view(r@) == last_n(split_lines(concat_chunks(chunks@)), n as nat),
        r@.len() <= n,
{
    let mut sp = LineSplitter::new();
    let mut out: Vec<String> = Vec::new();
    let ghost mut done: Seq<u8> = Seq::empty();
    let mut i: usize = 0;
    while i < chunks.len()
        invariant
            i <= chunks@.len(),
            concat_chunks(chunks@.take(i as int)) == done + sp@,
            done.len() == 0 || done.last() == 10u8,
            strings_view(out@) == split_lines(done),
            forall|k: int| 0 <= k < sp@.len() ==> sp@[k] != 10u8,
        decreases chunks@.len() - i,
    {
        assert(chunks@.take(i + 1).drop_last() =~= chunks@.take(i as int));
        assert(chunks@.take(i + 1).last() == chunks@[i as int]);
        sp.push(chunks[i].as_slice());
        assert(concat_chunks(chunks@.take(i + 1)) =~= done + sp@);
        loop
            invariant
                concat_chunks(chunks@.take(i + 1)) == done + sp@,
                done.len() == 0 || done.last() == 10u8,
                strings_view(out@) == split_lines(done),
            ensures
                concat_chunks(chunks@.take(i + 1)) == done + sp@,
                done.len() == 0 || done.last() == 10u8,
                strings_view(out@) == split_lines(done),
                forall|k: int| 0 <= k < sp@.len() ==> sp@[k] != 10u8,
            decreases sp@.len(),
        {
            let ghost before = sp@;
            match sp.next_line() {
                Some(line) => {
                    proof {
                        lemma_line_len_bound(before, 10u8);
                        let p = line_len(before, 10u8) as int;
                        let t = before.take(p + 1);
                        assert forall|k: int| 0 <= k < p implies t[k] != 10u8 by {
                            assert(t[k] == before[k]);
                        }
                        assert(t.take(p) =~= before.take(p));
                        lemma_split_one_line(t, p);
                        law_split_lines_concat(done, t);
                        assert(before =~= t + sp@);
                        assert(done + before =~= (done + t) + sp@);
                        done = done + t;
                    }
                    out.push(line);
                    assert(strings_view(out@) =~= split_lines(done));
                },
                None => {
                    proof {
                        lemma_line_len_bound(before, 10u8);
                    }
                    break;
                },
            }
        }
        i = i + 1;
    }
    assert(chunks@.take(chunks@.len() as int) =~= chunks@);
    let ghost rest = sp@;
    match sp.finish() {
        Some(line) => {
            proof {
                lemma_split_no_newline(rest);
                law_split_lines_concat(done, rest);
            }
            out.push(line);
            assert(strings_view(out@) =~= split_lines(done + rest));
        },
        None => {
            assert(rest =~= Seq::<u8>::empty());
            assert(done + rest =~= done);
        },
    }
    let r = keep_last(out, n);
    assert(strings_view(r@).len() == r@.len());
    r
}

// ---------------------------------------------------------------- tails

/// The last `n` of `lines`.
pub fn keep_last(lines: Vec<String>, n: usize) -> (r: Vec<String>)
    ensures
        strings_view(r@) == last_n(strings_view(lines@), n as nat),
{
    let mut lines = lines;
    let len = lines.len();
    if len > n {
        let ghost pre = lines@;
        let tail = lines.split_off(len - n);
        assert(strings_view(tail@) =~= strings_view(pre).skip(len - n));
        tail
    } else {
        lines
    }
}

/// The last `n` lines of the log, from the current file's `current` lines and,
/// where those are fewer than `n`, the rotated file's `older` lines before them.
pub fn combine_tail(current: Vec<String>, older: Option<Vec<String>>, n: usize) -> (r: Vec<String>)
    ensures
        strings_view(r@) == last_n(
            match older {
                Some(o) => strings_view(o@) + strings_view(current@),
                None => strings_view(current@),
            },
            n as nat,
        ),
{
    match older {
        Some(o) => {
            let mut all = o;
            let mut cur = current;
            let ghost a = strings_view(all@);
            let ghost c = strings_view(cur@);
            all.append(&mut cur);
            assert(strings_view(all@) =~= a + c);
            keep_last(all, n)
        },
        None => keep_last(current, n),
    }
}

/// Where to start reading a log file of `len` bytes for its tail.
pub fn tail_read_start(len: u64) -> (r: u64)
    ensures
        r == if len > TAIL_READ_CAP {
            (len - TAIL_READ_CAP) as u64
        } else {
            0
        },
{
    len.saturating_sub(TAIL_READ_CAP)
}

/// The last `n` lines of a text read from a log file; when the read started in
/// the middle of the file its first, partial line is dropped.
pub open spec fn tail_of_text(t: Seq<char>, started_mid: bool, n: nat) -> Seq<Seq<char>> {
    let ls = lines(t);
    let ls = if started_mid && ls.len() > 0 {
        ls.drop_first()
    } else {
        ls
    };
    last_n(ls, n)
}

/// The tail lines of a text read from a log file.
pub fn tail_lines_of_text(text: &str, started_mid: bool, n: usize) -> (r: Vec<String>)
    ensures
        strings_view(r@) == tail_of_text(text@, started_mid, n as nat),
{
    let cs = chars_of(text);
    let spans = line_spans(&cs);
    let total = spans.len();
    let first: usize = if started_mid && total > 0 {
        1
    } else {
        0
    };
    let from = if total - first > n {
        total - n
    } else {
        first
    };
    let ghost ls = lines(cs@);
    let ghost kept = if started_mid && ls.len() > 0 {
        ls.drop_first()
    } else {
        ls
    };
    assert(kept =~= ls.skip(first as int));
    assert(last_n(kept, n as nat) =~= ls.skip(from as int));
    let mut out: Vec<String> = Vec::new();
    let mut k = from;
    while k < total
        invariant
            from <= k <= total == spans@.len(),
            spans_view(cs@, spans@) == ls,
            crate::text::spans_within(spans@, 0, cs@.len() as int),
            strings_view(out@) == ls.subrange(from as int, k as int),
        decreases total - k,
    {
        let (a, b) = spans[k];
        let s = string_from_chars(slice_subrange(cs.as_slice(), a, b));
        assert(spans_view(cs@, spans@)[k as int] == cs@.subrange(a as int, b as int));
        assert(s@ == ls[k as int]);
        let ghost prev = strings_view(out@);
        out.push(s);
        assert(strings_view(out@) =~= prev.push(s@));
        k = k + 1;
        assert(strings_view(out@) =~= ls.subrange(from as int, k as int));
    }
    assert(ls.subrange(from as int, total as int) =~= ls.skip(from as int));
    out
}

/// The last `n` lines of the bytes `data` read from a log file starting at
/// offset `start`.
pub fn tail_lines(data: &[u8], start: u64, n: usize) -> (r: Vec<String>)
    ensures
        strings_view(r@) == tail_of_text(lossy_text(data@), start > 0, n as nat),
{
    let text = utf8_lossy(data);
    tail_lines_of_text(text.as_str(), start > 0, n)
}

// ---------------------------------------------------------------- de-duplication law

pub proof fn lemma_bytes_le_total(a: Seq<u8>, b: Seq<u8>)
    ensures
        bytes_le(a, b) || bytes_le(b, a),
        bytes_le(a, b) && bytes_le(b, a) ==> a == b,
    decreases a.len(),
{
    if a.len() > 0 && b.len() > 0 && a[0] == b[0] {
        lemma_bytes_le_total(a.drop_first(), b.drop_first());
        if bytes_le(a, b) && bytes_le(b, a) {
            assert(a =~= seq![a[0]] + a.drop_first());
            assert(b =~= seq![b[0]] + b.drop_first());
        }
    } else if a.len() == 0 && b.len() == 0 {
        assert(a =~= b);
    }
}

pub proof fn lemma_bytes_le_trans(a: Seq<u8>, b: Seq<u8>, c: Seq<u8>)
    requires
        bytes_le(a, b),
        bytes_le(b, c),
    ensures
        bytes_le(a, c),
    decreases a.len(),
{
    if a.len() > 0 && b.len() > 0 && c.len() > 0 && a[0] == b[0] && b[0] == c[0] {
        lemma_bytes_le_trans(a.drop_first(), b.drop_first(), c.drop_first());
    }
}

/// The last timestamp seen after the lines `ls` (their bytes) were offered
/// to `accept_line`, starting from `last`.
pub open spec fn seen_after(ls: Seq<Seq<u8>>, last: Option<Seq<u8>>) -> Option<Seq<u8>>
    decreases ls.len(),
{
    if ls.len() == 0 {
        last
    } else {
        let prev = seen_after(ls.drop_last(), last);
        match ts_of(ls.last()) {
            Some(t) => match prev {
                Some(p) => if bytes_le(t, p) {
                    prev
                } else {
                    Some(t)
                },
                None => Some(t),
            },
            None => prev,
        }
    }
}

/// The timestamps of the lines that `accept_line` accepted, in order.
pub open spec fn accepted_stamps(ls: Seq<Seq<u8>>, last: Option<Seq<u8>>) -> Seq<Seq<u8>>
    decreases ls.len(),
{
    if ls.len() == 0 {
        seq![]
    } else {
        let kept = accepted_stamps(ls.drop_last(), last);
        let prev = seen_after(ls.drop_last(), last);
        match ts_of(ls.last()) {
            Some(t) => match prev {
                Some(p) => if bytes_le(t, p) {
                    kept
                } else {
                    kept.push(t)
                },
                None => kept.push(t),
            },
            None => kept,
        }
    }
}

/// Strictly after, in the order of `str`.
pub open spec fn bytes_gt(a: Seq<u8>, b: Seq<u8>) -> bool {
    !bytes_le(a, b)
}

pub open spec fn stamps_increasing(k: Seq<Seq<u8>>) -> bool {
    forall|i: int, j: int| 0 <= i < j < k.len() ==> bytes_gt(#[trigger] k[j], #[trigger] k[i])
}

pub open spec fn stamps_after(k: Seq<Seq<u8>>, last: Option<Seq<u8>>) -> bool {
    match last {
        Some(p) => forall|i: int| 0 <= i < k.len() ==> bytes_gt(#[trigger] k[i], p),
        None => true,
    }
}

pub open spec fn not_before(last: Option<Seq<u8>>, now: Option<Seq<u8>>) -> bool {
    match (last, now) {
        (Some(p), Some(q)) => bytes_le(p, q),
        (Some(_), None) => false,
        _ => true,
    }
}

proof fn lemma_accepted_stamps(ls: Seq<Seq<u8>>, last: Option<Seq<u8>>)
    ensures
        stamps_increasing(accepted_stamps(ls, last)),
        stamps_after(accepted_stamps(ls, last), last),
        accepted_stamps(ls, last).len() > 0 ==> seen_after(ls, last) == Some(
            accepted_stamps(ls, last).last(),
        ),
        accepted_stamps(ls, last).len() == 0 ==> seen_after(ls, last) == last,
        not_before(last, seen_after(ls, last)),
    decreases ls.len(),
{
    if ls.len() == 0 {
        match last {
            Some(p) => {
                lemma_bytes_le_total(p, p);
            },
            None => {},
        }
    }
    if ls.len() > 0 {
        let pre = ls.drop_last();
        lemma_accepted_stamps(pre, last);
        let kept = accepted_stamps(pre, last);
        let prev = seen_after(pre, last);
        match ts_of(ls.last()) {
            Some(t) => {
                let add = match prev {
                    Some(p) => !bytes_le(t, p),
                    None => true,
                };
                if add {
                    let k = kept.push(t);
                    assert(accepted_stamps(ls, last) == k);
                    assert(seen_after(ls, last) == Some(t));
                    assert forall|i: int, j: int| 0 <= i < j < k.len() implies bytes_gt(
                        #[trigger] k[j],
                        #[trigger] k[i],
                    ) by {
                        if j < k.len() - 1 {
                            assert(k[j] == kept[j] && k[i] == kept[i]);
                        } else {
                            assert(k[j] == t);
                            assert(k[i] == kept[i]);
                            let p = prev->0;
                            // kept[i] <= kept.last() == p < t
                            if i < kept.len() - 1 {
                                lemma_bytes_le_total(kept[kept.len() - 1], kept[i]);
                            }
                            lemma_bytes_le_total(t, p);
                            if bytes_le(t, kept[i]) {
                                if i < kept.len() - 1 {
                                    lemma_bytes_le_total(kept[i], p);
                                    lemma_bytes_le_trans(t, kept[i], p);
                                }
                            }
                        }
                    }
                    match last {
                        Some(p0) => {
                            assert forall|i: int| 0 <= i < k.len() implies bytes_gt(
                                #[trigger] k[i],
                                p0,
                            ) by {
                                if i < k.len() - 1 {
                                    assert(k[i] == kept[i]);
                                } else {
                                    let q = prev->0;
                                    lemma_bytes_le_total(t, q);
                                    if bytes_le(t, p0) {
                                        lemma_bytes_le_trans(t, p0, q);
                                    }
                                }
                            }
                            let q = prev->0;
                            lemma_bytes_le_total(t, q);
                            lemma_bytes_le_trans(p0, q, t);
                        },
                        None => {},
                    }
                } else {
                    assert(accepted_stamps(ls, last) == kept);
                    assert(seen_after(ls, last) == prev);
                }
            },
            None => {
                assert(accepted_stamps(ls, last) == kept);
                assert(seen_after(ls, last) == prev);
            },
        }
    }
}

/// Timestamp de-duplication: offering any lines to `accept_line` in turn,
/// the timestamps of the accepted lines strictly increase and all come after
/// the timestamp the stream started from, so a line replayed after a
/// reconnect (same or older timestamp) is never kept twice.
pub proof fn law_accepted_timestamps_increase(ls: Seq<Seq<u8>>, last: Option<Seq<u8>>)
    ensures
        forall|i: int, j: int|
            0 <= i < j < accepted_stamps(ls, last).len() ==> bytes_gt(
                #[trigger] accepted_stamps(ls, last)[j],
                #[trigger] accepted_stamps(ls, last)[i],
            ),
        forall|i: int|
            0 <= i < accepted_stamps(ls, last).len() ==> match last {
                Some(p) => bytes_gt(#[trigger] accepted_stamps(ls, last)[i], p),
                None => true,
            },
{
    lemma_accepted_stamps(ls, last);
}

/// One call of `accept_line` is one step of `seen_after` / `accepted_stamps`.
pub proof fn law_accept_line_is_step(ls: Seq<Seq<u8>>, line: Seq<u8>, last: Option<Seq<u8>>)
    ensures
        seen_after(ls.push(line), last) == match ts_of(line) {
            Some(t) => match seen_after(ls, last) {
                Some(p) => if bytes_le(t, p) {
                    Some(p)
                } else {
                    Some(t)
                },
                None => Some(t),
            },
            None => seen_after(ls, last),
        },
{
    assert(ls.push(line).drop_last() =~= ls);
}

/// A log tail holds at most the lines asked for, and they are the last lines
/// of the file (after dropping a partial first line), in order.
pub proof fn law_tail_is_suffix(t: Seq<char>, started_mid: bool, n: nat)
    ensures
        tail_of_text(t, started_mid, n).len() <= n,
        ({
            let ls = lines(t);
            let ls = if started_mid && ls.len() > 0 {
                ls.drop_first()
            } else {
                ls
            };
            tail_of_text(t, started_mid, n).len() == if ls.len() < n {
                ls.len()
            } else {
                n
            }
        }),
        ({
            let ls = lines(t);
            let ls = if started_mid && ls.len() > 0 {
                ls.drop_first()
            } else {
                ls
            };
            let r = tail_of_text(t, started_mid, n);
            r =~= ls.skip(ls.len() - r.len())
        }),
{
}

} // verus!
