//! Host usage: `/proc/stat` and `/proc/meminfo`, or, where those are not
//! available, the Docker daemon's figures and the containers' sum.
use vstd::prelude::*;

use crate::stats::cgroup::{sat_sub, text_view};
use crate::text::{
    chars_of, is_digit, line_spans, lines, parse_u64, parse_u64_span, span_starts_with,
    spans_view, spans_within, split_ws, word_spans,
};
use crate::types::{stats_view, ContainerStat, ContainerStatView, CpuShare, HostCpu, HostStat};

verus! {

pub open spec fn starts_with(s: Seq<char>, p: Seq<char>) -> bool {
    p.len() <= s.len() && s.take(p.len() as int) == p
}

// ---------------------------------------------------------------- /proc/meminfo

/// The first word of `rest` as a number of kibibytes.
pub open spec fn kb_value(rest: Seq<char>) -> Option<u64> {
    let w = split_ws(rest);
    if w.len() > 0 {
        parse_u64(w[0])
    } else {
        None
    }
}

/// `rest` read as kibibytes, in bytes (0 when it is not a number).
pub open spec fn kb_bytes(rest: Seq<char>) -> int {
    match kb_value(rest) {
        Some(k) => k * 1024,
        None => 0,
    }
}

pub open spec fn mem_total_tag() -> Seq<char> {
    seq!['M', 'e', 'm', 'T', 'o', 't', 'a', 'l', ':']
}

pub open spec fn mem_available_tag() -> Seq<char> {
    seq!['M', 'e', 'm', 'A', 'v', 'a', 'i', 'l', 'a', 'b', 'l', 'e', ':']
}

/// Reading the lines `ls` in order from `(total, avail)`: each `MemTotal:` line
/// sets the total, each `MemAvailable:` line the available memory.
pub open spec fn meminfo_fold(ls: Seq<Seq<char>>, total: int, avail: int) -> (int, int)
    decreases ls.len(),
{
    if ls.len() == 0 {
        (total, avail)
    } else {
        let l = ls[0];
        if starts_with(l, mem_total_tag()) {
            meminfo_fold(ls.drop_first(), kb_bytes(l.skip(9)), avail)
        } else if starts_with(l, mem_available_tag()) {
            meminfo_fold(ls.drop_first(), total, kb_bytes(l.skip(13)))
        } else {
            meminfo_fold(ls.drop_first(), total, avail)
        }
    }
}

/// Whether the figure a line gives, if any, fits in a `u64` once in bytes.
pub open spec fn meminfo_line_fits(l: Seq<char>) -> bool {
    &&& starts_with(l, mem_total_tag()) ==> kb_bytes(l.skip(9)) <= u64::MAX
    &&& (!starts_with(l, mem_total_tag()) && starts_with(l, mem_available_tag())) ==> kb_bytes(
        l.skip(13),
    ) <= u64::MAX
}

/// Whether every figure read from the lines `ls` fits in a `u64` once in bytes.
pub open spec fn meminfo_lines_fit(ls: Seq<Seq<char>>) -> bool {
    forall|i: int| 0 <= i < ls.len() ==> #[trigger] meminfo_line_fits(ls[i])
}

proof fn lemma_lines_fit_step(ls: Seq<Seq<char>>)
    requires
        ls.len() > 0,
    ensures
        meminfo_lines_fit(ls) == (meminfo_line_fits(ls[0]) && meminfo_lines_fit(ls.drop_first())),
{
    if meminfo_line_fits(ls[0]) && meminfo_lines_fit(ls.drop_first()) {
        assert forall|i: int| 0 <= i < ls.len() implies #[trigger] meminfo_line_fits(ls[i]) by {
            if i > 0 {
                assert(ls[i] == ls.drop_first()[i - 1]);
            }
        }
    }
    if meminfo_lines_fit(ls) {
        assert forall|i: int| 0 <= i < ls.drop_first().len() implies #[trigger] meminfo_line_fits(
            ls.drop_first()[i],
        ) by {
            assert(ls.drop_first()[i] == ls[i + 1]);
        }
    }
}

/// Whether the figures of a `/proc/meminfo` text fit.
pub open spec fn meminfo_fits(c: Option<Seq<char>>) -> bool {
    match c {
        Some(s) => meminfo_lines_fit(lines(s)),
        None => true,
    }
}

/// Total and available memory (the latter at most the former) that a
/// `/proc/meminfo` text gives; `(0, 0)` when it could not be read.
pub open spec fn meminfo_of(c: Option<Seq<char>>) -> (u64, u64) {
    match c {
        Some(s) => {
            let (t, a) = meminfo_fold(lines(s), 0, 0);
            (t as u64, if a <= t {
                a as u64
            } else {
                t as u64
            })
        },
        None => (0, 0),
    }
}

/// `cs[a..b]` read as kibibytes, in bytes (0 when it is not a number), or
/// `None` where that overflows.
pub fn parse_kb(cs: &Vec<char>, a: usize, b: usize) -> (r: Option<u64>)
    requires
        a <= b <= cs@.len(),
    ensures
        match r {
            Some(v) => kb_bytes(cs@.subrange(a as int, b as int)) <= u64::MAX && v == kb_bytes(
                cs@.subrange(a as int, b as int),
            ),
            None => kb_bytes(cs@.subrange(a as int, b as int)) > u64::MAX,
        },
{
    let ws = word_spans(cs, a, b);
    let ghost w = split_ws(cs@.subrange(a as int, b as int));
    assert(w == spans_view(cs@, ws@));
    if ws.len() == 0 {
        return Some(0);
    }
    let (x, y) = ws[0];
    assert(w[0] == cs@.subrange(x as int, y as int));
    match parse_u64_span(cs, x, y) {
        Some(k) => k.checked_mul(1024),
        None => Some(0),
    }
}

/// Total and available memory from a `/proc/meminfo` text, or `None` where
/// a figure does not fit in a `u64` once in bytes.
pub fn try_read_meminfo(content: &Option<String>) -> (r: Option<(u64, u64)>)
    ensures
        match r {
            Some(v) => meminfo_fits(text_view(*content)) && v == meminfo_of(text_view(*content)),
            None => !meminfo_fits(text_view(*content)),
        },
{
    match content {
        Some(s) => {
            let cs = chars_of(s.as_str());
            let ls = line_spans(&cs);
            let ghost all = lines(cs@);
            let mut total: u64 = 0;
            let mut avail: u64 = 0;
            let mut k: usize = 0;
            let tt: [char; 9] = ['M', 'e', 'm', 'T', 'o', 't', 'a', 'l', ':'];
            let at: [char; 13] = ['M', 'e', 'm', 'A', 'v', 'a', 'i', 'l', 'a', 'b', 'l', 'e', ':'];
            assert(tt@ =~= mem_total_tag());
            assert(at@ =~= mem_available_tag());
            assert(all.skip(0) =~= all);
            while k < ls.len()
                invariant
                    k <= ls@.len(),
                    all == lines(cs@),
                    cs@ == s@,
                    all.len() == ls@.len(),
                    spans_view(cs@, ls@) == all,
                    spans_within(ls@, 0, cs@.len() as int),
                    tt@ == mem_total_tag(),
                    at@ == mem_available_tag(),
                    meminfo_fold(all, 0, 0) == meminfo_fold(all.skip(k as int), total as int, avail as int),
                    meminfo_lines_fit(all) == meminfo_lines_fit(all.skip(k as int)),
                    meminfo_fits(text_view(*content)) == meminfo_lines_fit(all),
                    text_view(*content) == Some(cs@),
                decreases ls@.len() - k,
            {
                let (a, b) = ls[k];
                let ghost l = all[k as int];
                assert(l == cs@.subrange(a as int, b as int));
                assert(all.skip(k as int)[0] == l);
                assert(all.skip(k as int).drop_first() =~= all.skip(k + 1));
                proof {
                    lemma_lines_fit_step(all.skip(k as int));
                }
                let is_total = span_starts_with(&cs, a, b, &tt);
                let is_avail = span_starts_with(&cs, a, b, &at);
                proof {
                    if b - a >= 9 {
                        assert(l.take(9) =~= cs@.subrange(a as int, a + 9));
                    }
                    if b - a >= 13 {
                        assert(l.take(13) =~= cs@.subrange(a as int, a + 13));
                    }
                    assert(is_total == starts_with(l, mem_total_tag()));
                    assert(is_avail == starts_with(l, mem_available_tag()));
                }
                if is_total {
                    assert(cs@.subrange(a + 9, b as int) =~= l.skip(9));
                    match parse_kb(&cs, a + 9, b) {
                        Some(v) => {
                            total = v;
                        },
                        None => {
                            assert(!meminfo_line_fits(l));
                            assert(!meminfo_lines_fit(all.skip(k as int)));
                            assert(!meminfo_lines_fit(all));
                            return None;
                        },
                    }
                } else if is_avail {
                    assert(cs@.subrange(a + 13, b as int) =~= l.skip(13));
                    match parse_kb(&cs, a + 13, b) {
                        Some(v) => {
                            avail = v;
                        },
                        None => {
                            assert(!meminfo_line_fits(l));
                            assert(!meminfo_lines_fit(all.skip(k as int)));
                            assert(!meminfo_lines_fit(all));
                            return None;
                        },
                    }
                }
                k = k + 1;
            }
            assert(all.skip(k as int) =~= Seq::<Seq<char>>::empty());
            let a = if avail <= total {
                avail
            } else {
                total
            };
            Some((total, a))
        },
        None => Some((0, 0)),
    }
}

/// Total and available memory from a `/proc/meminfo` text.
pub fn read_meminfo(content: &Option<String>) -> (r: (u64, u64))
    requires
        meminfo_fits(text_view(*content)),
    ensures
        r == meminfo_of(text_view(*content)),
{
    match try_read_meminfo(content) {
        Some(v) => v,
        None => (0, 0),
    }
}

// ---------------------------------------------------------------- /proc/stat

/// The words of `ws` that read as numbers, in order.
pub open spec fn numbers_of(ws: Seq<Seq<char>>) -> Seq<u64>
    decreases ws.len(),
{
    if ws.len() == 0 {
        seq![]
    } else {
        let p = numbers_of(ws.drop_last());
        match parse_u64(ws.last()) {
            Some(v) => p.push(v),
            None => p,
        }
    }
}

/// The numbers on the aggregate `cpu` line, which must be the first line of
/// the text; `None` when there is no such line.
pub open spec fn stat_numbers(c: Option<Seq<char>>) -> Option<Seq<u64>> {
    match c {
        Some(s) => {
            let ls = lines(s);
            if ls.len() > 0 && (starts_with(ls[0], seq!['c', 'p', 'u', ' ']) || starts_with(
                ls[0],
                seq!['c', 'p', 'u', '\t'],
            )) {
                Some(numbers_of(split_ws(ls[0]).drop_first()))
            } else {
                None
            }
        },
        None => None,
    }
}

pub open spec fn seq_sum(s: Seq<u64>) -> int
    decreases s.len(),
{
    if s.len() == 0 {
        0
    } else {
        seq_sum(s.drop_last()) + s.last()
    }
}

/// Idle time: the fourth counter plus the fifth (iowait), if there is one.
pub open spec fn idle_of(n: Seq<u64>) -> int {
    n[3] + if n.len() > 4 {
        n[4] as int
    } else {
        0
    }
}

/// Whether the sums over the counters fit in a `u64`.
pub open spec fn counters_fit(n: Seq<u64>) -> bool {
    n.len() < 4 || (idle_of(n) <= u64::MAX && seq_sum(n) <= u64::MAX)
}

/// Whether a `/proc/stat` text can be summed.
pub open spec fn stat_fits(c: Option<Seq<char>>) -> bool {
    match stat_numbers(c) {
        Some(n) => counters_fit(n),
        None => true,
    }
}

/// Busy and total time from a `/proc/stat` text; `None` when there is no
/// aggregate line or it has fewer than four counters.
pub open spec fn stat_counters(c: Option<Seq<char>>) -> Option<(u64, u64)> {
    match stat_numbers(c) {
        Some(n) => if n.len() >= 4 {
            Some((sat_sub(seq_sum(n) as u64, idle_of(n) as u64), seq_sum(n) as u64))
        } else {
            None
        },
        None => None,
    }
}

/// The numbers of the aggregate `cpu` line of a `/proc/stat` text.
pub fn stat_line_numbers(content: &Option<String>) -> (r: Option<Vec<u64>>)
    ensures
        match r {
            Some(v) => stat_numbers(text_view(*content)) == Some(v@),
            None => stat_numbers(text_view(*content)).is_none(),
        },
{
    let s = match content {
        Some(s) => s,
        None => {
            return None;
        },
    };
    let cs = chars_of(s.as_str());
    let ls = line_spans(&cs);
    let ghost all = lines(cs@);
    if ls.len() == 0 {
        return None;
    }
    let (a, b) = ls[0];
    assert(all[0] == cs@.subrange(a as int, b as int));
    let t1: [char; 4] = ['c', 'p', 'u', ' '];
    let t2: [char; 4] = ['c', 'p', 'u', '\t'];
    assert(t1@ =~= seq!['c', 'p', 'u', ' ']);
    assert(t2@ =~= seq!['c', 'p', 'u', '\t']);
    let p1 = span_starts_with(&cs, a, b, &t1);
    let p2 = span_starts_with(&cs, a, b, &t2);
    proof {
        if b - a >= 4 {
            assert(all[0].take(4) =~= cs@.subrange(a as int, a + 4));
        }
    }
    if !p1 && !p2 {
        return None;
    }
    let ws = word_spans(&cs, a, b);
    let ghost words = split_ws(all[0]).drop_first();
    assert(split_ws(all[0]) == spans_view(cs@, ws@));
    let mut nums: Vec<u64> = Vec::new();
    let mut j: usize = 1;
    if ws.len() == 0 {
        assert(words =~= Seq::<Seq<char>>::empty());
        return Some(nums);
    }
    assert(words.take(0) =~= Seq::<Seq<char>>::empty());
    while j < ws.len()
        invariant
            1 <= j <= ws@.len(),
            words == spans_view(cs@, ws@).drop_first(),
            spans_within(ws@, a as int, b as int),
            b <= cs@.len(),
            nums@ == numbers_of(words.take(j - 1)),
        decreases ws@.len() - j,
    {
        let (x, y) = ws[j];
        assert(words[j - 1] == cs@.subrange(x as int, y as int));
        assert(words.take(j as int).drop_last() =~= words.take(j - 1));
        match parse_u64_span(&cs, x, y) {
            Some(v) => {
                nums.push(v);
            },
            None => {},
        }
        j = j + 1;
    }
    assert(words.take(j - 1) =~= words);
    Some(nums)
}

/// Busy and total time from the counters `n` (outer `None`: the sums overflow;
/// inner `None`: fewer than four counters).
pub fn counters_of(n: &Vec<u64>) -> (r: Option<Option<(u64, u64)>>)
    ensures
        match r {
            Some(v) => counters_fit(n@) && v == (if n@.len() >= 4 {
                Some((sat_sub(seq_sum(n@) as u64, idle_of(n@) as u64), seq_sum(n@) as u64))
            } else {
                None
            }),
            None => !counters_fit(n@),
        },
{
    if n.len() < 4 {
        return Some(None);
    }
    let extra: u64 = if n.len() > 4 {
        n[4]
    } else {
        0
    };
    let idle = match n[3].checked_add(extra) {
        Some(v) => v,
        None => {
            return None;
        },
    };
    let mut total: u64 = 0;
    let mut k: usize = 0;
    while k < n.len()
        invariant
            k <= n@.len(),
            n@.len() >= 4,
            total == seq_sum(n@.take(k as int)),
        decreases n@.len() - k,
    {
        assert(n@.take(k + 1).drop_last() =~= n@.take(k as int));
        assert(n@.take(k + 1).last() == n@[k as int]);
        match total.checked_add(n[k]) {
            Some(v) => {
                total = v;
            },
            None => {
                proof {
                    lemma_sum_prefix(n@, k + 1);
                }
                return None;
            },
        }
        k = k + 1;
    }
    assert(n@.take(n@.len() as int) =~= n@);
    Some(Some((total.saturating_sub(idle), total)))
}

/// Busy and total time from a `/proc/stat` text (outer `None`: the sums
/// overflow).
pub fn try_stat_counters(content: &Option<String>) -> (r: Option<Option<(u64, u64)>>)
    ensures
        match r {
            Some(v) => stat_fits(text_view(*content)) && v == stat_counters(text_view(*content)),
            None => !stat_fits(text_view(*content)),
        },
{
    match stat_line_numbers(content) {
        Some(n) => counters_of(&n),
        None => Some(None),
    }
}

proof fn lemma_sum_prefix(s: Seq<u64>, k: int)
    requires
        0 <= k <= s.len(),
    ensures
        seq_sum(s.take(k)) <= seq_sum(s),
    decreases s.len() - k,
{
    if k < s.len() {
        lemma_sum_prefix(s, k + 1);
        assert(s.take(k + 1).drop_last() =~= s.take(k));
    } else {
        assert(s.take(k) =~= s);
    }
}

/// Busy and total time from a `/proc/stat` text.
pub fn read_stat_counters(content: &Option<String>) -> (r: Option<(u64, u64)>)
    requires
        stat_fits(text_view(*content)),
    ensures
        r == stat_counters(text_view(*content)),
{
    match try_stat_counters(content) {
        Some(v) => v,
        None => None,
    }
}

/// Number of per-processor lines (`cpu` followed by a digit) in the lines `ls`.
pub open spec fn cpu_line_count(ls: Seq<Seq<char>>) -> nat
    decreases ls.len(),
{
    if ls.len() == 0 {
        0
    } else {
        let l = ls.last();
        cpu_line_count(ls.drop_last()) + if starts_with(l, seq!['c', 'p', 'u']) && l.len() > 3
            && is_digit(l[3]) {
            1nat
        } else {
            0nat
        }
    }
}

/// Whether a line is a per-processor line of `/proc/stat`: `cpu` followed by
/// a decimal digit, whatever comes after that digit.
pub open spec fn is_cpu_n_line(l: Seq<char>) -> bool {
    l.len() >= 4 && l[0] == 'c' && l[1] == 'p' && l[2] == 'u' && '0' as u32 <= l[3] as u32 <= '9' as u32
}

/// The per-processor lines among `ls`, in order.
pub open spec fn cpu_n_lines(ls: Seq<Seq<char>>) -> Seq<Seq<char>> {
    ls.filter(|l: Seq<char>| is_cpu_n_line(l))
}

/// The per-processor lines are counted one each, whatever follows the
/// digit (`cpu10`, `cpu11`, ... count as much as `cpu0`), and no other line
/// counts: the count is the number of lines that are such lines.
pub proof fn law_cpu_lines_counted(ls: Seq<Seq<char>>)
    ensures
        cpu_line_count(ls) == cpu_n_lines(ls).len(),
    decreases ls.len(),
{
    reveal(Seq::filter);
    if ls.len() > 0 {
        law_cpu_lines_counted(ls.drop_last());
        let l = ls.last();
        let f = |l: Seq<char>| is_cpu_n_line(l);
        assert(cpu_n_lines(ls) == if f(l) {
            cpu_n_lines(ls.drop_last()).push(l)
        } else {
            cpu_n_lines(ls.drop_last())
        });
        if l.len() >= 3 && starts_with(l, seq!['c', 'p', 'u']) {
            assert(l[0] == l.take(3)[0] && l[1] == l.take(3)[1] && l[2] == l.take(3)[2]);
        }
        if l.len() >= 4 && l[0] == 'c' && l[1] == 'p' && l[2] == 'u' {
            assert(l.take(3) =~= seq!['c', 'p', 'u']);
        }
    }
}

/// The processor count is at least the available parallelism and at least
/// the number of per-processor lines of the `/proc/stat` text, and is one of
/// the two.
pub proof fn law_ncpu_counts_processors(s: Seq<char>, parallelism: usize)
    ensures
        ({
            let k = cpu_n_lines(lines(s)).len();
            &&& ncpu_of(Some(s), parallelism) >= parallelism
            &&& ncpu_of(Some(s), parallelism) >= k
            &&& (ncpu_of(Some(s), parallelism) == k || ncpu_of(Some(s), parallelism) == parallelism)
        }),
        ncpu_of(None, parallelism) == parallelism,
{
    law_cpu_lines_counted(lines(s));
}

/// The processor count: the per-processor lines of a `/proc/stat` text (none
/// when it could not be read), but at least `parallelism`.
pub open spec fn ncpu_of(c: Option<Seq<char>>, parallelism: usize) -> int {
    let n = match c {
        Some(s) => cpu_line_count(lines(s)) as int,
        None => 0,
    };
    if n >= parallelism {
        n
    } else {
        parallelism as int
    }
}

/// The processor count from `/proc/stat` and the available parallelism.
pub fn read_ncpu(content: &Option<String>, parallelism: usize) -> (r: usize)
    ensures
        r == ncpu_of(text_view(*content), parallelism),
{
    let mut n: usize = 0;
    match content {
        Some(s) => {
            let cs = chars_of(s.as_str());
            let ls = line_spans(&cs);
            let ghost all = lines(cs@);
            let t: [char; 3] = ['c', 'p', 'u'];
            assert(t@ =~= seq!['c', 'p', 'u']);
            let mut k: usize = 0;
            while k < ls.len()
                invariant
                    k <= ls@.len(),
                    all.len() == ls@.len(),
                    spans_view(cs@, ls@) == all,
                    spans_within(ls@, 0, cs@.len() as int),
                    t@ == seq!['c', 'p', 'u'],
                    n == cpu_line_count(all.take(k as int)),
                    n <= k,
                decreases ls@.len() - k,
            {
                let (a, b) = ls[k];
                let ghost l = all[k as int];
                assert(l == cs@.subrange(a as int, b as int));
                assert(all.take(k + 1).drop_last() =~= all.take(k as int));
                assert(all.take(k + 1).last() == l);
                let pre = span_starts_with(&cs, a, b, &t);
                proof {
                    if b - a >= 3 {
                        assert(l.take(3) =~= cs@.subrange(a as int, a + 3));
                    }
                }
                if pre && b - a > 3 {
                    let u = cs[a + 3] as u32;
                    assert(l[3] == cs@[a + 3]);
                    if '0' as u32 <= u && u <= '9' as u32 {
                        n = n + 1;
                    }
                }
                k = k + 1;
            }
            assert(all.take(ls@.len() as int) =~= all);
        },
        None => {},
    }
    if n >= parallelism {
        n
    } else {
        parallelism
    }
}

// ---------------------------------------------------------------- host sources

/// The files read for one host sample: `/proc/stat` for the processor count
/// (only consulted while that is unknown) with the available parallelism,
/// `/proc/meminfo` for the total, `/proc/stat` for the counters, and
/// `/proc/meminfo` again for use.
pub struct HostReadings {
    pub ncpu_stat: Option<String>,
    pub parallelism: usize,
    pub meminfo_before: Option<String>,
    pub stat: Option<String>,
    pub meminfo: Option<String>,
}

/// Whether every figure of `r` can be computed without overflow.
pub open spec fn readings_fit(r: HostReadings) -> bool {
    &&& meminfo_fits(text_view(r.meminfo_before))
    &&& stat_fits(text_view(r.stat))
    &&& meminfo_fits(text_view(r.meminfo))
}

/// Whether the figures of `r` can be computed without overflow.
pub fn check_readings(r: &HostReadings) -> (ok: bool)
    ensures
        ok == readings_fit(*r),
{
    try_read_meminfo(&r.meminfo_before).is_some() && try_stat_counters(&r.stat).is_some()
        && try_read_meminfo(&r.meminfo).is_some()
}

/// The host read from `/proc`: the previous counters and the static figures.
pub struct ProcHost {
    pub prev: Option<(u64, u64)>,
    pub ncpu: usize,
    pub mem_total: u64,
}

/// The CPU share between previous counters and new ones.
pub open spec fn share_between(prev: Option<(u64, u64)>, now: (u64, u64)) -> CpuShare {
    match prev {
        Some((pb, pt)) => CpuShare { busy: sat_sub(now.0, pb), total: sat_sub(now.1, pt), cpus: 1 },
        None => CpuShare { busy: 0, total: 0, cpus: 1 },
    }
}

impl ProcHost {
    /// A host not sampled yet.
    pub fn new() -> (r: ProcHost)
        ensures
            r.prev.is_none(),
            r.ncpu == 0,
            r.mem_total == 0,
    {
        ProcHost { prev: None, ncpu: 0, mem_total: 0 }
    }

    /// The CPU share since the last sample, from a `/proc/stat` text; without
    /// usable counters the share is nothing and the last counters stay.
    pub fn cpu_pct(&mut self, stat: &Option<String>) -> (r: CpuShare)
        requires
            stat_fits(text_view(*stat)),
        ensures
            final(self).ncpu == old(self).ncpu,
            final(self).mem_total == old(self).mem_total,
            match stat_counters(text_view(*stat)) {
                Some(c) => r == share_between(old(self).prev, c) && final(self).prev == Some(c),
                None => r == CpuShare::idle_spec() && final(self).prev == old(self).prev,
            },
    {
        match read_stat_counters(stat) {
            Some((busy, total)) => {
                let share = match self.prev {
                    Some((pb, pt)) => CpuShare {
                        busy: busy.saturating_sub(pb),
                        total: total.saturating_sub(pt),
                        cpus: 1,
                    },
                    None => CpuShare::idle(),
                };
                self.prev = Some((busy, total));
                share
            },
            None => CpuShare::idle(),
        }
    }

    /// One host sample from the files `r` (see `HostReadings`).
    pub fn sample(&mut self, r: &HostReadings) -> (s: HostStat)
        requires
            readings_fit(*r),
        ensures
            final(self).ncpu == (if old(self).ncpu == 0 {
                ncpu_of(text_view(r.ncpu_stat), r.parallelism) as usize
            } else {
                old(self).ncpu
            }),
            final(self).mem_total == meminfo_of(text_view(r.meminfo_before)).0,
            match stat_counters(text_view(r.stat)) {
                Some(c) => s.cpu == HostCpu::Share(share_between(old(self).prev, c))
                    && final(self).prev == Some(c),
                None => s.cpu == HostCpu::Share(CpuShare::idle_spec()) && final(self).prev == old(
                    self,
                ).prev,
            },
            s.mem_total == meminfo_of(text_view(r.meminfo)).0,
            s.mem_used == sat_sub(meminfo_of(text_view(r.meminfo)).0, meminfo_of(text_view(r.meminfo)).1),
            s.ncpu == if final(self).ncpu == 0 {
                1
            } else {
                final(self).ncpu
            },
    {
        if self.ncpu == 0 {
            self.ncpu = read_ncpu(&r.ncpu_stat, r.parallelism);
        }
        let (t0, _a0) = read_meminfo(&r.meminfo_before);
        self.mem_total = t0;
        let cpu = self.cpu_pct(&r.stat);
        let (total, avail) = read_meminfo(&r.meminfo);
        HostStat {
            cpu: HostCpu::Share(cpu),
            mem_used: total.saturating_sub(avail),
            mem_total: total,
            ncpu: if self.ncpu == 0 {
                1
            } else {
                self.ncpu
            },
        }
    }
}

/// The host as the Docker daemon describes it.
pub struct FallbackHost {
    pub ncpu: usize,
    pub mem_total: u64,
}

/// The sum of the containers' memory use.
pub open spec fn mem_sum(v: Seq<ContainerStatView>) -> int
    decreases v.len(),
{
    if v.len() == 0 {
        0
    } else {
        mem_sum(v.drop_last()) + v.last().mem_bytes
    }
}

/// The containers' memory use summed, or `None` where the sum overflows.
pub fn total_mem(containers: &Vec<ContainerStat>) -> (r: Option<u64>)
    ensures
        match r {
            Some(v) => v == mem_sum(stats_view(containers@)),
            None => mem_sum(stats_view(containers@)) > u64::MAX,
        },
{
    let ghost sv = stats_view(containers@);
    let mut sum: u64 = 0;
    let mut k: usize = 0;
    while k < containers.len()
        invariant
            k <= containers@.len(),
            sv == stats_view(containers@),
            sum == mem_sum(sv.take(k as int)),
        decreases containers@.len() - k,
    {
        assert(sv.take(k + 1).drop_last() =~= sv.take(k as int));
        assert(sv.take(k + 1).last() == containers@[k as int]@);
        match sum.checked_add(containers[k].mem_bytes) {
            Some(v) => {
                sum = v;
            },
            None => {
                proof {
                    lemma_mem_sum_prefix(sv, k + 1);
                }
                return None;
            },
        }
        k = k + 1;
    }
    assert(sv.take(containers@.len() as int) =~= sv);
    Some(sum)
}

proof fn lemma_mem_sum_prefix(s: Seq<ContainerStatView>, k: int)
    requires
        0 <= k <= s.len(),
    ensures
        mem_sum(s.take(k)) <= mem_sum(s),
    decreases s.len() - k,
{
    if k < s.len() {
        lemma_mem_sum_prefix(s, k + 1);
        assert(s.take(k + 1).drop_last() =~= s.take(k));
    } else {
        assert(s.take(k) =~= s);
    }
}

impl FallbackHost {
    /// The host from the daemon's processor count and memory total (each
    /// `None` where the daemon left it out), or, when the daemon could not be
    /// asked (`info` is `None`), from the available parallelism with unknown memory.
    pub fn from_info(info: Option<(Option<i64>, Option<i64>)>, parallelism: usize) -> (r: FallbackHost)
        ensures
            match info {
                Some((n, m)) => {
                    &&& r.ncpu == (match n {
                        Some(v) => if v >= 1 {
                            v
                        } else {
                            1
                        },
                        None => 1,
                    }) as usize
                    &&& r.mem_total == (match m {
                        Some(v) => if v >= 0 {
                            v
                        } else {
                            0
                        },
                        None => 0,
                    }) as u64
                },
                None => r.ncpu == parallelism && r.mem_total == 0,
            },
    {
        match info {
            Some((n, m)) => {
                let nc: i64 = match n {
                    Some(v) => v,
                    None => 1,
                };
                let nc = if nc >= 1 {
                    nc
                } else {
                    1
                };
                let mt: i64 = match m {
                    Some(v) => v,
                    None => 0,
                };
                let mt = if mt >= 0 {
                    mt
                } else {
                    0
                };
                FallbackHost { ncpu: nc as usize, mem_total: mt as u64 }
            },
            None => FallbackHost { ncpu: parallelism, mem_total: 0 },
        }
    }

    /// The host's sample: the containers' summed memory (at most the total)
    /// and their CPU averaged over the processors.
    pub fn sample(&self, containers: &Vec<ContainerStat>) -> (s: HostStat)
        requires
            mem_sum(stats_view(containers@)) <= u64::MAX,
        ensures
            s.cpu == HostCpu::ContainerAverage,
            s.mem_used == if mem_sum(stats_view(containers@)) <= self.mem_total {
                mem_sum(stats_view(containers@))
            } else {
                self.mem_total as int
            },
            s.mem_total == self.mem_total,
            s.ncpu == if self.ncpu == 0 {
                1
            } else {
                self.ncpu
            },
    {
        let sum = match total_mem(containers) {
            Some(v) => v,
            None => 0,
        };
        HostStat {
            cpu: HostCpu::ContainerAverage,
            mem_used: if sum <= self.mem_total {
                sum
            } else {
                self.mem_total
            },
            mem_total: self.mem_total,
            ncpu: if self.ncpu == 0 {
                1
            } else {
                self.ncpu
            },
        }
    }
}

/// Where host figures come from.
pub enum HostBackend {
    Proc(ProcHost),
    Fallback(FallbackHost),
}

impl HostBackend {
    /// The processor count (at least 1).
    pub fn ncpu(&self) -> (r: usize)
        ensures
            r == match self {
                HostBackend::Proc(p) => if p.ncpu == 0 {
                    1
                } else {
                    p.ncpu
                },
                HostBackend::Fallback(f) => if f.ncpu == 0 {
                    1
                } else {
                    f.ncpu
                },
            },
    {
        let n = match self {
            HostBackend::Proc(p) => p.ncpu,
            HostBackend::Fallback(f) => f.ncpu,
        };
        if n == 0 {
            1
        } else {
            n
        }
    }

    /// The host's memory total as last known.
    pub fn mem_total(&self) -> (r: u64)
        ensures
            r == match self {
                HostBackend::Proc(p) => p.mem_total,
                HostBackend::Fallback(f) => f.mem_total,
            },
    {
        match self {
            HostBackend::Proc(p) => p.mem_total,
            HostBackend::Fallback(f) => f.mem_total,
        }
    }

    /// Whether `sample` can run on these inputs without overflow.
    pub open spec fn sample_fits(&self, r: HostReadings, containers: Seq<ContainerStatView>) -> bool {
        match self {
            HostBackend::Proc(_) => readings_fit(r),
            HostBackend::Fallback(_) => mem_sum(containers) <= u64::MAX,
        }
    }

    /// Whether `sample` can run on these inputs without overflow.
    pub fn can_sample(&self, r: &HostReadings, containers: &Vec<ContainerStat>) -> (ok: bool)
        ensures
            ok == self.sample_fits(*r, stats_view(containers@)),
    {
        match self {
            HostBackend::Proc(_) => check_readings(r),
            HostBackend::Fallback(_) => total_mem(containers).is_some(),
        }
    }

    /// One host sample: from the files `r` for the `/proc` host, from the
    /// containers' stats for the fallback.
    pub fn sample(&mut self, r: &HostReadings, containers: &Vec<ContainerStat>) -> (s: HostStat)
        requires
            old(self).sample_fits(*r, stats_view(containers@)),
        ensures
            match (*old(self), *final(self)) {
                (HostBackend::Proc(p0), HostBackend::Proc(p1)) => {
                    &&& p1.ncpu == (if p0.ncpu == 0 {
                        ncpu_of(text_view(r.ncpu_stat), r.parallelism) as usize
                    } else {
                        p0.ncpu
                    })
                    &&& p1.mem_total == meminfo_of(text_view(r.meminfo_before)).0
                    &&& match stat_counters(text_view(r.stat)) {
                        Some(c) => s.cpu == HostCpu::Share(share_between(p0.prev, c)) && p1.prev
                            == Some(c),
                        None => s.cpu == HostCpu::Share(CpuShare::idle_spec()) && p1.prev
                            == p0.prev,
                    }
                    &&& s.mem_total == meminfo_of(text_view(r.meminfo)).0
                    &&& s.mem_used == sat_sub(meminfo_of(text_view(r.meminfo)).0, meminfo_of(text_view(r.meminfo)).1)
                    &&& s.ncpu == if p1.ncpu == 0 {
                        1
                    } else {
                        p1.ncpu
                    }
                },
                (HostBackend::Fallback(f0), HostBackend::Fallback(f1)) => {
                    &&& f1 == f0
                    &&& s.cpu == HostCpu::ContainerAverage
                    &&& s.mem_used == if mem_sum(stats_view(containers@)) <= f0.mem_total {
                        mem_sum(stats_view(containers@))
                    } else {
                        f0.mem_total as int
                    }
                    &&& s.mem_total == f0.mem_total
                    &&& s.ncpu == if f0.ncpu == 0 {
                        1
                    } else {
                        f0.ncpu
                    }
                },
                _ => false,
            },
    {
        match self {
            HostBackend::Proc(p) => p.sample(r),
            HostBackend::Fallback(f) => f.sample(containers),
        }
    }
}

/// Host memory in use never exceeds the total: from `/proc/meminfo` the
/// available memory is capped at the total before it is subtracted, and the
/// fallback caps the containers' sum at the total.
pub proof fn law_host_mem_used_within_total(c: Option<Seq<char>>, containers: Seq<ContainerStatView>, f: FallbackHost)
    ensures
        sat_sub(meminfo_of(c).0, meminfo_of(c).1) <= meminfo_of(c).0,
        (if mem_sum(containers) <= f.mem_total {
            mem_sum(containers)
        } else {
            f.mem_total as int
        }) <= f.mem_total,
{
}

} // verus!
