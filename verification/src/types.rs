//! The values the service passes around: containers, samples and queries.
use vstd::prelude::*;

use crate::text::{chars_of, parse_i64, parse_i64_span, span_eq, trim_end_char, trim_end_char_span};

verus! {

/// A container as the list shows it.
pub struct ContainerInfo {
    pub id: String,
    pub name: String,
    pub image: String,
    pub state: String,
    pub status: String,
    pub created: i64,
}

pub struct ContainerInfoView {
    pub id: Seq<char>,
    pub name: Seq<char>,
    pub image: Seq<char>,
    pub state: Seq<char>,
    pub status: Seq<char>,
    pub created: i64,
}

impl View for ContainerInfo {
    type V = ContainerInfoView;

    open spec fn view(&self) -> ContainerInfoView {
        ContainerInfoView {
            id: self.id@,
            name: self.name@,
            image: self.image@,
            state: self.state@,
            status: self.status@,
            created: self.created,
        }
    }
}

impl ContainerInfo {
    /// A copy of this container's record.
    pub fn duplicate(&self) -> (r: ContainerInfo)
        ensures
            r@ == self@,
    {
        ContainerInfo {
            id: self.id.clone(),
            name: self.name.clone(),
            image: self.image.clone(),
            state: self.state.clone(),
            status: self.status.clone(),
            created: self.created,
        }
    }
}

/// The views of a sequence of containers.
pub open spec fn infos_view(v: Seq<ContainerInfo>) -> Seq<ContainerInfoView> {
    v.map_values(|c: ContainerInfo| c@)
}

/// A reference to a running container.
pub struct ContainerRef {
    pub id: String,
}

impl ContainerRef {
    /// A copy of this reference.
    pub fn duplicate(&self) -> (r: ContainerRef)
        ensures
            r.id@ == self.id@,
    {
        ContainerRef { id: self.id.clone() }
    }
}

/// The ids of a sequence of references.
pub open spec fn refs_ids(v: Seq<ContainerRef>) -> Seq<Seq<char>> {
    v.map_values(|r: ContainerRef| r.id@)
}

/// A CPU usage as the counters give it: `busy` units of use over `total`
/// units of time, on `cpus` processors. Its percentage (100 = one processor)
/// is `busy / total * cpus * 100`, and 0 when `busy` or `total` is 0.
#[derive(PartialEq, Eq, Structural, Clone, Copy, Debug)]
pub struct CpuShare {
    pub busy: u64,
    pub total: u64,
    pub cpus: u64,
}

impl CpuShare {
    /// A usage of nothing.
    pub open spec fn idle_spec() -> CpuShare {
        CpuShare { busy: 0, total: 0, cpus: 1 }
    }

    /// A usage of nothing.
    pub fn idle() -> (r: CpuShare)
        ensures
            r == CpuShare::idle_spec(),
    {
        CpuShare { busy: 0, total: 0, cpus: 1 }
    }
}

/// One container's usage in one sample.
pub struct ContainerStat {
    pub id: String,
    pub cpu: CpuShare,
    pub mem_bytes: u64,
    pub mem_limit: u64,
}

pub struct ContainerStatView {
    pub id: Seq<char>,
    pub cpu: CpuShare,
    pub mem_bytes: u64,
    pub mem_limit: u64,
}

impl View for ContainerStat {
    type V = ContainerStatView;

    open spec fn view(&self) -> ContainerStatView {
        ContainerStatView {
            id: self.id@,
            cpu: self.cpu,
            mem_bytes: self.mem_bytes,
            mem_limit: self.mem_limit,
        }
    }
}

/// The views of a sequence of container stats.
pub open spec fn stats_view(v: Seq<ContainerStat>) -> Seq<ContainerStatView> {
    v.map_values(|c: ContainerStat| c@)
}

/// Where the host's CPU figure comes from.
#[derive(PartialEq, Eq, Structural, Clone, Copy, Debug)]
pub enum HostCpu {
    /// The host's own counters; the percentage is clamped to 0..=100.
    Share(CpuShare),
    /// The sum of the containers' percentages divided by the host's
    /// processors, clamped to 0..=100.
    ContainerAverage,
}

/// The host's usage in one sample.
#[derive(PartialEq, Eq, Structural, Clone, Copy, Debug)]
pub struct HostStat {
    pub cpu: HostCpu,
    pub mem_used: u64,
    pub mem_total: u64,
    pub ncpu: usize,
}

/// The query of a history request.
pub struct HistoryQuery {
    pub range: Option<String>,
}

/// The query of a log request.
pub struct LogQuery {
    pub tail: Option<usize>,
}

/// Milliseconds in a minute.
pub const MINUTE_MS: i64 = 60000;

/// The span a history range names, in milliseconds, before any overflow
/// check: the named ranges, else a number of minutes (trailing `m`s
/// ignored), else one hour. No range means one hour.
pub open spec fn range_span(range: Option<Seq<char>>) -> int {
    match range {
        None => 3600000,
        Some(s) => if s == seq!['5', 'm'] {
            300000
        } else if s == seq!['1', '5', 'm'] {
            900000
        } else if s == seq!['1', 'h'] {
            3600000
        } else if s == seq!['6', 'h'] {
            21600000
        } else if s == seq!['2', '4', 'h'] || s == seq!['1', 'd'] {
            86400000
        } else if s == seq!['7', 'd'] {
            604800000
        } else {
            match parse_i64(trim_end_char(s, 'm')) {
                Some(m) => m * MINUTE_MS,
                None => 3600000,
            }
        }
    }
}

pub open spec fn opt_view(o: Option<String>) -> Option<Seq<char>> {
    match o {
        Some(s) => Some(s@),
        None => None,
    }
}

/// Whether the span of `range` fits in an `i64`.
pub open spec fn range_fits(range: Option<Seq<char>>) -> bool {
    i64::MIN <= range_span(range) <= i64::MAX
}

/// The span of a history range, or `None` where computing it overflows.
pub fn try_range_to_millis(range: &Option<String>) -> (r: Option<i64>)
    ensures
        match r {
            Some(v) => range_fits(opt_view(*range)) && v == range_span(opt_view(*range)),
            None => !range_fits(opt_view(*range)),
        },
{
    match range {
        None => Some(3600000),
        Some(s) => {
            let cs = chars_of(s.as_str());
            let n = cs.len();
            assert(cs@.subrange(0, n as int) =~= cs@);
            let a: [char; 2] = ['5', 'm'];
            let b: [char; 3] = ['1', '5', 'm'];
            let c: [char; 2] = ['1', 'h'];
            let d: [char; 2] = ['6', 'h'];
            let e: [char; 3] = ['2', '4', 'h'];
            let f: [char; 2] = ['1', 'd'];
            let g: [char; 2] = ['7', 'd'];
            assert(a@ =~= seq!['5', 'm']);
            assert(b@ =~= seq!['1', '5', 'm']);
            assert(c@ =~= seq!['1', 'h']);
            assert(d@ =~= seq!['6', 'h']);
            assert(e@ =~= seq!['2', '4', 'h']);
            assert(f@ =~= seq!['1', 'd']);
            assert(g@ =~= seq!['7', 'd']);
            if span_eq(&cs, 0, n, &a) {
                Some(300000)
            } else if span_eq(&cs, 0, n, &b) {
                Some(900000)
            } else if span_eq(&cs, 0, n, &c) {
                Some(3600000)
            } else if span_eq(&cs, 0, n, &d) {
                Some(21600000)
            } else if span_eq(&cs, 0, n, &e) || span_eq(&cs, 0, n, &f) {
                Some(86400000)
            } else if span_eq(&cs, 0, n, &g) {
                Some(604800000)
            } else {
                let end = trim_end_char_span(&cs, 0, n, 'm');
                match parse_i64_span(&cs, 0, end) {
                    Some(m) => m.checked_mul(MINUTE_MS),
                    None => Some(3600000),
                }
            }
        },
    }
}

/// The span of a history range in milliseconds (`15m`, `1h`, `6h`, `24h`,
/// `7d`, `5m`, `1d`, or a number of minutes; one hour otherwise).
pub fn range_to_millis(range: &Option<String>) -> (r: i64)
    requires
        range_fits(opt_view(*range)),
    ensures
        r == range_span(opt_view(*range)),
{
    match try_range_to_millis(range) {
        Some(v) => v,
        None => 0,
    }
}

} // verus!
