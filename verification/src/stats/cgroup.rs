//! Container usage read straight from the cgroup files (v2 or v1).
use vstd::prelude::*;
use vstd::string::*;

use crate::idmap::{ids_set, IdMap};
use crate::stats::{kept_ids, lemma_kept_ids, lemma_kept_id_from, view_ids};
use crate::text::{
    chars_of, line_spans, lines, parse_u64, parse_u64_span, span_eq, spans_view, spans_within,
    split_ws, trim, trim_span, word_spans,
};
use crate::types::{refs_ids, stats_view, ContainerRef, ContainerStat, ContainerStatView, CpuShare};

verus! {

/// Where a container's cgroup files are.
#[derive(Clone, Debug)]
pub enum CgPaths {
    /// The unified (v2) directory.
    V2 { base: String },
    /// The v1 `cpuacct` and `memory` directories.
    V1 { cpu: String, mem: String },
}

/// The contents of the four files sampled for a container (`None` where the
/// file could not be read as text). For v2: `cpu.stat`, `memory.current`,
/// `memory.stat`, `memory.max`; for v1: `cpuacct.usage`,
/// `memory.usage_in_bytes`, `memory.stat`, `memory.limit_in_bytes`.
pub struct CgFiles {
    pub cpu: Option<String>,
    pub mem_current: Option<String>,
    pub mem_stat: Option<String>,
    pub mem_limit: Option<String>,
}

pub open spec fn text_view(o: Option<String>) -> Option<Seq<char>> {
    match o {
        Some(s) => Some(s@),
        None => None,
    }
}

// ---------------------------------------------------------------- file formats

/// A file holding one number (surrounding whitespace allowed).
pub open spec fn u64_text(c: Option<Seq<char>>) -> Option<u64> {
    match c {
        Some(s) => parse_u64(trim(s)),
        None => None,
    }
}

/// A limit file: `max` or a missing or malformed file mean no limit (0).
pub open spec fn max_text(c: Option<Seq<char>>) -> u64 {
    match c {
        Some(s) => if trim(s) == seq!['m', 'a', 'x'] {
            0
        } else {
            match parse_u64(trim(s)) {
                Some(v) => v,
                None => 0,
            }
        },
        None => 0,
    }
}

/// The value on the first of `ls` whose first word is `key`: its second word
/// read as a number.
pub open spec fn field_in_lines(ls: Seq<Seq<char>>, key: Seq<char>) -> Option<u64>
    decreases ls.len(),
{
    if ls.len() == 0 {
        None
    } else {
        let w = split_ws(ls[0]);
        if w.len() > 0 && w[0] == key {
            if w.len() > 1 {
                parse_u64(w[1])
            } else {
                None
            }
        } else {
            field_in_lines(ls.drop_first(), key)
        }
    }
}

/// A `key value` per line file, looked up by key.
pub open spec fn field_text(c: Option<Seq<char>>, key: Seq<char>) -> Option<u64> {
    match c {
        Some(s) => field_in_lines(lines(s), key),
        None => None,
    }
}

pub open spec fn sat_sub(a: u64, b: u64) -> u64 {
    if a >= b {
        (a - b) as u64
    } else {
        0
    }
}

pub open spec fn or_zero(o: Option<u64>) -> u64 {
    match o {
        Some(v) => v,
        None => 0,
    }
}

/// Limits at or above 2^62 mean "unlimited" in cgroup v1.
pub const V1_UNLIMITED: u64 = 0x4000_0000_0000_0000;

/// CPU time used (µs), memory in use (less inactive file cache) and memory
/// limit (0 for none) as the files give them; `None` when the CPU counter is
/// missing.
pub open spec fn cg_reading(v2: bool, f: CgFiles) -> Option<(u64, u64, u64)> {
    if v2 {
        match field_text(text_view(f.cpu), seq!['u', 's', 'a', 'g', 'e', '_', 'u', 's', 'e', 'c']) {
            Some(usage) => {
                let current = or_zero(u64_text(text_view(f.mem_current)));
                let inactive = or_zero(
                    field_text(
                        text_view(f.mem_stat),
                        seq!['i', 'n', 'a', 'c', 't', 'i', 'v', 'e', '_', 'f', 'i', 'l', 'e'],
                    ),
                );
                Some((usage, sat_sub(current, inactive), max_text(text_view(f.mem_limit))))
            },
            None => None,
        }
    } else {
        match u64_text(text_view(f.cpu)) {
            Some(ns) => {
                let current = or_zero(u64_text(text_view(f.mem_current)));
                let inactive = or_zero(
                    field_text(
                        text_view(f.mem_stat),
                        seq![
                            't', 'o', 't', 'a', 'l', '_', 'i', 'n', 'a', 'c', 't', 'i', 'v', 'e',
                            '_', 'f', 'i', 'l', 'e'
                        ],
                    ),
                );
                let raw = or_zero(u64_text(text_view(f.mem_limit)));
                Some(
                    (
                        (ns / 1000) as u64,
                        sat_sub(current, inactive),
                        if raw >= V1_UNLIMITED {
                            0
                        } else {
                            raw
                        },
                    ),
                )
            },
            None => None,
        }
    }
}

/// A file holding one number.
pub fn read_u64(content: &Option<String>) -> (r: Option<u64>)
    ensures
        r == u64_text(text_view(*content)),
{
    match content {
        Some(s) => {
            let cs = chars_of(s.as_str());
            let (a, b) = trim_span(&cs, 0, cs.len());
            assert(cs@.subrange(0, cs@.len() as int) =~= cs@);
            parse_u64_span(&cs, a, b)
        },
        None => None,
    }
}

/// A limit file (`max` meaning none).
pub fn read_max(content: &Option<String>) -> (r: u64)
    ensures
        r == max_text(text_view(*content)),
{
    match content {
        Some(s) => {
            let cs = chars_of(s.as_str());
            let (a, b) = trim_span(&cs, 0, cs.len());
            assert(cs@.subrange(0, cs@.len() as int) =~= cs@);
            let m: [char; 3] = ['m', 'a', 'x'];
            assert(m@ =~= seq!['m', 'a', 'x']);
            if span_eq(&cs, a, b, &m) {
                0
            } else {
                match parse_u64_span(&cs, a, b) {
                    Some(v) => v,
                    None => 0,
                }
            }
        },
        None => 0,
    }
}

/// What one line says about `key`: `None` if its first word is not `key`,
/// else the second word read as a number.
pub open spec fn line_field(line: Seq<char>, key: Seq<char>) -> Option<Option<u64>> {
    let w = split_ws(line);
    if w.len() > 0 && w[0] == key {
        Some(
            if w.len() > 1 {
                parse_u64(w[1])
            } else {
                None
            },
        )
    } else {
        None
    }
}

fn line_field_span(cs: &Vec<char>, a: usize, b: usize, key: &[char]) -> (r: Option<Option<u64>>)
    requires
        a <= b <= cs@.len(),
    ensures
        r == line_field(cs@.subrange(a as int, b as int), key@),
{
    let ws = word_spans(cs, a, b);
    let ghost w = split_ws(cs@.subrange(a as int, b as int));
    assert(w == spans_view(cs@, ws@));
    if ws.len() == 0 {
        return None;
    }
    let (x, y) = ws[0];
    assert(w[0] == cs@.subrange(x as int, y as int));
    if !span_eq(cs, x, y, key) {
        return None;
    }
    if ws.len() > 1 {
        let (p, q) = ws[1];
        assert(w[1] == cs@.subrange(p as int, q as int));
        Some(parse_u64_span(cs, p, q))
    } else {
        Some(None)
    }
}

proof fn lemma_field_in_lines_step(ls: Seq<Seq<char>>, k: int, key: Seq<char>)
    requires
        0 <= k < ls.len(),
    ensures
        field_in_lines(ls.skip(k), key) == match line_field(ls[k], key) {
            Some(v) => v,
            None => field_in_lines(ls.skip(k + 1), key),
        },
{
    assert(ls.skip(k)[0] == ls[k]);
    assert(ls.skip(k).drop_first() =~= ls.skip(k + 1));
}

/// The value of `key` in a `key value` per line file.
pub fn read_field(content: &Option<String>, key: &[char]) -> (r: Option<u64>)
    ensures
        r == field_text(text_view(*content), key@),
{
    match content {
        Some(s) => {
            let cs = chars_of(s.as_str());
            let ls = line_spans(&cs);
            let ghost all = lines(cs@);
            let mut k: usize = 0;
            assert(all.skip(0) =~= all);
            while k < ls.len()
                invariant
                    k <= ls@.len(),
                    all.len() == ls@.len(),
                    spans_view(cs@, ls@) == all,
                    spans_within(ls@, 0, cs@.len() as int),
                    field_text(text_view(*content), key@) == field_in_lines(all.skip(k as int), key@),
                decreases ls@.len() - k,
            {
                let (a, b) = ls[k];
                assert(all[k as int] == cs@.subrange(a as int, b as int));
                proof {
                    lemma_field_in_lines_step(all, k as int, key@);
                }
                match line_field_span(&cs, a, b, key) {
                    Some(v) => {
                        return v;
                    },
                    None => {},
                }
                k = k + 1;
            }
            None
        },
        None => None,
    }
}

/// The usage figures a container's files give (see `cg_reading`).
pub fn read_paths(v2: bool, files: &CgFiles) -> (r: Option<(u64, u64, u64)>)
    ensures
        r == cg_reading(v2, *files),
{
    if v2 {
        let key: [char; 10] = ['u', 's', 'a', 'g', 'e', '_', 'u', 's', 'e', 'c'];
        assert(key@ =~= seq!['u', 's', 'a', 'g', 'e', '_', 'u', 's', 'e', 'c']);
        let usage = match read_field(&files.cpu, &key) {
            Some(u) => u,
            None => {
                return None;
            },
        };
        let current = match read_u64(&files.mem_current) {
            Some(v) => v,
            None => 0,
        };
        let ikey: [char; 13] = ['i', 'n', 'a', 'c', 't', 'i', 'v', 'e', '_', 'f', 'i', 'l', 'e'];
        assert(ikey@ =~= seq!['i', 'n', 'a', 'c', 't', 'i', 'v', 'e', '_', 'f', 'i', 'l', 'e']);
        let inactive = match read_field(&files.mem_stat, &ikey) {
            Some(v) => v,
            None => 0,
        };
        let mem = current.saturating_sub(inactive);
        let limit = read_max(&files.mem_limit);
        Some((usage, mem, limit))
    } else {
        let ns = match read_u64(&files.cpu) {
            Some(u) => u,
            None => {
                return None;
            },
        };
        let current = match read_u64(&files.mem_current) {
            Some(v) => v,
            None => 0,
        };
        let ikey: [char; 19] = [
            't',
            'o',
            't',
            'a',
            'l',
            '_',
            'i',
            'n',
            'a',
            'c',
            't',
            'i',
            'v',
            'e',
            '_',
            'f',
            'i',
            'l',
            'e',
        ];
        assert(ikey@ =~= seq![
            't', 'o', 't', 'a', 'l', '_', 'i', 'n', 'a', 'c', 't', 'i', 'v', 'e', '_', 'f', 'i',
            'l', 'e'
        ]);
        let inactive = match read_field(&files.mem_stat, &ikey) {
            Some(v) => v,
            None => 0,
        };
        let mem = current.saturating_sub(inactive);
        let raw = match read_u64(&files.mem_limit) {
            Some(v) => v,
            None => 0,
        };
        let limit = if raw >= V1_UNLIMITED {
            0
        } else {
            raw
        };
        Some((ns / 1000, mem, limit))
    }
}

// ---------------------------------------------------------------- locating the cgroup

/// Where a container's v2 cgroup may be, in the order they are tried.
pub open spec fn v2_dirs(id: Seq<char>) -> Seq<Seq<char>> {
    seq![
        "/sys/fs/cgroup/system.slice/docker-"@ + id + ".scope"@,
        "/sys/fs/cgroup/docker/"@ + id,
        "/sys/fs/cgroup/system.slice/docker-"@ + id + ".scope/init.scope"@,
    ]
}

/// Where a container's v1 `cpuacct` cgroup may be.
pub open spec fn v1_cpu_dirs(id: Seq<char>) -> Seq<Seq<char>> {
    seq![
        "/sys/fs/cgroup/cpu,cpuacct/docker/"@ + id,
        "/sys/fs/cgroup/cpuacct/docker/"@ + id,
        "/sys/fs/cgroup/cpu,cpuacct/system.slice/docker-"@ + id + ".scope"@,
    ]
}

/// Where a container's v1 `memory` cgroup may be.
pub open spec fn v1_mem_dirs(id: Seq<char>) -> Seq<Seq<char>> {
    seq![
        "/sys/fs/cgroup/memory/docker/"@ + id,
        "/sys/fs/cgroup/memory/system.slice/docker-"@ + id + ".scope"@,
    ]
}

/// Where a container's cgroup is looked for, path by path: the v2 places
/// (systemd driver, cgroupfs driver, systemd driver's init scope), the v1
/// `cpuacct` places (cgroupfs driver in both hierarchy names, then systemd
/// driver) and the v1 `memory` places (cgroupfs driver, then systemd driver),
/// each in the order they are tried.
pub proof fn law_cgroup_locations(id: Seq<char>)
    ensures
        v2_dirs(id).len() == 3,
        v2_dirs(id)[0] == "/sys/fs/cgroup/system.slice/docker-"@ + id + ".scope"@,
        v2_dirs(id)[1] == "/sys/fs/cgroup/docker/"@ + id,
        v2_dirs(id)[2] == "/sys/fs/cgroup/system.slice/docker-"@ + id + ".scope/init.scope"@,
        v1_cpu_dirs(id).len() == 3,
        v1_cpu_dirs(id)[0] == "/sys/fs/cgroup/cpu,cpuacct/docker/"@ + id,
        v1_cpu_dirs(id)[1] == "/sys/fs/cgroup/cpuacct/docker/"@ + id,
        v1_cpu_dirs(id)[2] == "/sys/fs/cgroup/cpu,cpuacct/system.slice/docker-"@ + id + ".scope"@,
        v1_mem_dirs(id).len() == 2,
        v1_mem_dirs(id)[0] == "/sys/fs/cgroup/memory/docker/"@ + id,
        v1_mem_dirs(id)[1] == "/sys/fs/cgroup/memory/system.slice/docker-"@ + id + ".scope"@,
{
}

/// The v1 places pair up by driver: the `memory` directory of each driver is
/// the `cpu,cpuacct` one with the hierarchy's name changed, the container's
/// part of the path (`/docker/<id>` or `/system.slice/docker-<id>.scope`)
/// being the same.
pub proof fn law_v1_places_pair_up(id: Seq<char>)
    ensures
        v1_cpu_dirs(id)[0] == "/sys/fs/cgroup/cpu,cpuacct"@ + ("/docker/"@ + id),
        v1_mem_dirs(id)[0] == "/sys/fs/cgroup/memory"@ + ("/docker/"@ + id),
        v1_cpu_dirs(id)[2] == "/sys/fs/cgroup/cpu,cpuacct"@ + ("/system.slice/docker-"@ + id + ".scope"@),
        v1_mem_dirs(id)[1] == "/sys/fs/cgroup/memory"@ + ("/system.slice/docker-"@ + id + ".scope"@),
{
    reveal_strlit("/sys/fs/cgroup/cpu,cpuacct");
    reveal_strlit("/sys/fs/cgroup/memory");
    reveal_strlit("/docker/");
    reveal_strlit("/system.slice/docker-");
    reveal_strlit("/sys/fs/cgroup/cpu,cpuacct/docker/");
    reveal_strlit("/sys/fs/cgroup/memory/docker/");
    reveal_strlit("/sys/fs/cgroup/cpu,cpuacct/system.slice/docker-");
    reveal_strlit("/sys/fs/cgroup/memory/system.slice/docker-");
    assert(v1_cpu_dirs(id)[0] =~= "/sys/fs/cgroup/cpu,cpuacct"@ + ("/docker/"@ + id));
    assert(v1_mem_dirs(id)[0] =~= "/sys/fs/cgroup/memory"@ + ("/docker/"@ + id));
    assert(v1_cpu_dirs(id)[2] =~= "/sys/fs/cgroup/cpu,cpuacct"@ + ("/system.slice/docker-"@ + id + ".scope"@));
    assert(v1_mem_dirs(id)[1] =~= "/sys/fs/cgroup/memory"@ + ("/system.slice/docker-"@ + id + ".scope"@));
}

fn join3(a: &str, b: &str, c: &str) -> (r: String)
    ensures
        r@ == a@ + b@ + c@,
{
    let mut s = String::from_str(a);
    s.append(b);
    s.append(c);
    s
}

/// The candidate v2 cgroup directories of container `id` (each holds `cpu.stat` when it is the one).
pub fn v2_candidates(id: &str) -> (r: Vec<String>)
    ensures
        r@.map_values(|s: String| s@) == v2_dirs(id@),
{
    let mut v: Vec<String> = Vec::new();
    v.push(join3("/sys/fs/cgroup/system.slice/docker-", id, ".scope"));
    v.push(join3("/sys/fs/cgroup/docker/", id, ""));
    v.push(join3("/sys/fs/cgroup/system.slice/docker-", id, ".scope/init.scope"));
    proof {
        reveal_strlit("");
        assert(""@ =~= Seq::<char>::empty());
        assert("/sys/fs/cgroup/docker/"@ + id@ + ""@ =~= "/sys/fs/cgroup/docker/"@ + id@);
    }
    assert(v@.map_values(|s: String| s@) =~= v2_dirs(id@));
    v
}

/// The candidate v1 `cpuacct` directories (each holds `cpuacct.usage` when it is the one).
pub fn v1_cpu_candidates(id: &str) -> (r: Vec<String>)
    ensures
        r@.map_values(|s: String| s@) == v1_cpu_dirs(id@),
{
    let mut v: Vec<String> = Vec::new();
    v.push(join3("/sys/fs/cgroup/cpu,cpuacct/docker/", id, ""));
    v.push(join3("/sys/fs/cgroup/cpuacct/docker/", id, ""));
    v.push(join3("/sys/fs/cgroup/cpu,cpuacct/system.slice/docker-", id, ".scope"));
    proof {
        reveal_strlit("");
        assert(""@ =~= Seq::<char>::empty());
        assert("/sys/fs/cgroup/cpu,cpuacct/docker/"@ + id@ + ""@ =~= "/sys/fs/cgroup/cpu,cpuacct/docker/"@ + id@);
        assert("/sys/fs/cgroup/cpuacct/docker/"@ + id@ + ""@ =~= "/sys/fs/cgroup/cpuacct/docker/"@ + id@);
    }
    assert(v@.map_values(|s: String| s@) =~= v1_cpu_dirs(id@));
    v
}

/// The candidate v1 `memory` directories (each holds `memory.usage_in_bytes` when it is the one).
pub fn v1_mem_candidates(id: &str) -> (r: Vec<String>)
    ensures
        r@.map_values(|s: String| s@) == v1_mem_dirs(id@),
{
    let mut v: Vec<String> = Vec::new();
    v.push(join3("/sys/fs/cgroup/memory/docker/", id, ""));
    v.push(join3("/sys/fs/cgroup/memory/system.slice/docker-", id, ".scope"));
    proof {
        reveal_strlit("");
        assert(""@ =~= Seq::<char>::empty());
        assert("/sys/fs/cgroup/memory/docker/"@ + id@ + ""@ =~= "/sys/fs/cgroup/memory/docker/"@ + id@);
    }
    assert(v@.map_values(|s: String| s@) =~= v1_mem_dirs(id@));
    v
}

/// The first candidate that is present.
pub open spec fn first_present(c: Seq<Seq<char>>, present: Seq<bool>) -> Option<Seq<char>>
    decreases c.len(),
{
    if c.len() == 0 || present.len() == 0 {
        None
    } else if present[0] {
        Some(c[0])
    } else {
        first_present(c.drop_first(), present.drop_first())
    }
}

fn pick_first(c: &Vec<String>, present: &Vec<bool>) -> (r: Option<String>)
    ensures
        match r {
            Some(s) => first_present(c@.map_values(|s: String| s@), present@) == Some(s@),
            None => first_present(c@.map_values(|s: String| s@), present@).is_none(),
        },
{
    let ghost cv = c@.map_values(|s: String| s@);
    let mut i: usize = 0;
    assert(cv.skip(0) =~= cv);
    assert(present@.skip(0) =~= present@);
    while i < c.len() && i < present.len()
        invariant
            i <= c@.len(),
            i <= present@.len(),
            cv == c@.map_values(|s: String| s@),
            first_present(cv, present@) == first_present(cv.skip(i as int), present@.skip(i as int)),
        decreases c@.len() - i,
    {
        assert(cv.skip(i as int)[0] == c@[i as int]@);
        assert(present@.skip(i as int)[0] == present@[i as int]);
        if present[i] {
            return Some(c[i].clone());
        }
        assert(cv.skip(i as int).drop_first() =~= cv.skip(i + 1));
        assert(present@.skip(i as int).drop_first() =~= present@.skip(i + 1));
        i = i + 1;
    }
    None
}

/// The v2 cgroup of container `id`, given which candidate directories
/// (`v2_candidates`) hold `cpu.stat`.
pub fn resolve_v2(id: &str, present: &Vec<bool>) -> (r: Option<CgPaths>)
    ensures
        match r {
            Some(CgPaths::V2 { base }) => first_present(v2_dirs(id@), present@) == Some(base@),
            Some(CgPaths::V1 { .. }) => false,
            None => first_present(v2_dirs(id@), present@).is_none(),
        },
{
    let c = v2_candidates(id);
    match pick_first(&c, present) {
        Some(base) => Some(CgPaths::V2 { base }),
        None => None,
    }
}

/// The v1 cgroups of container `id`, given which `cpuacct` candidates hold
/// `cpuacct.usage` and which `memory` candidates hold `memory.usage_in_bytes`;
/// both must be found.
pub fn resolve_v1(id: &str, cpu_present: &Vec<bool>, mem_present: &Vec<bool>) -> (r: Option<CgPaths>)
    ensures
        match r {
            Some(CgPaths::V1 { cpu, mem }) => first_present(v1_cpu_dirs(id@), cpu_present@) == Some(
                cpu@,
            ) && first_present(v1_mem_dirs(id@), mem_present@) == Some(mem@),
            Some(CgPaths::V2 { .. }) => false,
            None => first_present(v1_cpu_dirs(id@), cpu_present@).is_none() || first_present(
                v1_mem_dirs(id@),
                mem_present@,
            ).is_none(),
        },
{
    let c = v1_cpu_candidates(id);
    let cpu = match pick_first(&c, cpu_present) {
        Some(p) => p,
        None => {
            return None;
        },
    };
    let m = v1_mem_candidates(id);
    let mem = match pick_first(&m, mem_present) {
        Some(p) => p,
        None => {
            return None;
        },
    };
    Some(CgPaths::V1 { cpu, mem })
}

// ---------------------------------------------------------------- sampling

/// One container's stat from its reading, its previous counter and the time.
pub open spec fn cg_stat(
    prev: Option<(u64, u64)>,
    id: Seq<char>,
    reading: (u64, u64, u64),
    now: u64,
    host_mem_total: u64,
) -> ContainerStatView {
    let (usage, mem, limit) = reading;
    ContainerStatView {
        id: id,
        cpu: match prev {
            Some((pu, pt)) => CpuShare { busy: sat_sub(usage, pu), total: sat_sub(now, pt), cpus: 1 },
            None => CpuShare { busy: 0, total: 0, cpus: 1 },
        },
        mem_bytes: mem,
        mem_limit: if limit == 0 {
            host_mem_total
        } else {
            limit
        },
    }
}

/// The counters kept for `id`, if any.
pub open spec fn prev_of(m: Map<Seq<char>, (u64, u64)>, id: Seq<char>) -> Option<(u64, u64)> {
    if m.dom().contains(id) {
        Some(m[id])
    } else {
        None
    }
}

/// Running the containers `ids` in order, with their readings, over the
/// previous counters `prev`: the counters afterwards, and the stats of the
/// containers that had a reading.
pub open spec fn cg_run(
    prev: Map<Seq<char>, (u64, u64)>,
    ids: Seq<Seq<char>>,
    readings: Seq<Option<(u64, u64, u64)>>,
    now: u64,
    host_mem_total: u64,
) -> (Map<Seq<char>, (u64, u64)>, Seq<ContainerStatView>)
    decreases ids.len(),
{
    if ids.len() == 0 || readings.len() < ids.len() {
        (prev, seq![])
    } else {
        let (p, out) = cg_run(prev, ids.drop_last(), readings, now, host_mem_total);
        let id = ids.last();
        match readings[ids.len() - 1] {
            Some(rd) => {
                (
                    p.insert(id, (rd.0, now)),
                    out.push(cg_stat(prev_of(p, id), id, rd, now, host_mem_total)),
                )
            },
            None => (p, out),
        }
    }
}

/// The stats of the containers `ids` that have a reading, in order, each
/// figured from the counters held for it in `prev`.
pub open spec fn cg_each(
    prev: Map<Seq<char>, (u64, u64)>,
    ids: Seq<Seq<char>>,
    readings: Seq<Option<(u64, u64, u64)>>,
    now: u64,
    host_mem_total: u64,
) -> Seq<ContainerStatView>
    decreases ids.len(),
{
    if ids.len() == 0 || readings.len() < ids.len() {
        seq![]
    } else {
        let out = cg_each(prev, ids.drop_last(), readings, now, host_mem_total);
        match readings[ids.len() - 1] {
            Some(rd) => out.push(cg_stat(prev_of(prev, ids.last()), ids.last(), rd, now, host_mem_total)),
            None => out,
        }
    }
}

/// What a run over distinct containers does, container by container: the
/// stats are those of the containers with a reading, in order, each figured
/// from the counters held for it before the run (not from anything earlier
/// in the same run); afterwards a container with a reading holds that
/// reading's counter and the time, and every other container keeps what it
/// held.
pub proof fn law_cg_run_pointwise(
    prev: Map<Seq<char>, (u64, u64)>,
    ids: Seq<Seq<char>>,
    readings: Seq<Option<(u64, u64, u64)>>,
    now: u64,
    host_mem_total: u64,
)
    requires
        ids.no_duplicates(),
        readings.len() >= ids.len(),
    ensures
        ({
            let (after, out) = cg_run(prev, ids, readings, now, host_mem_total);
            &&& view_ids(out) == kept_ids(ids, readings)
            &&& out == cg_each(prev, ids, readings, now, host_mem_total)
            &&& forall|i: int|
                0 <= i < ids.len() ==> prev_of(after, #[trigger] ids[i]) == match readings[i] {
                    Some(rd) => Some((rd.0, now)),
                    None => prev_of(prev, ids[i]),
                }
            &&& forall|x: Seq<char>| !ids.contains(x) ==> #[trigger] prev_of(after, x) == prev_of(prev, x)
        }),
    decreases ids.len(),
{
    if ids.len() > 0 {
        let pre = ids.drop_last();
        assert(pre.no_duplicates()) by {
            assert forall|i: int, j: int| 0 <= i < pre.len() && 0 <= j < pre.len() && i != j implies pre[i]
                != pre[j] by {
                assert(pre[i] == ids[i] && pre[j] == ids[j]);
            }
        }
        law_cg_run_pointwise(prev, pre, readings, now, host_mem_total);
        let (p, o) = cg_run(prev, pre, readings, now, host_mem_total);
        let (after, out) = cg_run(prev, ids, readings, now, host_mem_total);
        let id = ids.last();
        assert(!pre.contains(id)) by {
            if pre.contains(id) {
                let a = choose|a: int| 0 <= a < pre.len() && pre[a] == id;
                assert(ids[a] == ids[ids.len() - 1]);
            }
        }
        assert(prev_of(p, id) == prev_of(prev, id));
        assert forall|i: int| 0 <= i < ids.len() implies prev_of(after, #[trigger] ids[i]) == match readings[i] {
            Some(rd) => Some((rd.0, now)),
            None => prev_of(prev, ids[i]),
        } by {
            if i < pre.len() {
                assert(ids[i] == pre[i]);
                assert(ids[i] != id);
                assert(prev_of(p, pre[i]) == match readings[i] {
                    Some(rd) => Some((rd.0, now)),
                    None => prev_of(prev, pre[i]),
                });
            }
        }
        assert forall|x: Seq<char>| !ids.contains(x) implies #[trigger] prev_of(after, x) == prev_of(prev, x) by {
            assert(x != id);
            if pre.contains(x) {
                let a = choose|a: int| 0 <= a < pre.len() && pre[a] == x;
                assert(ids[a] == x);
            }
            assert(prev_of(p, x) == prev_of(prev, x));
            match readings[ids.len() - 1] {
                Some(rd) => {
                    assert(after == p.insert(id, (rd.0, now)));
                },
                None => {
                    assert(after == p);
                },
            }
        }
        assert(view_ids(out) =~= kept_ids(ids, readings));
    } else {
        assert(view_ids(seq![]) =~= Seq::<Seq<char>>::empty());
    }
}

/// In the stats of a run over distinct containers, the entry of a container
/// with a reading is figured from that reading and the counters held for it.
pub proof fn lemma_cg_each_entry(
    prev: Map<Seq<char>, (u64, u64)>,
    ids: Seq<Seq<char>>,
    readings: Seq<Option<(u64, u64, u64)>>,
    now: u64,
    host_mem_total: u64,
    i: int,
)
    requires
        ids.no_duplicates(),
        readings.len() >= ids.len(),
        0 <= i < ids.len(),
        readings[i] is Some,
    ensures
        forall|k: int|
            0 <= k < cg_each(prev, ids, readings, now, host_mem_total).len() && (#[trigger] cg_each(
                prev,
                ids,
                readings,
                now,
                host_mem_total,
            )[k]).id == ids[i] ==> cg_each(prev, ids, readings, now, host_mem_total)[k] == cg_stat(
                prev_of(prev, ids[i]),
                ids[i],
                readings[i]->0,
                now,
                host_mem_total,
            ),
    decreases ids.len(),
{
    let pre = ids.drop_last();
    let o = cg_each(prev, pre, readings, now, host_mem_total);
    let out = cg_each(prev, ids, readings, now, host_mem_total);
    lemma_cg_each_ids(prev, pre, readings, now, host_mem_total);
    assert(pre.no_duplicates()) by {
        assert forall|a: int, b: int| 0 <= a < pre.len() && 0 <= b < pre.len() && a != b implies pre[a]
            != pre[b] by {
            assert(pre[a] == ids[a] && pre[b] == ids[b]);
        }
    }
    if i < pre.len() {
        lemma_cg_each_entry(prev, pre, readings, now, host_mem_total, i);
        assert(ids[i] == pre[i]);
        assert(ids[i] != ids.last());
    } else {
        assert forall|k: int| 0 <= k < o.len() implies (#[trigger] o[k]).id != ids[i] by {
            lemma_kept_ids(pre, readings);
            assert(view_ids(o)[k] == o[k].id);
            assert(pre.contains(o[k].id));
            if o[k].id == ids[i] {
                let a = choose|a: int| 0 <= a < pre.len() && pre[a] == ids[i];
                assert(ids[a] == pre[a]);
            }
        }
    }
    assert forall|k: int| 0 <= k < out.len() && (#[trigger] out[k]).id == ids[i] implies out[k] == cg_stat(
        prev_of(prev, ids[i]),
        ids[i],
        readings[i]->0,
        now,
        host_mem_total,
    ) by {
        if k < o.len() {
            assert(out[k] == o[k]);
        }
    }
}

/// The ids in a run's stats are those with a reading.
proof fn lemma_cg_each_ids(
    prev: Map<Seq<char>, (u64, u64)>,
    ids: Seq<Seq<char>>,
    readings: Seq<Option<(u64, u64, u64)>>,
    now: u64,
    host_mem_total: u64,
)
    ensures
        view_ids(cg_each(prev, ids, readings, now, host_mem_total)) == kept_ids(ids, readings),
    decreases ids.len(),
{
    if ids.len() > 0 && readings.len() >= ids.len() {
        lemma_cg_each_ids(prev, ids.drop_last(), readings, now, host_mem_total);
    }
    assert(view_ids(cg_each(prev, ids, readings, now, host_mem_total)) =~= kept_ids(ids, readings));
}

/// Container usage from cgroup files, with the previous CPU counters.
pub struct CgroupSource {
    pub v2: bool,
    pub cache: IdMap<Option<CgPaths>>,
    pub prev: IdMap<(u64, u64)>,
}

impl CgroupSource {
    pub open spec fn wf(&self) -> bool {
        self.cache.wf() && self.prev.wf()
    }

    /// A source for a host with (`v2`) or without the unified hierarchy.
    pub fn new(v2: bool) -> (r: CgroupSource)
        ensures
            r.wf(),
            r.v2 == v2,
            r.cache@ == Map::<Seq<char>, Option<CgPaths>>::empty(),
            r.prev@ == Map::<Seq<char>, (u64, u64)>::empty(),
    {
        CgroupSource { v2, cache: IdMap::new(), prev: IdMap::new() }
    }

    /// Where container `id`'s cgroup was found before (`Some(None)`: it was
    /// looked for and not found), or `None` if it was never looked for.
    pub fn cached_paths(&self, id: &str) -> (r: Option<&Option<CgPaths>>)
        requires
            self.wf(),
        ensures
            match r {
                Some(p) => self.cache@.dom().contains(id@) && *p == self.cache@[id@],
                None => !self.cache@.dom().contains(id@),
            },
    {
        self.cache.get(id)
    }

    /// Remembers where container `id`'s cgroup is (or that it is nowhere).
    pub fn resolve(&mut self, id: String, found: Option<CgPaths>)
        requires
            old(self).wf(),
        ensures
            final(self).wf(),
            final(self).v2 == old(self).v2,
            final(self).cache@ == old(self).cache@.insert(id@, found),
            final(self).prev@ == old(self).prev@,
    {
        self.cache.insert(id, found);
    }

    /// One sample of the containers `refs`; `readings[i]` is what
    /// `read_paths` gave for `refs[i]` (`None` when its files could not be
    /// read), `now_us` the time of the sample in microseconds. Containers no
    /// longer in `refs` are forgotten (counters and lookups); a container gets
    /// figures only if its cgroup lookup is cached as found and it has a
    /// reading.
    pub fn sample(
        &mut self,
        refs: &Vec<ContainerRef>,
        readings: &Vec<Option<(u64, u64, u64)>>,
        now_us: u64,
        host_mem_total: u64,
    ) -> (r: Vec<ContainerStat>)
        requires
            old(self).wf(),
            readings@.len() == refs@.len(),
        ensures
            final(self).wf(),
            final(self).v2 == old(self).v2,
            final(self).cache@ == old(self).cache@.restrict(refs_ids(refs@).to_set()),
            (final(self).prev@, stats_view(r@)) == cg_run(
                old(self).prev@.restrict(refs_ids(refs@).to_set()),
                refs_ids(refs@),
                usable(final(self).cache@, refs_ids(refs@), readings@),
                now_us,
                host_mem_total,
            ),
            view_ids(stats_view(r@)) == kept_ids(
                refs_ids(refs@),
                usable(final(self).cache@, refs_ids(refs@), readings@),
            ),
    {
        proof {
            lemma_refs_set(refs@);
        }
        let alive = ref_ids(refs);
        self.prev.retain_ids(&alive);
        self.cache.retain_ids(&alive);
        let ghost start = self.prev@;
        let ghost cache_now = self.cache@;
        let ghost use_rd = usable(cache_now, refs_ids(refs@), readings@);
        let mut out: Vec<ContainerStat> = Vec::new();
        let mut i: usize = 0;
        while i < refs.len()
            invariant
                self.wf(),
                self.v2 == old(self).v2,
                self.cache@ == cache_now,
                use_rd == usable(cache_now, refs_ids(refs@), readings@),
                i <= refs@.len() == readings@.len(),
                (self.prev@, stats_view(out@)) == cg_run(
                    start,
                    refs_ids(refs@).take(i as int),
                    use_rd,
                    now_us,
                    host_mem_total,
                ),
            decreases refs@.len() - i,
        {
            let ghost ids_next = refs_ids(refs@).take(i + 1);
            assert(ids_next.drop_last() =~= refs_ids(refs@).take(i as int));
            assert(ids_next.last() == refs@[i as int].id@);
            let id = &refs[i].id;
            let found = match self.cache.get(id.as_str()) {
                Some(Some(_)) => true,
                _ => false,
            };
            let reading = if found {
                readings[i]
            } else {
                None
            };
            assert(reading == use_rd[i as int]);
            match reading {
                Some(rd) => {
                    let (usage, mem_bytes, mem_limit) = rd;
                    let cpu = match self.prev.get(id.as_str()) {
                        Some(p) => {
                            let (pu, pt) = *p;
                            CpuShare {
                                busy: usage.saturating_sub(pu),
                                total: now_us.saturating_sub(pt),
                                cpus: 1,
                            }
                        },
                        None => CpuShare::idle(),
                    };
                    self.prev.insert(id.clone(), (usage, now_us));
                    let limit = if mem_limit == 0 {
                        host_mem_total
                    } else {
                        mem_limit
                    };
                    let ghost before = stats_view(out@);
                    out.push(ContainerStat { id: id.clone(), cpu, mem_bytes, mem_limit: limit });
                    assert(stats_view(out@) =~= before.push(stats_view(out@).last()));
                },
                None => {},
            }
            i = i + 1;
        }
        assert(refs_ids(refs@).take(refs@.len() as int) =~= refs_ids(refs@));
        proof {
            lemma_cg_run_ids(start, refs_ids(refs@), use_rd, now_us, host_mem_total);
        }
        out
    }
}

/// The readings that count: a container's reading counts only where its
/// cgroup lookup is cached as found.
pub open spec fn usable(
    cache: Map<Seq<char>, Option<CgPaths>>,
    ids: Seq<Seq<char>>,
    readings: Seq<Option<(u64, u64, u64)>>,
) -> Seq<Option<(u64, u64, u64)>> {
    Seq::new(
        readings.len(),
        |i: int|
            if 0 <= i < ids.len() && cache.dom().contains(ids[i]) && cache[ids[i]] is Some {
                readings[i]
            } else {
                None
            },
    )
}

/// A container whose cgroup was looked for and not found gets no figures
/// from the cgroup files while it keeps running: a sample keeps the failed
/// lookup of every container still in `refs` (it is looked for again only
/// after the container has been out of `refs` for a sample), and without a
/// lookup cached as found no reading of it counts.
pub proof fn law_failed_lookup_kept(
    cache: Map<Seq<char>, Option<CgPaths>>,
    refs: Seq<ContainerRef>,
    readings: Seq<Option<(u64, u64, u64)>>,
    i: int,
)
    requires
        0 <= i < refs.len(),
        cache.dom().contains(refs[i].id@),
        cache[refs[i].id@] is None,
    ensures
        ({
            let after = cache.restrict(refs_ids(refs).to_set());
            &&& after.dom().contains(refs[i].id@)
            &&& after[refs[i].id@] is None
            &&& !kept_ids(refs_ids(refs), usable(after, refs_ids(refs), readings)).contains(refs[i].id@)
        }),
{
    let ids = refs_ids(refs);
    let after = cache.restrict(ids.to_set());
    let x = refs[i].id@;
    assert(ids[i] == x);
    assert(ids.to_set().contains(x));
    let got = usable(after, ids, readings);
    if kept_ids(ids, got).contains(x) {
        let k = choose|k: int| 0 <= k < kept_ids(ids, got).len() && kept_ids(ids, got)[k] == x;
        let j = lemma_kept_id_from(ids, got, k);
        assert(got[j] is None);
    }
}

/// Two samples in turn, the second starting from the counters the first
/// left (restricted to the second's containers): a container with a counted
/// reading in both gets, in the second, the CPU time it used between the two
/// readings over the time between them, on one processor's scale.
pub proof fn law_cg_successive_samples(
    prev0: Map<Seq<char>, (u64, u64)>,
    ids1: Seq<Seq<char>>,
    rd1: Seq<Option<(u64, u64, u64)>>,
    now1: u64,
    ids2: Seq<Seq<char>>,
    rd2: Seq<Option<(u64, u64, u64)>>,
    now2: u64,
    host_mem_total: u64,
    i1: int,
    i2: int,
)
    requires
        ids1.no_duplicates(),
        ids2.no_duplicates(),
        rd1.len() >= ids1.len(),
        rd2.len() >= ids2.len(),
        0 <= i1 < ids1.len(),
        0 <= i2 < ids2.len(),
        ids1[i1] == ids2[i2],
        rd1[i1] is Some,
        rd2[i2] is Some,
    ensures
        ({
            let mid = cg_run(prev0, ids1, rd1, now1, host_mem_total).0;
            let out = cg_run(mid.restrict(ids2.to_set()), ids2, rd2, now2, host_mem_total).1;
            forall|k: int|
                0 <= k < out.len() && (#[trigger] out[k]).id == ids2[i2] ==> out[k].cpu == CpuShare {
                    busy: sat_sub((rd2[i2]->0).0, (rd1[i1]->0).0),
                    total: sat_sub(now2, now1),
                    cpus: 1,
                }
        }),
{
    law_cg_run_pointwise(prev0, ids1, rd1, now1, host_mem_total);
    let mid = cg_run(prev0, ids1, rd1, now1, host_mem_total).0;
    let start = mid.restrict(ids2.to_set());
    let x = ids2[i2];
    assert(prev_of(mid, ids1[i1]) == Some(((rd1[i1]->0).0, now1)));
    assert(ids2.to_set().contains(x));
    assert(prev_of(start, x) == prev_of(mid, x));
    law_cg_run_pointwise(start, ids2, rd2, now2, host_mem_total);
    lemma_cg_each_entry(start, ids2, rd2, now2, host_mem_total, i2);
}

/// Memory figures need no distinct ids: the `k`-th stat of a run comes from
/// a position `i` (returned) with a reading, with that reading's memory in
/// use and its limit, or the host's memory where the limit is 0.
pub proof fn law_cg_run_memory(
    prev: Map<Seq<char>, (u64, u64)>,
    ids: Seq<Seq<char>>,
    readings: Seq<Option<(u64, u64, u64)>>,
    now: u64,
    host_mem_total: u64,
    k: int,
) -> (i: int)
    requires
        0 <= k < cg_run(prev, ids, readings, now, host_mem_total).1.len(),
    ensures
        0 <= i < ids.len(),
        readings[i] is Some,
        cg_run(prev, ids, readings, now, host_mem_total).1[k].id == ids[i],
        cg_run(prev, ids, readings, now, host_mem_total).1[k].mem_bytes == (readings[i]->0).1,
        cg_run(prev, ids, readings, now, host_mem_total).1[k].mem_limit == if (readings[i]->0).2 == 0 {
            host_mem_total
        } else {
            (readings[i]->0).2
        },
    decreases ids.len(),
{
    let pre = ids.drop_last();
    let o = cg_run(prev, pre, readings, now, host_mem_total).1;
    if k < o.len() {
        let i = law_cg_run_memory(prev, pre, readings, now, host_mem_total, k);
        assert(ids[i] == pre[i]);
        i
    } else {
        (ids.len() - 1) as int
    }
}

/// Whether each call of a history names distinct containers and has a
/// reading slot for each.
pub open spec fn cg_calls_wf(calls: Seq<(Seq<Seq<char>>, Seq<Option<(u64, u64, u64)>>, u64)>) -> bool {
    forall|c: int|
        0 <= c < calls.len() ==> (#[trigger] calls[c]).0.no_duplicates() && calls[c].1.len()
            >= calls[c].0.len()
}

/// The counters held after a history of samples `calls` (each the
/// containers of that call, the readings that counted and the time),
/// starting from `prev0`: each call first forgets the containers it does not
/// name, as `sample` does.
pub open spec fn cg_history(
    prev0: Map<Seq<char>, (u64, u64)>,
    calls: Seq<(Seq<Seq<char>>, Seq<Option<(u64, u64, u64)>>, u64)>,
    host_mem_total: u64,
) -> Map<Seq<char>, (u64, u64)>
    decreases calls.len(),
{
    if calls.len() == 0 {
        prev0
    } else {
        let (ids, readings, now) = calls.last();
        cg_run(
            cg_history(prev0, calls.drop_last(), host_mem_total).restrict(ids.to_set()),
            ids,
            readings,
            now,
            host_mem_total,
        ).0
    }
}

/// The counter and time held for container `x` after the history `calls`:
/// those of the latest call that read it, provided every call since named it;
/// none if some call since left it out; what `prev0` held if every call named
/// it and none read it.
pub open spec fn cg_held(
    prev0: Map<Seq<char>, (u64, u64)>,
    calls: Seq<(Seq<Seq<char>>, Seq<Option<(u64, u64, u64)>>, u64)>,
    x: Seq<char>,
) -> Option<(u64, u64)>
    decreases calls.len(),
{
    if calls.len() == 0 {
        prev_of(prev0, x)
    } else {
        let (ids, readings, now) = calls.last();
        if !ids.contains(x) {
            None
        } else {
            let i = choose|i: int| 0 <= i < ids.len() && ids[i] == x;
            match readings[i] {
                Some(rd) => Some((rd.0, now)),
                None => cg_held(prev0, calls.drop_last(), x),
            }
        }
    }
}

/// What the cgroup source holds for a container after any history of
/// samples is what `cg_held` says: the counter and time of the latest call
/// that read it, as long as it stayed among the containers of every call
/// since.
pub proof fn law_cg_history_held(
    prev0: Map<Seq<char>, (u64, u64)>,
    calls: Seq<(Seq<Seq<char>>, Seq<Option<(u64, u64, u64)>>, u64)>,
    host_mem_total: u64,
    x: Seq<char>,
)
    requires
        cg_calls_wf(calls),
    ensures
        prev_of(cg_history(prev0, calls, host_mem_total), x) == cg_held(prev0, calls, x),
    decreases calls.len(),
{
    if calls.len() > 0 {
        let pre = calls.drop_last();
        assert(cg_calls_wf(pre)) by {
            assert forall|c: int| 0 <= c < pre.len() implies (#[trigger] pre[c]).0.no_duplicates()
                && pre[c].1.len() >= pre[c].0.len() by {
                assert(pre[c] == calls[c]);
            }
        }
        law_cg_history_held(prev0, pre, host_mem_total, x);
        let (ids, readings, now) = calls.last();
        assert(calls[calls.len() - 1] == calls.last());
        let start = cg_history(prev0, pre, host_mem_total).restrict(ids.to_set());
        law_cg_run_pointwise(start, ids, readings, now, host_mem_total);
        if ids.contains(x) {
            let i = choose|i: int| 0 <= i < ids.len() && ids[i] == x;
            assert(ids.to_set().contains(x));
            assert(prev_of(start, ids[i]) == prev_of(cg_history(prev0, pre, host_mem_total), x));
        } else {
            assert(!ids.to_set().contains(x));
            assert(prev_of(start, x) == None::<(u64, u64)>);
        }
    }
}

/// The CPU figure over any history: a sample at `now` that follows the
/// history `calls` gives a container with a counted reading the CPU time it
/// used since the latest earlier call that read it, over the microseconds
/// since that call (one processor's scale), provided it was among the
/// containers of every call since; otherwise it gets no usage (as on its
/// first sample). Its memory figures are those of this reading.
pub proof fn law_cg_history_entry(
    prev0: Map<Seq<char>, (u64, u64)>,
    calls: Seq<(Seq<Seq<char>>, Seq<Option<(u64, u64, u64)>>, u64)>,
    ids: Seq<Seq<char>>,
    readings: Seq<Option<(u64, u64, u64)>>,
    now: u64,
    host_mem_total: u64,
    i: int,
)
    requires
        cg_calls_wf(calls),
        ids.no_duplicates(),
        readings.len() >= ids.len(),
        0 <= i < ids.len(),
        readings[i] is Some,
    ensures
        ({
            let start = cg_history(prev0, calls, host_mem_total).restrict(ids.to_set());
            let out = cg_run(start, ids, readings, now, host_mem_total).1;
            forall|k: int|
                0 <= k < out.len() && (#[trigger] out[k]).id == ids[i] ==> out[k] == cg_stat(
                    cg_held(prev0, calls, ids[i]),
                    ids[i],
                    readings[i]->0,
                    now,
                    host_mem_total,
                )
        }),
{
    let start = cg_history(prev0, calls, host_mem_total).restrict(ids.to_set());
    law_cg_history_held(prev0, calls, host_mem_total, ids[i]);
    assert(ids.to_set().contains(ids[i]));
    assert(prev_of(start, ids[i]) == cg_held(prev0, calls, ids[i]));
    law_cg_run_pointwise(start, ids, readings, now, host_mem_total);
    lemma_cg_each_entry(start, ids, readings, now, host_mem_total, i);
}

/// The ids in a run's stats are those with a reading.
proof fn lemma_cg_run_ids(
    prev: Map<Seq<char>, (u64, u64)>,
    ids: Seq<Seq<char>>,
    readings: Seq<Option<(u64, u64, u64)>>,
    now: u64,
    host_mem_total: u64,
)
    ensures
        view_ids(cg_run(prev, ids, readings, now, host_mem_total).1) == kept_ids(ids, readings),
    decreases ids.len(),
{
    if ids.len() > 0 && readings.len() >= ids.len() {
        lemma_cg_run_ids(prev, ids.drop_last(), readings, now, host_mem_total);
    }
    assert(view_ids(cg_run(prev, ids, readings, now, host_mem_total).1) =~= kept_ids(ids, readings));
}

/// The set of the ids of `refs`, two ways.
pub proof fn lemma_refs_set(refs: Seq<ContainerRef>)
    ensures
        ids_set(refs_strings(refs)) == refs_ids(refs).to_set(),
{
    assert forall|k: Seq<char>| #[trigger] ids_set(refs_strings(refs)).contains(k) == refs_ids(
        refs,
    ).to_set().contains(k) by {
        if ids_set(refs_strings(refs)).contains(k) {
            let t = choose|t: int| 0 <= t < refs.len() && (#[trigger] refs_strings(refs)[t])@ == k;
            assert(refs_ids(refs)[t] == k);
        }
        if refs_ids(refs).contains(k) {
            let t = choose|t: int| 0 <= t < refs.len() && refs_ids(refs)[t] == k;
            assert(refs_strings(refs)[t]@ == k);
        }
    }
    assert(ids_set(refs_strings(refs)) =~= refs_ids(refs).to_set());
}

/// The ids of `refs` as strings.
pub open spec fn refs_strings(v: Seq<ContainerRef>) -> Seq<String> {
    v.map_values(|r: ContainerRef| r.id)
}

/// The ids of `refs`.
pub fn ref_ids(refs: &Vec<ContainerRef>) -> (r: Vec<String>)
    ensures
        r@.map_values(|s: String| s@) == refs_ids(refs@),
        ids_set(r@) == ids_set(refs_strings(refs@)),
{
    let mut out: Vec<String> = Vec::new();
    let mut i: usize = 0;
    while i < refs.len()
        invariant
            i <= refs@.len(),
            out@.len() == i,
            forall|k: int| 0 <= k < i ==> (#[trigger] out@[k])@ == refs@[k].id@,
        decreases refs@.len() - i,
    {
        out.push(refs[i].id.clone());
        i = i + 1;
    }
    assert(out@.map_values(|s: String| s@) =~= refs_ids(refs@));
    assert forall|k: Seq<char>| #[trigger] ids_set(out@).contains(k) == ids_set(refs_strings(refs@)).contains(k) by {
        if ids_set(out@).contains(k) {
            let t = choose|t: int| 0 <= t < out@.len() && (#[trigger] out@[t])@ == k;
            assert(refs_strings(refs@)[t]@ == k);
        }
        if ids_set(refs_strings(refs@)).contains(k) {
            let t = choose|t: int| 0 <= t < refs@.len() && (#[trigger] refs_strings(refs@)[t])@ == k;
            assert(out@[t]@ == k);
        }
    }
    assert(ids_set(out@) =~= ids_set(refs_strings(refs@)));
    out
}

} // verus!
