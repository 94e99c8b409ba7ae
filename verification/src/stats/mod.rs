//! Sampling: the per-source readers and the collector's decisions.
pub mod cgroup;
pub mod dockerapi;
pub mod host;

use vstd::prelude::*;

use crate::idmap::{contains_id, ids_set, in_ids};
use crate::stats::cgroup::{cg_run, law_cg_run_pointwise, usable, CgPaths, CgroupSource};
use crate::stats::dockerapi::{api_run, law_api_run_pointwise, DockerApiSource, DockerSample};
use crate::types::{refs_ids, stats_view, ContainerRef, ContainerStat, ContainerStatView};

verus! {

/// The ids in `ids` that are not in `taken`, in order.
pub open spec fn ids_without(ids: Seq<Seq<char>>, taken: Set<Seq<char>>) -> Seq<Seq<char>>
    decreases ids.len(),
{
    if ids.len() == 0 {
        seq![]
    } else {
        let p = ids_without(ids.drop_last(), taken);
        if taken.contains(ids.last()) {
            p
        } else {
            p.push(ids.last())
        }
    }
}

/// The containers of `refs` that `stats` has no figures for, in order.
pub fn missing_refs(refs: &Vec<ContainerRef>, stats: &Vec<ContainerStat>) -> (r: Vec<ContainerRef>)
    ensures
        refs_ids(r@) == ids_without(refs_ids(refs@), view_ids(stats_view(stats@)).to_set()),
{
    let ghost taken = view_ids(stats_view(stats@)).to_set();
    let mut have: Vec<String> = Vec::new();
    let mut k: usize = 0;
    while k < stats.len()
        invariant
            k <= stats@.len(),
            have@.len() == k,
            forall|t: int| 0 <= t < k ==> (#[trigger] have@[t])@ == stats@[t].id@,
        decreases stats@.len() - k,
    {
        have.push(stats[k].id.clone());
        k = k + 1;
    }
    assert forall|x: Seq<char>| #[trigger] ids_set(have@).contains(x) == taken.contains(x) by {
        if in_ids(have@, x) {
            let t = choose|t: int| 0 <= t < have@.len() && (#[trigger] have@[t])@ == x;
            assert(view_ids(stats_view(stats@))[t] == x);
        }
        if taken.contains(x) {
            let t = choose|t: int| 0 <= t < stats@.len() && view_ids(stats_view(stats@))[t] == x;
            assert(have@[t]@ == x);
        }
    }
    assert(ids_set(have@) =~= taken);
    let mut out: Vec<ContainerRef> = Vec::new();
    let mut i: usize = 0;
    while i < refs.len()
        invariant
            i <= refs@.len(),
            ids_set(have@) == taken,
            refs_ids(out@) == ids_without(refs_ids(refs@).take(i as int), taken),
        decreases refs@.len() - i,
    {
        let ghost next = refs_ids(refs@).take(i + 1);
        assert(next.drop_last() =~= refs_ids(refs@).take(i as int));
        assert(next.last() == refs@[i as int].id@);
        if !contains_id(&have, refs[i].id.as_str()) {
            let ghost before = refs_ids(out@);
            out.push(refs[i].duplicate());
            assert(refs_ids(out@) =~= before.push(refs@[i as int].id@));
        }
        i = i + 1;
    }
    assert(refs_ids(refs@).take(refs@.len() as int) =~= refs_ids(refs@));
    out
}

/// Where the containers' figures come from.
pub enum ContainerBackend {
    /// The cgroup files, with the Docker stats API for the containers whose
    /// cgroup is not found.
    Cgroup { cgroup: CgroupSource, fallback: DockerApiSource },
    /// The Docker stats API alone.
    Docker(DockerApiSource),
}

impl ContainerBackend {
    pub open spec fn wf(&self) -> bool {
        match self {
            ContainerBackend::Cgroup { cgroup, fallback } => cgroup.wf() && fallback.wf(),
            ContainerBackend::Docker(d) => d.wf(),
        }
    }

    /// The backend for a host: the cgroup files (read as the unified
    /// hierarchy where `v2`) unless the Docker API is forced or there is no
    /// cgroup tree; every source starts with nothing remembered.
    pub fn for_host(force_docker_stats: bool, cgroup_tree: bool, v2: bool) -> (r: ContainerBackend)
        ensures
            r.wf(),
            match r {
                ContainerBackend::Cgroup { cgroup, fallback } => {
                    &&& !force_docker_stats && cgroup_tree
                    &&& cgroup.v2 == v2
                    &&& cgroup.cache@ == Map::<Seq<char>, Option<CgPaths>>::empty()
                    &&& cgroup.prev@ == Map::<Seq<char>, (u64, u64)>::empty()
                    &&& fallback.prev@ == Map::<Seq<char>, (u64, u64)>::empty()
                },
                ContainerBackend::Docker(d) => {
                    &&& (force_docker_stats || !cgroup_tree)
                    &&& d.prev@ == Map::<Seq<char>, (u64, u64)>::empty()
                },
            },
    {
        if !force_docker_stats && cgroup_tree {
            ContainerBackend::Cgroup { cgroup: CgroupSource::new(v2), fallback: DockerApiSource::new() }
        } else {
            ContainerBackend::Docker(DockerApiSource::new())
        }
    }
}

/// Whether the host's figures come from its own counters (`/proc`): on
/// Linux where `/proc/stat` exists; otherwise from the Docker daemon.
pub fn use_proc_host(linux: bool, proc_stat_present: bool) -> (r: bool)
    ensures
        r == (linux && proc_stat_present),
{
    linux && proc_stat_present
}

/// A tick's container figures, once the cgroup reader has given `resolved`
/// and one stats call for each container it left out (`missing`, as
/// `missing_refs` gives them) has given `fetched`: `resolved` followed by
/// what the API fallback makes of `fetched`. The fallback is sampled only
/// when some container was left out.
pub fn complete_tick(
    resolved: Vec<ContainerStat>,
    missing: &Vec<ContainerRef>,
    fallback: &mut DockerApiSource,
    fetched: &Vec<Option<DockerSample>>,
    host_mem_total: u64,
    ncpu: usize,
) -> (r: Vec<ContainerStat>)
    requires
        old(fallback).wf(),
        fetched@.len() == missing@.len(),
    ensures
        final(fallback).wf(),
        missing@.len() == 0 ==> stats_view(r@) == stats_view(resolved@) && final(fallback).prev@ == old(
            fallback,
        ).prev@,
        missing@.len() > 0 ==> ({
            let (after, extra) = api_run(
                old(fallback).prev@.restrict(refs_ids(missing@).to_set()),
                refs_ids(missing@),
                fetched@,
                host_mem_total,
                ncpu,
            );
            &&& final(fallback).prev@ == after
            &&& stats_view(r@) == stats_view(resolved@) + extra
        }),
{
    if missing.len() == 0 {
        return resolved;
    }
    let mut extra = fallback.sample(missing, fetched, host_mem_total, ncpu);
    let mut out = resolved;
    let ghost a = out@;
    let ghost b = extra@;
    out.append(&mut extra);
    assert(stats_view(out@) =~= stats_view(a) + stats_view(b));
    out
}

/// Every running container is covered: its id is either among those the
/// cgroup reader resolved or among the ones handed to the API fallback, and
/// only unresolved running containers are handed over.
pub proof fn law_missing_complements(ids: Seq<Seq<char>>, taken: Set<Seq<char>>)
    ensures
        forall|i: int|
            0 <= i < ids.len() ==> taken.contains(#[trigger] ids[i]) || ids_without(
                ids,
                taken,
            ).contains(ids[i]),
        forall|k: int|
            0 <= k < ids_without(ids, taken).len() ==> ids.contains(
                #[trigger] ids_without(ids, taken)[k],
            ) && !taken.contains(ids_without(ids, taken)[k]),
    decreases ids.len(),
{
    if ids.len() > 0 {
        let p = ids.drop_last();
        law_missing_complements(p, taken);
        let w = ids_without(ids, taken);
        let wp = ids_without(p, taken);
        assert forall|i: int| 0 <= i < ids.len() implies taken.contains(#[trigger] ids[i])
            || w.contains(ids[i]) by {
            if i < ids.len() - 1 {
                assert(ids[i] == p[i]);
                if wp.contains(p[i]) {
                    let k = choose|k: int| 0 <= k < wp.len() && wp[k] == p[i];
                    assert(w[k] == wp[k]);
                }
            } else if !taken.contains(ids[i]) {
                assert(w[w.len() - 1] == ids[i]);
            }
        }
        assert forall|k: int| 0 <= k < w.len() implies ids.contains(#[trigger] w[k]) && !taken.contains(
            w[k],
        ) by {
            if k < wp.len() {
                assert(w[k] == wp[k]);
                let i = choose|i: int| 0 <= i < p.len() && p[i] == wp[k];
                assert(ids[i] == p[i]);
            } else {
                assert(w[k] == ids[ids.len() - 1]);
            }
        }
    }
}

/// The ids of `ids` whose entry in `got` is present, in order.
pub open spec fn kept_ids<T>(ids: Seq<Seq<char>>, got: Seq<Option<T>>) -> Seq<Seq<char>>
    decreases ids.len(),
{
    if ids.len() == 0 || got.len() < ids.len() {
        seq![]
    } else {
        let p = kept_ids(ids.drop_last(), got);
        if got[ids.len() - 1] is Some {
            p.push(ids.last())
        } else {
            p
        }
    }
}

/// The ids of a sequence of stats.
pub open spec fn view_ids(v: Seq<ContainerStatView>) -> Seq<Seq<char>> {
    v.map_values(|s: ContainerStatView| s.id)
}

/// The ids kept are among `ids`, no more of them, and distinct where `ids` are.
pub proof fn lemma_kept_ids<T>(ids: Seq<Seq<char>>, got: Seq<Option<T>>)
    ensures
        kept_ids(ids, got).len() <= ids.len(),
        forall|k: int|
            0 <= k < kept_ids(ids, got).len() ==> ids.contains(#[trigger] kept_ids(ids, got)[k]),
        ids.no_duplicates() ==> kept_ids(ids, got).no_duplicates(),
    decreases ids.len(),
{
    if ids.len() > 0 && got.len() >= ids.len() {
        let pre = ids.drop_last();
        lemma_kept_ids(pre, got);
        let p = kept_ids(pre, got);
        let w = kept_ids(ids, got);
        assert forall|k: int| 0 <= k < w.len() implies ids.contains(#[trigger] w[k]) by {
            if k < p.len() {
                assert(w[k] == p[k]);
                let i = choose|i: int| 0 <= i < pre.len() && pre[i] == p[k];
                assert(ids[i] == pre[i]);
            } else {
                assert(w[k] == ids[ids.len() - 1]);
            }
        }
        if ids.no_duplicates() {
            assert(pre.no_duplicates()) by {
                assert forall|i: int, j: int| 0 <= i < pre.len() && 0 <= j < pre.len() && i != j implies pre[i]
                    != pre[j] by {
                    assert(pre[i] == ids[i] && pre[j] == ids[j]);
                }
            }
            assert forall|i: int, j: int| 0 <= i < w.len() && 0 <= j < w.len() && i != j implies w[i]
                != w[j] by {
                if i < p.len() && j < p.len() {
                    assert(w[i] == p[i] && w[j] == p[j]);
                } else if i < p.len() {
                    assert(w[j] == ids.last());
                    let a = choose|a: int| 0 <= a < pre.len() && pre[a] == p[i];
                    assert(ids[a] == pre[a]);
                    assert(w[i] == p[i]);
                } else if j < p.len() {
                    assert(w[i] == ids.last());
                    let a = choose|a: int| 0 <= a < pre.len() && pre[a] == p[j];
                    assert(ids[a] == pre[a]);
                    assert(w[j] == p[j]);
                }
            }
        }
    }
}

/// The `k`-th id kept comes from a position of `ids` whose entry in `got`
/// is present; the position is returned.
pub proof fn lemma_kept_id_from<T>(ids: Seq<Seq<char>>, got: Seq<Option<T>>, k: int) -> (j: int)
    requires
        0 <= k < kept_ids(ids, got).len(),
    ensures
        0 <= j < ids.len(),
        ids[j] == kept_ids(ids, got)[k],
        got[j] is Some,
    decreases ids.len(),
{
    let pre = ids.drop_last();
    let p = kept_ids(pre, got);
    if k < p.len() {
        let j = lemma_kept_id_from(pre, got, k);
        assert(ids[j] == pre[j]);
        j
    } else {
        (ids.len() - 1) as int
    }
}

/// Distinct ids stay distinct when some are left out.
pub proof fn lemma_ids_without_distinct(ids: Seq<Seq<char>>, taken: Set<Seq<char>>)
    requires
        ids.no_duplicates(),
    ensures
        ids_without(ids, taken).no_duplicates(),
    decreases ids.len(),
{
    if ids.len() > 0 {
        let pre = ids.drop_last();
        assert(pre.no_duplicates()) by {
            assert forall|i: int, j: int| 0 <= i < pre.len() && 0 <= j < pre.len() && i != j implies pre[i]
                != pre[j] by {
                assert(pre[i] == ids[i] && pre[j] == ids[j]);
            }
        }
        lemma_ids_without_distinct(pre, taken);
        law_missing_complements(pre, taken);
        let p = ids_without(pre, taken);
        let w = ids_without(ids, taken);
        if !taken.contains(ids.last()) {
            assert forall|i: int, j: int| 0 <= i < w.len() && 0 <= j < w.len() && i != j implies w[i]
                != w[j] by {
                if i < p.len() && j < p.len() {
                    assert(w[i] == p[i] && w[j] == p[j]);
                } else if i < p.len() {
                    assert(w[i] == p[i]);
                    assert(pre.contains(p[i]));
                    let a = choose|a: int| 0 <= a < pre.len() && pre[a] == p[i];
                    assert(ids[a] == pre[a]);
                } else if j < p.len() {
                    assert(w[j] == p[j]);
                    assert(pre.contains(p[j]));
                    let a = choose|a: int| 0 <= a < pre.len() && pre[a] == p[j];
                    assert(ids[a] == pre[a]);
                }
            }
        }
    }
}

/// The ids kept by the cgroup reader, followed by those kept by the API
/// fallback from the ids the reader left out, are distinct when `ids` are,
/// and all are among `ids`.
pub proof fn lemma_two_sources_distinct<A, B>(
    ids: Seq<Seq<char>>,
    readings: Seq<Option<A>>,
    fetched: Seq<Option<B>>,
)
    requires
        ids.no_duplicates(),
    ensures
        ({
            let c = kept_ids(ids, readings);
            let f = kept_ids(ids_without(ids, c.to_set()), fetched);
            &&& (c + f).no_duplicates()
            &&& forall|k: int| 0 <= k < (c + f).len() ==> ids.contains(#[trigger] (c + f)[k])
        }),
{
    let c = kept_ids(ids, readings);
    let m = ids_without(ids, c.to_set());
    let f = kept_ids(m, fetched);
    lemma_kept_ids(ids, readings);
    law_missing_complements(ids, c.to_set());
    lemma_ids_without_distinct(ids, c.to_set());
    lemma_kept_ids(m, fetched);
    let cf = c + f;
    assert forall|k: int| 0 <= k < cf.len() implies ids.contains(#[trigger] cf[k]) by {
        if k < c.len() {
            assert(cf[k] == c[k]);
        } else {
            assert(cf[k] == f[k - c.len()]);
            assert(m.contains(f[k - c.len()]));
            let a = choose|a: int| 0 <= a < m.len() && m[a] == f[k - c.len()];
            assert(ids.contains(m[a]));
        }
    }
    assert forall|i: int, j: int| 0 <= i < cf.len() && 0 <= j < cf.len() && i != j implies cf[i] != cf[j] by {
        if i < c.len() && j < c.len() {
            assert(cf[i] == c[i] && cf[j] == c[j]);
        } else if i >= c.len() && j >= c.len() {
            assert(cf[i] == f[i - c.len()] && cf[j] == f[j - c.len()]);
        } else {
            let (a, b) = if i < c.len() {
                (i, j)
            } else {
                (j, i)
            };
            assert(cf[a] == c[a]);
            assert(cf[b] == f[b - c.len()]);
            assert(c.to_set().contains(c[a]));
            assert(m.contains(f[b - c.len()]));
            let t = choose|t: int| 0 <= t < m.len() && m[t] == f[b - c.len()];
            assert(!c.to_set().contains(m[t]));
        }
    }
}

/// No container appears twice in a tick: with distinct running containers
/// `refs`, the stats the cgroup reader gives (over the readings that count)
/// followed by those the API fallback gives for the containers the reader
/// left out (`missing_refs`, then `complete_tick`) have distinct ids, all of
/// running containers; and the fallback is asked about no container that the
/// reader already has figures for.
pub proof fn law_tick_ids_distinct(
    refs: Seq<ContainerRef>,
    cg_prev: Map<Seq<char>, (u64, u64)>,
    cache: Map<Seq<char>, Option<CgPaths>>,
    readings: Seq<Option<(u64, u64, u64)>>,
    now_us: u64,
    api_prev: Map<Seq<char>, (u64, u64)>,
    fetched: Seq<Option<DockerSample>>,
    host_mem_total: u64,
    ncpu: usize,
)
    requires
        refs_ids(refs).no_duplicates(),
        readings.len() == refs.len(),
    ensures
        ({
            let ids = refs_ids(refs);
            let c = cg_run(cg_prev, ids, usable(cache, ids, readings), now_us, host_mem_total).1;
            let m = ids_without(ids, view_ids(c).to_set());
            let f = api_run(api_prev, m, fetched, host_mem_total, ncpu).1;
            &&& fetched.len() >= m.len() ==> view_ids(c + f).no_duplicates()
            &&& fetched.len() >= m.len() ==> forall|k: int|
                0 <= k < (c + f).len() ==> ids.contains(#[trigger] (c + f)[k].id)
            &&& forall|k: int| 0 <= k < m.len() ==> !view_ids(c).contains(#[trigger] m[k])
        }),
{
    let ids = refs_ids(refs);
    let rd = usable(cache, ids, readings);
    law_cg_run_pointwise(cg_prev, ids, rd, now_us, host_mem_total);
    let c = cg_run(cg_prev, ids, rd, now_us, host_mem_total).1;
    let m = ids_without(ids, view_ids(c).to_set());
    law_missing_complements(ids, view_ids(c).to_set());
    assert forall|k: int| 0 <= k < m.len() implies !view_ids(c).contains(#[trigger] m[k]) by {
        if view_ids(c).contains(m[k]) {
            assert(view_ids(c).to_set().contains(m[k]));
        }
    }
    if fetched.len() >= m.len() {
        lemma_ids_without_distinct(ids, view_ids(c).to_set());
        law_api_run_pointwise(api_prev, m, fetched, host_mem_total, ncpu);
        let f = api_run(api_prev, m, fetched, host_mem_total, ncpu).1;
        lemma_two_sources_distinct(ids, rd, fetched);
        assert(view_ids(c + f) =~= view_ids(c) + view_ids(f));
        assert forall|k: int| 0 <= k < (c + f).len() implies ids.contains(#[trigger] (c + f)[k].id) by {
            assert((c + f)[k].id == (view_ids(c) + view_ids(f))[k]);
        }
    }
}

/// Whether a write is due at `now` after one at `last`.
pub open spec fn write_due(last: u64, now: u64, interval: u64) -> bool {
    (if now >= last {
        now - last
    } else {
        0
    }) >= interval
}

/// Samples are written at most once per interval: two successive writes
/// decided by `due` (the first at `t1`, which becomes the last write) are at
/// least `interval` apart in time.
pub proof fn law_writes_spaced(t1: u64, t2: u64, interval: u64)
    requires
        t1 <= t2,
        interval > 0,
        write_due(t1, t2, interval),
    ensures
        t2 - t1 >= interval,
{
}

/// The last write a clock started at `now` takes to have happened: one
/// interval before, or `now` itself where that is before the clock's origin.
pub open spec fn clock_start(now: u64, interval: u64) -> u64 {
    if now >= interval {
        (now - interval) as u64
    } else {
        now
    }
}

/// The first tick is written: a clock started at `start`, at least one
/// interval after the clock's origin, is due at any time from `start` on.
pub proof fn law_first_write_due(start: u64, now: u64, interval: u64)
    requires
        interval <= start <= now,
    ensures
        write_due(clock_start(start, interval), now, interval),
{
}

/// When samples were last written to the store (milliseconds on a monotonic clock).
pub struct PersistClock {
    pub last: u64,
}

impl PersistClock {
    /// A clock started at `now` that is due at once: the last write is taken to
    /// be one interval ago (or now, where that is before the clock's origin).
    pub fn new(now: u64, interval: u64) -> (r: PersistClock)
        ensures
            r.last == clock_start(now, interval),
    {
        let last = match now.checked_sub(interval) {
            Some(v) => v,
            None => now,
        };
        PersistClock { last }
    }

    /// Whether a write is due at `now` (an interval or more since the last);
    /// if so the write is recorded at `now`.
    pub fn due(&mut self, now: u64, interval: u64) -> (r: bool)
        ensures
            r == write_due(old(self).last, now, interval),
            final(self).last == if r {
                now
            } else {
                old(self).last
            },
    {
        if now.saturating_sub(self.last) >= interval {
            self.last = now;
            true
        } else {
            false
        }
    }
}

} // verus!
