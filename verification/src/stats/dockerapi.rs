//! Container usage from the Docker stats API (the fallback source).
use vstd::prelude::*;

use crate::idmap::IdMap;
use crate::stats::cgroup::{lemma_refs_set, prev_of, ref_ids, sat_sub};
use crate::stats::{kept_ids, lemma_kept_ids, view_ids};
use crate::types::{refs_ids, stats_view, ContainerRef, ContainerStat, ContainerStatView, CpuShare};

verus! {

/// The counters one stats call reported for a container (0 where the
/// daemon gave none).
#[derive(Clone, Copy, Debug)]
pub struct DockerSample {
    pub total_usage: u64,
    pub system_usage: u64,
    pub online_cpus: u64,
    pub mem_bytes: u64,
    pub mem_limit: u64,
}

/// The limit shown for a container: the host's memory when the container
/// reports none, or one at least four times the host's (saturating).
pub open spec fn effective_limit(mem_limit: u64, host_mem_total: u64) -> u64 {
    let four = if host_mem_total <= u64::MAX / 4 {
        host_mem_total * 4
    } else {
        u64::MAX as int
    };
    if mem_limit == 0 || (host_mem_total > 0 && mem_limit >= four) {
        host_mem_total
    } else {
        mem_limit
    }
}

/// The limit shown, in plain terms: a container's own nonzero limit is kept
/// unless it is at least four times the host's memory (that product capped
/// at the largest `u64`); a zero limit, or such a large one, shows the
/// host's memory. With the host's memory unknown (0) every nonzero limit is
/// kept.
pub proof fn law_effective_limit(mem_limit: u64, host_mem_total: u64)
    ensures
        mem_limit == 0 ==> effective_limit(mem_limit, host_mem_total) == host_mem_total,
        host_mem_total == 0 && mem_limit > 0 ==> effective_limit(mem_limit, host_mem_total) == mem_limit,
        host_mem_total > 0 && 0 < mem_limit && (mem_limit as int) < 4 * host_mem_total && mem_limit
            < u64::MAX ==> effective_limit(mem_limit, host_mem_total) == mem_limit,
        host_mem_total > 0 && (mem_limit as int) >= 4 * host_mem_total ==> effective_limit(
            mem_limit,
            host_mem_total,
        ) == host_mem_total,
        host_mem_total > 0 && 4 * host_mem_total > u64::MAX && mem_limit == u64::MAX ==> effective_limit(
            mem_limit,
            host_mem_total,
        ) == host_mem_total,
        effective_limit(mem_limit, host_mem_total) == mem_limit || effective_limit(
            mem_limit,
            host_mem_total,
        ) == host_mem_total,
{
}

/// One container's stat from its sample and its previous counters.
pub open spec fn api_stat(
    prev: Option<(u64, u64)>,
    id: Seq<char>,
    s: DockerSample,
    host_mem_total: u64,
    ncpu: usize,
) -> ContainerStatView {
    let cpus = if s.online_cpus > 0 {
        s.online_cpus
    } else {
        ncpu as u64
    };
    ContainerStatView {
        id: id,
        cpu: match prev {
            Some((pt, ps)) => CpuShare {
                busy: sat_sub(s.total_usage, pt),
                total: sat_sub(s.system_usage, ps),
                cpus: cpus,
            },
            None => CpuShare { busy: 0, total: 0, cpus: 1 },
        },
        mem_bytes: s.mem_bytes,
        mem_limit: effective_limit(s.mem_limit, host_mem_total),
    }
}

/// Running the containers `ids` in order, with what their stats calls
/// gave (`None`: no stats), over the previous counters `prev`: the counters
/// afterwards, and the stats of the containers that answered.
pub open spec fn api_run(
    prev: Map<Seq<char>, (u64, u64)>,
    ids: Seq<Seq<char>>,
    fetched: Seq<Option<DockerSample>>,
    host_mem_total: u64,
    ncpu: usize,
) -> (Map<Seq<char>, (u64, u64)>, Seq<ContainerStatView>)
    decreases ids.len(),
{
    if ids.len() == 0 || fetched.len() < ids.len() {
        (prev, seq![])
    } else {
        let (p, out) = api_run(prev, ids.drop_last(), fetched, host_mem_total, ncpu);
        let id = ids.last();
        match fetched[ids.len() - 1] {
            Some(s) => (
                p.insert(id, (s.total_usage, s.system_usage)),
                out.push(api_stat(prev_of(p, id), id, s, host_mem_total, ncpu)),
            ),
            None => (p, out),
        }
    }
}

/// The stats of the containers `ids` that answered, in order, each figured
/// from the counters held for it in `prev`.
pub open spec fn api_each(
    prev: Map<Seq<char>, (u64, u64)>,
    ids: Seq<Seq<char>>,
    fetched: Seq<Option<DockerSample>>,
    host_mem_total: u64,
    ncpu: usize,
) -> Seq<ContainerStatView>
    decreases ids.len(),
{
    if ids.len() == 0 || fetched.len() < ids.len() {
        seq![]
    } else {
        let out = api_each(prev, ids.drop_last(), fetched, host_mem_total, ncpu);
        match fetched[ids.len() - 1] {
            Some(s) => out.push(api_stat(prev_of(prev, ids.last()), ids.last(), s, host_mem_total, ncpu)),
            None => out,
        }
    }
}

/// What a run over distinct containers does, container by container: the
/// stats are those of the containers that answered, in order, each figured
/// from the counters held for it before the run; afterwards a container that
/// answered holds its new counters, and every other container keeps what it
/// held.
pub proof fn law_api_run_pointwise(
    prev: Map<Seq<char>, (u64, u64)>,
    ids: Seq<Seq<char>>,
    fetched: Seq<Option<DockerSample>>,
    host_mem_total: u64,
    ncpu: usize,
)
    requires
        ids.no_duplicates(),
        fetched.len() >= ids.len(),
    ensures
        ({
            let (after, out) = api_run(prev, ids, fetched, host_mem_total, ncpu);
            &&& view_ids(out) == kept_ids(ids, fetched)
            &&& out == api_each(prev, ids, fetched, host_mem_total, ncpu)
            &&& forall|i: int|
                0 <= i < ids.len() ==> prev_of(after, #[trigger] ids[i]) == match fetched[i] {
                    Some(s) => Some((s.total_usage, s.system_usage)),
                    None => prev_of(prev, ids[i]),
                }
            &&& forall|x: Seq<char>| !ids.contains(x) ==> #[trigger] prev_of(after, x) == prev_of(prev, x)
        }),
    decreases ids.len(),
{
    if ids.len() > 0 {
        let pre = ids.drop_last();
        assert(pre.no_duplicates()) by {
            assert forall|i: int, j: int| 0 <= i < pre.len() && 0 <= j < pre.len() && i != j implies pre[i]
                != pre[j] by {
                assert(pre[i] == ids[i] && pre[j] == ids[j]);
            }
        }
        law_api_run_pointwise(prev, pre, fetched, host_mem_total, ncpu);
        let (p, o) = api_run(prev, pre, fetched, host_mem_total, ncpu);
        let (after, out) = api_run(prev, ids, fetched, host_mem_total, ncpu);
        let id = ids.last();
        assert(!pre.contains(id)) by {
            if pre.contains(id) {
                let a = choose|a: int| 0 <= a < pre.len() && pre[a] == id;
                assert(ids[a] == ids[ids.len() - 1]);
            }
        }
        assert(prev_of(p, id) == prev_of(prev, id));
        assert forall|i: int| 0 <= i < ids.len() implies prev_of(after, #[trigger] ids[i]) == match fetched[i] {
            Some(s) => Some((s.total_usage, s.system_usage)),
            None => prev_of(prev, ids[i]),
        } by {
            if i < pre.len() {
                assert(ids[i] == pre[i]);
                assert(ids[i] != id);
                assert(prev_of(p, pre[i]) == match fetched[i] {
                    Some(s) => Some((s.total_usage, s.system_usage)),
                    None => prev_of(prev, pre[i]),
                });
            }
        }
        assert forall|x: Seq<char>| !ids.contains(x) implies #[trigger] prev_of(after, x) == prev_of(prev, x) by {
            assert(x != id);
            if pre.contains(x) {
                let a = choose|a: int| 0 <= a < pre.len() && pre[a] == x;
                assert(ids[a] == x);
            }
            assert(prev_of(p, x) == prev_of(prev, x));
            match fetched[ids.len() - 1] {
                Some(s) => {
                    assert(after == p.insert(id, (s.total_usage, s.system_usage)));
                },
                None => {
                    assert(after == p);
                },
            }
        }
        assert(view_ids(out) =~= kept_ids(ids, fetched));
    } else {
        assert(view_ids(seq![]) =~= Seq::<Seq<char>>::empty());
    }
}

/// The ids in a run's stats are those that answered.
proof fn lemma_api_each_ids(
    prev: Map<Seq<char>, (u64, u64)>,
    ids: Seq<Seq<char>>,
    fetched: Seq<Option<DockerSample>>,
    host_mem_total: u64,
    ncpu: usize,
)
    ensures
        view_ids(api_each(prev, ids, fetched, host_mem_total, ncpu)) == kept_ids(ids, fetched),
        view_ids(api_run(prev, ids, fetched, host_mem_total, ncpu).1) == kept_ids(ids, fetched),
    decreases ids.len(),
{
    if ids.len() > 0 && fetched.len() >= ids.len() {
        lemma_api_each_ids(prev, ids.drop_last(), fetched, host_mem_total, ncpu);
    }
    assert(view_ids(api_each(prev, ids, fetched, host_mem_total, ncpu)) =~= kept_ids(ids, fetched));
    assert(view_ids(api_run(prev, ids, fetched, host_mem_total, ncpu).1) =~= kept_ids(ids, fetched));
}

/// In the stats of a run over distinct containers, the entry of a container
/// that answered is figured from its sample and the counters held for it.
pub proof fn lemma_api_each_entry(
    prev: Map<Seq<char>, (u64, u64)>,
    ids: Seq<Seq<char>>,
    fetched: Seq<Option<DockerSample>>,
    host_mem_total: u64,
    ncpu: usize,
    i: int,
)
    requires
        ids.no_duplicates(),
        fetched.len() >= ids.len(),
        0 <= i < ids.len(),
        fetched[i] is Some,
    ensures
        forall|k: int|
            0 <= k < api_each(prev, ids, fetched, host_mem_total, ncpu).len() && (#[trigger] api_each(
                prev,
                ids,
                fetched,
                host_mem_total,
                ncpu,
            )[k]).id == ids[i] ==> api_each(prev, ids, fetched, host_mem_total, ncpu)[k] == api_stat(
                prev_of(prev, ids[i]),
                ids[i],
                fetched[i]->0,
                host_mem_total,
                ncpu,
            ),
    decreases ids.len(),
{
    let pre = ids.drop_last();
    let o = api_each(prev, pre, fetched, host_mem_total, ncpu);
    let out = api_each(prev, ids, fetched, host_mem_total, ncpu);
    lemma_api_each_ids(prev, pre, fetched, host_mem_total, ncpu);
    assert(pre.no_duplicates()) by {
        assert forall|a: int, b: int| 0 <= a < pre.len() && 0 <= b < pre.len() && a != b implies pre[a]
            != pre[b] by {
            assert(pre[a] == ids[a] && pre[b] == ids[b]);
        }
    }
    if i < pre.len() {
        lemma_api_each_entry(prev, pre, fetched, host_mem_total, ncpu, i);
        assert(ids[i] == pre[i]);
        assert(ids[i] != ids.last());
    } else {
        assert forall|k: int| 0 <= k < o.len() implies (#[trigger] o[k]).id != ids[i] by {
            lemma_kept_ids(pre, fetched);
            assert(view_ids(o)[k] == o[k].id);
            assert(pre.contains(o[k].id));
            if o[k].id == ids[i] {
                let a = choose|a: int| 0 <= a < pre.len() && pre[a] == ids[i];
                assert(ids[a] == pre[a]);
            }
        }
    }
    assert forall|k: int| 0 <= k < out.len() && (#[trigger] out[k]).id == ids[i] implies out[k] == api_stat(
        prev_of(prev, ids[i]),
        ids[i],
        fetched[i]->0,
        host_mem_total,
        ncpu,
    ) by {
        if k < o.len() {
            assert(out[k] == o[k]);
        }
    }
}

/// Two samples in turn, the second starting from the counters the first
/// left (restricted to the second's containers): a container that answered
/// both gets, in the second, its CPU time used between the two calls over
/// the system's CPU time between them, on the scale of its online processors
/// (the host's count where the daemon gave none); its memory figures are
/// those of the second call, the limit as `effective_limit` gives it.
pub proof fn law_api_successive_samples(
    prev0: Map<Seq<char>, (u64, u64)>,
    ids1: Seq<Seq<char>>,
    f1: Seq<Option<DockerSample>>,
    ids2: Seq<Seq<char>>,
    f2: Seq<Option<DockerSample>>,
    host_mem_total: u64,
    ncpu: usize,
    i1: int,
    i2: int,
)
    requires
        ids1.no_duplicates(),
        ids2.no_duplicates(),
        f1.len() >= ids1.len(),
        f2.len() >= ids2.len(),
        0 <= i1 < ids1.len(),
        0 <= i2 < ids2.len(),
        ids1[i1] == ids2[i2],
        f1[i1] is Some,
        f2[i2] is Some,
    ensures
        ({
            let mid = api_run(prev0, ids1, f1, host_mem_total, ncpu).0;
            let out = api_run(mid.restrict(ids2.to_set()), ids2, f2, host_mem_total, ncpu).1;
            let a = f1[i1]->0;
            let b = f2[i2]->0;
            forall|k: int|
                0 <= k < out.len() && (#[trigger] out[k]).id == ids2[i2] ==> {
                    &&& out[k].cpu == CpuShare {
                        busy: sat_sub(b.total_usage, a.total_usage),
                        total: sat_sub(b.system_usage, a.system_usage),
                        cpus: if b.online_cpus > 0 {
                            b.online_cpus
                        } else {
                            ncpu as u64
                        },
                    }
                    &&& out[k].mem_bytes == b.mem_bytes
                    &&& out[k].mem_limit == effective_limit(b.mem_limit, host_mem_total)
                }
        }),
{
    law_api_run_pointwise(prev0, ids1, f1, host_mem_total, ncpu);
    let mid = api_run(prev0, ids1, f1, host_mem_total, ncpu).0;
    let start = mid.restrict(ids2.to_set());
    let x = ids2[i2];
    let a = f1[i1]->0;
    assert(prev_of(mid, ids1[i1]) == Some((a.total_usage, a.system_usage)));
    assert(ids2.to_set().contains(x));
    assert(prev_of(start, x) == prev_of(mid, x));
    law_api_run_pointwise(start, ids2, f2, host_mem_total, ncpu);
    lemma_api_each_entry(start, ids2, f2, host_mem_total, ncpu, i2);
}

/// Memory figures need no distinct ids: the `k`-th stat of a run comes from
/// a position `i` (returned) whose container answered, with that answer's
/// memory in use and its limit as `effective_limit` gives it.
pub proof fn law_api_run_memory(
    prev: Map<Seq<char>, (u64, u64)>,
    ids: Seq<Seq<char>>,
    fetched: Seq<Option<DockerSample>>,
    host_mem_total: u64,
    ncpu: usize,
    k: int,
) -> (i: int)
    requires
        0 <= k < api_run(prev, ids, fetched, host_mem_total, ncpu).1.len(),
    ensures
        0 <= i < ids.len(),
        fetched[i] is Some,
        api_run(prev, ids, fetched, host_mem_total, ncpu).1[k].id == ids[i],
        api_run(prev, ids, fetched, host_mem_total, ncpu).1[k].mem_bytes == (fetched[i]->0).mem_bytes,
        api_run(prev, ids, fetched, host_mem_total, ncpu).1[k].mem_limit == effective_limit(
            (fetched[i]->0).mem_limit,
            host_mem_total,
        ),
    decreases ids.len(),
{
    let pre = ids.drop_last();
    let o = api_run(prev, pre, fetched, host_mem_total, ncpu).1;
    if k < o.len() {
        let i = law_api_run_memory(prev, pre, fetched, host_mem_total, ncpu, k);
        assert(ids[i] == pre[i]);
        i
    } else {
        (ids.len() - 1) as int
    }
}

/// Whether each call of a history names distinct containers and has an
/// answer slot for each.
pub open spec fn api_calls_wf(calls: Seq<(Seq<Seq<char>>, Seq<Option<DockerSample>>)>) -> bool {
    forall|c: int|
        0 <= c < calls.len() ==> (#[trigger] calls[c]).0.no_duplicates() && calls[c].1.len()
            >= calls[c].0.len()
}

/// The counters held after a history of samples `calls` (each the
/// containers of that call and what their stats calls gave), starting from
/// `prev0`: each call first forgets the containers it does not name, as
/// `sample` does.
pub open spec fn api_history(
    prev0: Map<Seq<char>, (u64, u64)>,
    calls: Seq<(Seq<Seq<char>>, Seq<Option<DockerSample>>)>,
    host_mem_total: u64,
    ncpu: usize,
) -> Map<Seq<char>, (u64, u64)>
    decreases calls.len(),
{
    if calls.len() == 0 {
        prev0
    } else {
        let (ids, fetched) = calls.last();
        api_run(
            api_history(prev0, calls.drop_last(), host_mem_total, ncpu).restrict(ids.to_set()),
            ids,
            fetched,
            host_mem_total,
            ncpu,
        ).0
    }
}

/// The counters of container `x` after the history `calls`: those of the
/// latest call that fetched it, provided every call since named it; none if
/// some call since left it out; what `prev0` held if every call named it and
/// none fetched it.
pub open spec fn api_held(
    prev0: Map<Seq<char>, (u64, u64)>,
    calls: Seq<(Seq<Seq<char>>, Seq<Option<DockerSample>>)>,
    x: Seq<char>,
) -> Option<(u64, u64)>
    decreases calls.len(),
{
    if calls.len() == 0 {
        prev_of(prev0, x)
    } else {
        let (ids, fetched) = calls.last();
        if !ids.contains(x) {
            None
        } else {
            let i = choose|i: int| 0 <= i < ids.len() && ids[i] == x;
            match fetched[i] {
                Some(s) => Some((s.total_usage, s.system_usage)),
                None => api_held(prev0, calls.drop_last(), x),
            }
        }
    }
}

/// What the API source holds for a container after any history of samples
/// is what `api_held` says: the counters of the latest call that fetched it,
/// as long as it stayed among the containers of every call since.
pub proof fn law_api_history_held(
    prev0: Map<Seq<char>, (u64, u64)>,
    calls: Seq<(Seq<Seq<char>>, Seq<Option<DockerSample>>)>,
    host_mem_total: u64,
    ncpu: usize,
    x: Seq<char>,
)
    requires
        api_calls_wf(calls),
    ensures
        prev_of(api_history(prev0, calls, host_mem_total, ncpu), x) == api_held(prev0, calls, x),
    decreases calls.len(),
{
    if calls.len() > 0 {
        let pre = calls.drop_last();
        assert(api_calls_wf(pre)) by {
            assert forall|c: int| 0 <= c < pre.len() implies (#[trigger] pre[c]).0.no_duplicates()
                && pre[c].1.len() >= pre[c].0.len() by {
                assert(pre[c] == calls[c]);
            }
        }
        law_api_history_held(prev0, pre, host_mem_total, ncpu, x);
        let (ids, fetched) = calls.last();
        assert(calls[calls.len() - 1] == calls.last());
        let start = api_history(prev0, pre, host_mem_total, ncpu).restrict(ids.to_set());
        law_api_run_pointwise(start, ids, fetched, host_mem_total, ncpu);
        if ids.contains(x) {
            let i = choose|i: int| 0 <= i < ids.len() && ids[i] == x;
            assert(ids.to_set().contains(x));
            assert(prev_of(start, ids[i]) == prev_of(api_history(prev0, pre, host_mem_total, ncpu), x));
        } else {
            assert(!ids.to_set().contains(x));
            assert(prev_of(start, x) == None::<(u64, u64)>);
        }
    }
}

/// The CPU figure over any history: a sample that follows the history
/// `calls` gives a container it fetched the CPU time used since the latest
/// earlier call that fetched it, over the system's CPU time since then (on
/// the scale of its online processors, the host's count where the daemon
/// gave none), provided it was among the containers of every call since;
/// otherwise it gets no usage (as on its first sample). Its memory figures
/// are those of this sample.
pub proof fn law_api_history_entry(
    prev0: Map<Seq<char>, (u64, u64)>,
    calls: Seq<(Seq<Seq<char>>, Seq<Option<DockerSample>>)>,
    ids: Seq<Seq<char>>,
    fetched: Seq<Option<DockerSample>>,
    host_mem_total: u64,
    ncpu: usize,
    i: int,
)
    requires
        api_calls_wf(calls),
        ids.no_duplicates(),
        fetched.len() >= ids.len(),
        0 <= i < ids.len(),
        fetched[i] is Some,
    ensures
        ({
            let start = api_history(prev0, calls, host_mem_total, ncpu).restrict(ids.to_set());
            let out = api_run(start, ids, fetched, host_mem_total, ncpu).1;
            forall|k: int|
                0 <= k < out.len() && (#[trigger] out[k]).id == ids[i] ==> out[k] == api_stat(
                    api_held(prev0, calls, ids[i]),
                    ids[i],
                    fetched[i]->0,
                    host_mem_total,
                    ncpu,
                )
        }),
{
    let start = api_history(prev0, calls, host_mem_total, ncpu).restrict(ids.to_set());
    law_api_history_held(prev0, calls, host_mem_total, ncpu, ids[i]);
    assert(ids.to_set().contains(ids[i]));
    assert(prev_of(start, ids[i]) == api_held(prev0, calls, ids[i]));
    law_api_run_pointwise(start, ids, fetched, host_mem_total, ncpu);
    lemma_api_each_entry(start, ids, fetched, host_mem_total, ncpu, i);
}

/// Container usage from the stats API, with the previous counters.
pub struct DockerApiSource {
    pub prev: IdMap<(u64, u64)>,
}

impl DockerApiSource {
    pub open spec fn wf(&self) -> bool {
        self.prev.wf()
    }

    /// A source with no previous counters.
    pub fn new() -> (r: DockerApiSource)
        ensures
            r.wf(),
            r.prev@ == Map::<Seq<char>, (u64, u64)>::empty(),
    {
        DockerApiSource { prev: IdMap::new() }
    }

    /// One sample of the containers `refs`, given what one stats call for
    /// each gave (`fetched[i]` for `refs[i]`; `None` where the call gave no
    /// stats). Containers no longer in `refs` are forgotten; those without
    /// stats are left out of the result.
    pub fn sample(
        &mut self,
        refs: &Vec<ContainerRef>,
        fetched: &Vec<Option<DockerSample>>,
        host_mem_total: u64,
        ncpu: usize,
    ) -> (r: Vec<ContainerStat>)
        requires
            old(self).wf(),
            fetched@.len() == refs@.len(),
        ensures
            final(self).wf(),
            (final(self).prev@, stats_view(r@)) == api_run(
                old(self).prev@.restrict(refs_ids(refs@).to_set()),
                refs_ids(refs@),
                fetched@,
                host_mem_total,
                ncpu,
            ),
            view_ids(stats_view(r@)) == kept_ids(refs_ids(refs@), fetched@),
    {
        proof {
            lemma_refs_set(refs@);
        }
        let alive = ref_ids(refs);
        self.prev.retain_ids(&alive);
        let ghost start = self.prev@;
        let mut out: Vec<ContainerStat> = Vec::new();
        let mut i: usize = 0;
        while i < refs.len()
            invariant
                self.wf(),
                i <= refs@.len() == fetched@.len(),
                (self.prev@, stats_view(out@)) == api_run(
                    start,
                    refs_ids(refs@).take(i as int),
                    fetched@,
                    host_mem_total,
                    ncpu,
                ),
            decreases refs@.len() - i,
        {
            let ghost ids_next = refs_ids(refs@).take(i + 1);
            assert(ids_next.drop_last() =~= refs_ids(refs@).take(i as int));
            assert(ids_next.last() == refs@[i as int].id@);
            match fetched[i] {
                Some(s) => {
                    let id = &refs[i].id;
                    let cpus = if s.online_cpus > 0 {
                        s.online_cpus
                    } else {
                        ncpu as u64
                    };
                    let cpu = match self.prev.get(id.as_str()) {
                        Some(p) => {
                            let (pt, ps) = *p;
                            CpuShare {
                                busy: s.total_usage.saturating_sub(pt),
                                total: s.system_usage.saturating_sub(ps),
                                cpus,
                            }
                        },
                        None => CpuShare::idle(),
                    };
                    self.prev.insert(id.clone(), (s.total_usage, s.system_usage));
                    let four = if host_mem_total <= u64::MAX / 4 {
                        host_mem_total * 4
                    } else {
                        u64::MAX
                    };
                    let limit = if s.mem_limit == 0 || (host_mem_total > 0 && s.mem_limit >= four) {
                        host_mem_total
                    } else {
                        s.mem_limit
                    };
                    let ghost before = stats_view(out@);
                    out.push(
                        ContainerStat { id: id.clone(), cpu, mem_bytes: s.mem_bytes, mem_limit: limit },
                    );
                    assert(stats_view(out@) =~= before.push(stats_view(out@).last()));
                },
                None => {},
            }
            i = i + 1;
        }
        assert(refs_ids(refs@).take(refs@.len() as int) =~= refs_ids(refs@));
        proof {
            lemma_api_each_ids(start, refs_ids(refs@), fetched@, host_mem_total, ncpu);
        }
        out
    }
}

} // verus!
