//! The in-memory list of containers.
use vstd::prelude::*;

use crate::text::{chars_of, span_eq};
use crate::types::{infos_view, refs_ids, ContainerInfo, ContainerInfoView, ContainerRef};

verus! {

pub open spec fn running_word() -> Seq<char> {
    seq!['r', 'u', 'n', 'n', 'i', 'n', 'g']
}

/// The ids of the containers of `v` whose state is `running`, in order.
pub open spec fn running_of(v: Seq<ContainerInfoView>) -> Seq<Seq<char>>
    decreases v.len(),
{
    if v.len() == 0 {
        seq![]
    } else {
        let p = running_of(v.drop_last());
        if v.last().state == running_word() {
            p.push(v.last().id)
        } else {
            p
        }
    }
}

/// The containers known to the service, as last listed.
pub struct Registry {
    containers: Vec<ContainerInfo>,
}

impl View for Registry {
    type V = Seq<ContainerInfoView>;

    closed spec fn view(&self) -> Seq<ContainerInfoView> {
        infos_view(self.containers@)
    }
}

fn is_running(state: &str) -> (r: bool)
    ensures
        r == (state@ == running_word()),
{
    let cs = chars_of(state);
    let w: [char; 7] = ['r', 'u', 'n', 'n', 'i', 'n', 'g'];
    assert(w@ =~= running_word());
    assert(cs@.subrange(0, cs@.len() as int) =~= cs@);
    span_eq(&cs, 0, cs.len(), &w)
}

impl Registry {
    /// A registry that knows no containers.
    pub fn new() -> (r: Registry)
        ensures
            r@ == Seq::<ContainerInfoView>::empty(),
    {
        Registry { containers: Vec::new() }
    }

    /// Takes a new listing; a failed listing (`None`) leaves the list as it was.
    pub fn refresh(&mut self, fetched: Option<Vec<ContainerInfo>>)
        ensures
            final(self)@ == match fetched {
                Some(list) => infos_view(list@),
                None => old(self)@,
            },
    {
        match fetched {
            Some(list) => {
                self.containers = list;
            },
            None => {},
        }
    }

    /// The containers, in listing order.
    pub fn list(&self) -> (r: Vec<ContainerInfo>)
        ensures
            infos_view(r@) == self@,
    {
        let mut out: Vec<ContainerInfo> = Vec::new();
        let mut i: usize = 0;
        while i < self.containers.len()
            invariant
                i <= self.containers@.len(),
                infos_view(out@) == infos_view(self.containers@).take(i as int),
            decreases self.containers@.len() - i,
        {
            let c = self.containers[i].duplicate();
            let ghost cv = c@;
            let ghost before = infos_view(out@);
            out.push(c);
            assert(infos_view(out@) =~= before.push(cv));
            assert(infos_view(out@) =~= infos_view(self.containers@).take(i + 1));
            i = i + 1;
        }
        assert(infos_view(self.containers@).take(self.containers@.len() as int) =~= infos_view(
            self.containers@,
        ));
        out
    }

    /// The running containers, in listing order.
    pub fn running(&self) -> (r: Vec<ContainerRef>)
        ensures
            refs_ids(r@) == running_of(self@),
    {
        let ghost all = infos_view(self.containers@);
        let mut out: Vec<ContainerRef> = Vec::new();
        let mut i: usize = 0;
        while i < self.containers.len()
            invariant
                i <= self.containers@.len(),
                all == infos_view(self.containers@),
                refs_ids(out@) == running_of(all.take(i as int)),
            decreases self.containers@.len() - i,
        {
            assert(all.take(i + 1).drop_last() =~= all.take(i as int));
            assert(all.take(i + 1).last() == self.containers@[i as int]@);
            if is_running(self.containers[i].state.as_str()) {
                let ghost before = refs_ids(out@);
                out.push(ContainerRef { id: self.containers[i].id.clone() });
                assert(refs_ids(out@) =~= before.push(self.containers@[i as int].id@));
            }
            i = i + 1;
        }
        assert(all.take(self.containers@.len() as int) =~= all);
        out
    }

    /// The ids of the running containers, in listing order.
    pub fn running_ids(&self) -> (r: Vec<String>)
        ensures
            r@.map_values(|s: String| s@) == running_of(self@),
    {
        let refs = self.running();
        let mut out: Vec<String> = Vec::new();
        let mut i: usize = 0;
        while i < refs.len()
            invariant
                i <= refs@.len(),
                out@.map_values(|s: String| s@) == refs_ids(refs@).take(i as int),
            decreases refs@.len() - i,
        {
            let s = refs[i].id.clone();
            let ghost sv = s@;
            let ghost before = out@.map_values(|s: String| s@);
            out.push(s);
            assert(out@.map_values(|s: String| s@) =~= before.push(sv));
            i = i + 1;
            assert(out@.map_values(|s: String| s@) =~= refs_ids(refs@).take(i as int));
        }
        assert(refs_ids(refs@).take(refs@.len() as int) =~= refs_ids(refs@));
        out
    }
}

impl Default for Registry {
    fn default() -> (r: Registry)
        ensures
            r@ == Seq::<ContainerInfoView>::empty(),
    {
        Registry::new()
    }
}

/// Every running container reported by `running` is a listed container in
/// the `running` state, and every listed container in that state is reported.
pub proof fn law_running_are_listed_running(v: Seq<ContainerInfoView>)
    ensures
        forall|k: int|
            0 <= k < running_of(v).len() ==> exists|i: int|
                0 <= i < v.len() && (#[trigger] v[i]).id == #[trigger] running_of(v)[k]
                    && v[i].state == running_word(),
        forall|i: int|
            0 <= i < v.len() && (#[trigger] v[i]).state == running_word() ==> running_of(
                v,
            ).contains(v[i].id),
    decreases v.len(),
{
    if v.len() > 0 {
        let p = v.drop_last();
        law_running_are_listed_running(p);
        assert forall|k: int| 0 <= k < running_of(v).len() implies exists|i: int|
            0 <= i < v.len() && (#[trigger] v[i]).id == #[trigger] running_of(v)[k]
                && v[i].state == running_word() by {
            if k < running_of(p).len() {
                assert(running_of(v)[k] == running_of(p)[k]);
                let i = choose|i: int|
                    0 <= i < p.len() && (#[trigger] p[i]).id == #[trigger] running_of(p)[k]
                        && p[i].state == running_word();
                assert(v[i] == p[i]);
            } else {
                assert(v[v.len() - 1].id == running_of(v)[k]);
            }
        }
        assert forall|i: int| 0 <= i < v.len() && (#[trigger] v[i]).state == running_word() implies running_of(
            v,
        ).contains(v[i].id) by {
            if i < v.len() - 1 {
                assert(v[i] == p[i]);
                let k = choose|k: int| 0 <= k < running_of(p).len() && running_of(p)[k] == p[i].id;
                assert(running_of(v)[k] == running_of(p)[k]);
            } else {
                assert(running_of(v)[running_of(v).len() - 1] == v[i].id);
            }
        }
    }
}

} // verus!
