//! A small map keyed by container id, holding each id at most once.
use vstd::prelude::*;

use crate::config::str_eq;

verus! {

pub open spec fn keys_distinct<V>(e: Seq<(String, V)>) -> bool {
    forall|i: int, j: int| 0 <= i < j < e.len() ==> (#[trigger] e[i]).0@ != (#[trigger] e[j]).0@
}

pub open spec fn map_of<V>(e: Seq<(String, V)>) -> Map<Seq<char>, V>
    decreases e.len(),
{
    if e.len() == 0 {
        Map::empty()
    } else {
        map_of(e.drop_last()).insert(e.last().0@, e.last().1)
    }
}

pub proof fn lemma_map_of<V>(e: Seq<(String, V)>)
    ensures
        forall|k: Seq<char>|
            #[trigger] map_of(e).dom().contains(k) <==> exists|i: int|
                0 <= i < e.len() && (#[trigger] e[i]).0@ == k,
        keys_distinct(e) ==> forall|i: int|
            0 <= i < e.len() ==> map_of(e)[(#[trigger] e[i]).0@] == e[i].1,
    decreases e.len(),
{
    if e.len() > 0 {
        let p = e.drop_last();
        lemma_map_of(p);
        assert forall|k: Seq<char>| #[trigger] map_of(e).dom().contains(k) <==> exists|i: int|
            0 <= i < e.len() && (#[trigger] e[i]).0@ == k by {
            if map_of(e).dom().contains(k) && k != e.last().0@ {
                assert(map_of(p).dom().contains(k));
                let i = choose|i: int| 0 <= i < p.len() && (#[trigger] p[i]).0@ == k;
                assert(e[i] == p[i]);
                assert(e[i].0@ == k);
            }
            if map_of(e).dom().contains(k) && k == e.last().0@ {
                assert(e[e.len() - 1].0@ == k);
            }
            if exists|i: int| 0 <= i < e.len() && (#[trigger] e[i]).0@ == k {
                let i = choose|i: int| 0 <= i < e.len() && (#[trigger] e[i]).0@ == k;
                if i < e.len() - 1 {
                    assert(p[i] == e[i]);
                    assert(p[i].0@ == k);
                    assert(map_of(p).dom().contains(k));
                }
            }
        }
        if keys_distinct(e) {
            assert forall|i: int| 0 <= i < e.len() implies map_of(e)[(#[trigger] e[i]).0@]
                == e[i].1 by {
                if i < e.len() - 1 {
                    assert(p[i] == e[i]);
                    assert(e[i].0@ != e[e.len() - 1].0@);
                }
            }
        }
    }
}

/// Values keyed by container id.
pub struct IdMap<V> {
    entries: Vec<(String, V)>,
}

impl<V> View for IdMap<V> {
    type V = Map<Seq<char>, V>;

    closed spec fn view(&self) -> Map<Seq<char>, V> {
        map_of(self.entries@)
    }
}

impl<V> IdMap<V> {
    /// No id occurs twice.
    pub closed spec fn wf(&self) -> bool {
        keys_distinct(self.entries@)
    }

    /// An empty map.
    pub fn new() -> (r: IdMap<V>)
        ensures
            r.wf(),
            r@ == Map::<Seq<char>, V>::empty(),
    {
        IdMap { entries: Vec::new() }
    }

    /// Number of ids held.
    pub fn len(&self) -> (r: usize)
        requires
            self.wf(),
        ensures
            r == self@.dom().len(),
    {
        proof {
            self.lemma_len();
        }
        self.entries.len()
    }

    proof fn lemma_len(&self)
        requires
            self.wf(),
        ensures
            self@.dom().finite(),
            self@.dom().len() == self.entries@.len(),
        decreases self.entries@.len(),
    {
        lemma_dom_len(self.entries@);
    }

    fn find(&self, id: &str) -> (r: Option<usize>)
        requires
            self.wf(),
        ensures
            match r {
                Some(i) => i < self.entries@.len() && self.entries@[i as int].0@ == id@,
                None => forall|i: int|
                    0 <= i < self.entries@.len() ==> (#[trigger] self.entries@[i]).0@ != id@,
            },
    {
        let mut i: usize = 0;
        while i < self.entries.len()
            invariant
                i <= self.entries@.len(),
                forall|t: int| 0 <= t < i ==> (#[trigger] self.entries@[t]).0@ != id@,
            decreases self.entries@.len() - i,
        {
            if str_eq(self.entries[i].0.as_str(), id) {
                return Some(i);
            }
            i = i + 1;
        }
        None
    }

    /// Whether `id` is held.
    pub fn contains_key(&self, id: &str) -> (r: bool)
        requires
            self.wf(),
        ensures
            r == self@.dom().contains(id@),
    {
        proof {
            lemma_map_of(self.entries@);
        }
        self.find(id).is_some()
    }

    /// The value held for `id`.
    pub fn get(&self, id: &str) -> (r: Option<&V>)
        requires
            self.wf(),
        ensures
            match r {
                Some(v) => self@.dom().contains(id@) && *v == self@[id@],
                None => !self@.dom().contains(id@),
            },
    {
        proof {
            lemma_map_of(self.entries@);
        }
        match self.find(id) {
            Some(i) => Some(&self.entries[i].1),
            None => None,
        }
    }

    /// Sets the value held for `id`.
    pub fn insert(&mut self, id: String, v: V)
        requires
            old(self).wf(),
        ensures
            final(self).wf(),
            final(self)@ == old(self)@.insert(id@, v),
    {
        let ghost k = id@;
        proof {
            lemma_map_of(self.entries@);
        }
        match self.find(id.as_str()) {
            Some(i) => {
                let ghost pre = self.entries@;
                self.entries.set(i, (id, v));
                let ghost post = self.entries@;
                proof {
                    assert(post =~= pre.update(i as int, (post[i as int].0, v)));
                    assert(keys_distinct(post)) by {
                        assert forall|a: int, b: int| 0 <= a < b < post.len() implies (
                        #[trigger] post[a]).0@ != (#[trigger] post[b]).0@ by {
                            if a != i && b != i {
                                assert(post[a] == pre[a] && post[b] == pre[b]);
                            } else if a == i {
                                assert(post[b] == pre[b]);
                                assert(pre[a].0@ != pre[b].0@);
                            } else {
                                assert(post[a] == pre[a]);
                                assert(pre[a].0@ != pre[b].0@);
                            }
                        }
                    }
                    lemma_map_of(post);
                    assert forall|key: Seq<char>| #[trigger]
                        map_of(post).dom().contains(key) == map_of(pre).insert(
                            k,
                            v,
                        ).dom().contains(key) by {
                        if map_of(pre).dom().contains(key) {
                            let t = choose|t: int| 0 <= t < pre.len() && (#[trigger] pre[t]).0@ == key;
                            if t != i {
                                assert(post[t] == pre[t]);
                            }
                        }
                        if map_of(post).dom().contains(key) {
                            let t = choose|t: int| 0 <= t < post.len() && (#[trigger] post[t]).0@ == key;
                            if t != i {
                                assert(post[t] == pre[t]);
                            }
                        }
                    }
                    assert forall|key: Seq<char>| #[trigger]
                        map_of(post).dom().contains(key) implies map_of(post)[key] == map_of(
                        pre,
                    ).insert(k, v)[key] by {
                        let t = choose|t: int| 0 <= t < post.len() && (#[trigger] post[t]).0@ == key;
                        if t != i {
                            assert(post[t] == pre[t]);
                        }
                    }
                    assert(map_of(post) =~= map_of(pre).insert(k, v));
                }
            },
            None => {
                let ghost pre = self.entries@;
                self.entries.push((id, v));
                proof {
                    let post = self.entries@;
                    assert(post.drop_last() =~= pre);
                    assert(keys_distinct(post)) by {
                        assert forall|a: int, b: int| 0 <= a < b < post.len() implies (
                        #[trigger] post[a]).0@ != (#[trigger] post[b]).0@ by {
                            assert(post[a] == pre[a]);
                            if b < pre.len() {
                                assert(post[b] == pre[b]);
                            }
                        }
                    }
                }
            },
        }
    }

    /// Removes `id`, giving back its value.
    pub fn remove(&mut self, id: &str) -> (r: Option<V>)
        requires
            old(self).wf(),
        ensures
            final(self).wf(),
            final(self)@ == old(self)@.remove(id@),
            match r {
                Some(v) => old(self)@.dom().contains(id@) && v == old(self)@[id@],
                None => !old(self)@.dom().contains(id@),
            },
    {
        proof {
            lemma_map_of(self.entries@);
        }
        match self.find(id) {
            Some(i) => {
                let ghost pre = self.entries@;
                let (_k, v) = self.entries.remove(i);
                proof {
                    let post = self.entries@;
                    assert(post =~= pre.remove(i as int));
                    assert(keys_distinct(post)) by {
                        assert forall|a: int, b: int| 0 <= a < b < post.len() implies (
                        #[trigger] post[a]).0@ != (#[trigger] post[b]).0@ by {
                            let a2 = if a < i { a } else { a + 1 };
                            let b2 = if b < i { b } else { b + 1 };
                            assert(post[a] == pre[a2]);
                            assert(post[b] == pre[b2]);
                        }
                    }
                    lemma_map_of(post);
                    assert forall|key: Seq<char>| #[trigger]
                        map_of(post).dom().contains(key) == map_of(pre).remove(
                            id@,
                        ).dom().contains(key) by {
                        if map_of(pre).dom().contains(key) && key != id@ {
                            let t = choose|t: int| 0 <= t < pre.len() && (#[trigger] pre[t]).0@ == key;
                            assert(t != i);
                            let t2 = if t < i { t } else { t - 1 };
                            assert(post[t2] == pre[t]);
                        }
                        if map_of(post).dom().contains(key) {
                            let t = choose|t: int| 0 <= t < post.len() && (#[trigger] post[t]).0@ == key;
                            let t2 = if t < i { t } else { t + 1 };
                            assert(post[t] == pre[t2]);
                        }
                    }
                    assert forall|key: Seq<char>| #[trigger]
                        map_of(post).dom().contains(key) implies map_of(post)[key] == map_of(
                        pre,
                    ).remove(id@)[key] by {
                        let t = choose|t: int| 0 <= t < post.len() && (#[trigger] post[t]).0@ == key;
                        let t2 = if t < i { t } else { t + 1 };
                        assert(post[t] == pre[t2]);
                    }
                    assert(map_of(post) =~= map_of(pre).remove(id@));
                }
                Some(v)
            },
            None => {
                assert(self@ =~= self@.remove(id@));
                None
            },
        }
    }

    /// The ids held that are not among `alive`.
    pub fn keys_not_in(&self, alive: &Vec<String>) -> (r: Vec<String>)
        requires
            self.wf(),
        ensures
            ids_set(r@) == self@.dom().difference(ids_set(alive@)),
    {
        proof {
            lemma_map_of(self.entries@);
        }
        let mut out: Vec<String> = Vec::new();
        let mut i: usize = 0;
        while i < self.entries.len()
            invariant
                self.wf(),
                i <= self.entries@.len(),
                ids_set(out@) == prefix_keys(self.entries@, i as int).difference(ids_set(alive@)),
            decreases self.entries@.len() - i,
        {
            let keep = !contains_id(alive, self.entries[i].0.as_str());
            let ghost before = out@;
            if keep {
                out.push(self.entries[i].0.clone());
            }
            proof {
                let e = self.entries@;
                assert forall|k: Seq<char>| #[trigger] ids_set(out@).contains(k) == prefix_keys(
                    e,
                    i + 1,
                ).difference(ids_set(alive@)).contains(k) by {
                    if ids_set(out@).contains(k) {
                        let t = choose|t: int| 0 <= t < out@.len() && (#[trigger] out@[t])@ == k;
                        if t < before.len() {
                            assert(out@[t] == before[t]);
                            assert(ids_set(before).contains(k));
                            let u = choose|u: int| 0 <= u < i && (#[trigger] e[u]).0@ == k;
                            assert(0 <= u < i + 1);
                        } else {
                            assert(e[i as int].0@ == k);
                        }
                    }
                    if prefix_keys(e, i + 1).difference(ids_set(alive@)).contains(k) {
                        let u = choose|u: int| 0 <= u < i + 1 && (#[trigger] e[u]).0@ == k;
                        if u < i {
                            assert(prefix_keys(e, i as int).contains(k));
                            assert(ids_set(before).contains(k));
                            let t = choose|t: int| 0 <= t < before.len() && (#[trigger] before[t])@ == k;
                            assert(out@[t] == before[t]);
                        } else {
                            assert(out@[out@.len() - 1]@ == k);
                        }
                    }
                }
                assert(ids_set(out@) =~= prefix_keys(e, i + 1).difference(ids_set(alive@)));
            }
            i = i + 1;
        }
        proof {
            let e = self.entries@;
            assert forall|k: Seq<char>| #[trigger] prefix_keys(e, e.len() as int).contains(k)
                == self@.dom().contains(k) by {}
            assert(prefix_keys(e, e.len() as int) =~= self@.dom());
        }
        out
    }

    /// Keeps only the ids among `alive`.
    pub fn retain_ids(&mut self, alive: &Vec<String>)
        requires
            old(self).wf(),
        ensures
            final(self).wf(),
            final(self)@ == old(self)@.restrict(ids_set(alive@)),
    {
        let stale = self.keys_not_in(alive);
        let ghost start = self@;
        let mut j: usize = 0;
        while j < stale.len()
            invariant
                self.wf(),
                j <= stale@.len(),
                ids_set(stale@) == start.dom().difference(ids_set(alive@)),
                self@ == start.remove_keys(ids_set(stale@.take(j as int))),
            decreases stale@.len() - j,
        {
            let ghost before = self@;
            self.remove(stale[j].as_str());
            proof {
                let k = stale@[j as int]@;
                assert(ids_set(stale@.take(j + 1)) =~= ids_set(stale@.take(j as int)).insert(k)) by {
                    assert forall|x: Seq<char>| #[trigger] ids_set(stale@.take(j + 1)).contains(x)
                        == ids_set(stale@.take(j as int)).insert(k).contains(x) by {
                        if ids_set(stale@.take(j + 1)).contains(x) {
                            let t = choose|t: int| 0 <= t < j + 1 && (#[trigger] stale@.take(j + 1)[t])@ == x;
                            if t < j {
                                assert(stale@.take(j as int)[t] == stale@.take(j + 1)[t]);
                            }
                        }
                        if ids_set(stale@.take(j as int)).contains(x) {
                            let t = choose|t: int| 0 <= t < j && (#[trigger] stale@.take(j as int)[t])@ == x;
                            assert(stale@.take(j as int)[t] == stale@.take(j + 1)[t]);
                        }
                        if x == k {
                            assert(stale@.take(j + 1)[j as int]@ == x);
                        }
                    }
                }
                assert(self@ =~= start.remove_keys(ids_set(stale@.take(j + 1))));
            }
            j = j + 1;
        }
        proof {
            assert(stale@.take(stale@.len() as int) =~= stale@);
            assert(self@ =~= start.restrict(ids_set(alive@)));
        }
    }
}

proof fn lemma_dom_len<V>(e: Seq<(String, V)>)
    requires
        keys_distinct(e),
    ensures
        map_of(e).dom().finite(),
        map_of(e).dom().len() == e.len(),
    decreases e.len(),
{
    if e.len() > 0 {
        let p = e.drop_last();
        assert(keys_distinct(p)) by {
            assert forall|a: int, b: int| 0 <= a < b < p.len() implies (#[trigger] p[a]).0@ != (
            #[trigger] p[b]).0@ by {
                assert(p[a] == e[a] && p[b] == e[b]);
            }
        }
        lemma_dom_len(p);
        lemma_map_of(p);
        assert(!map_of(p).dom().contains(e.last().0@)) by {
            if map_of(p).dom().contains(e.last().0@) {
                let t = choose|t: int| 0 <= t < p.len() && (#[trigger] p[t]).0@ == e.last().0@;
                assert(p[t] == e[t]);
            }
        }
    }
}

/// The ids of the first `i` entries.
pub open spec fn prefix_keys<V>(e: Seq<(String, V)>, i: int) -> Set<Seq<char>> {
    Set::new(|k: Seq<char>| exists|t: int| 0 <= t < i && (#[trigger] e[t]).0@ == k)
}

/// Whether `k` is the view of one of `ids`.
pub open spec fn in_ids(ids: Seq<String>, k: Seq<char>) -> bool {
    exists|i: int| 0 <= i < ids.len() && (#[trigger] ids[i])@ == k
}

/// The views of `ids`, as a set.
pub open spec fn ids_set(ids: Seq<String>) -> Set<Seq<char>> {
    Set::new(|k: Seq<char>| in_ids(ids, k))
}

/// Whether `id` is one of `ids`.
pub fn contains_id(ids: &Vec<String>, id: &str) -> (r: bool)
    ensures
        r == in_ids(ids@, id@),
{
    let mut i: usize = 0;
    while i < ids.len()
        invariant
            i <= ids@.len(),
            forall|t: int| 0 <= t < i ==> (#[trigger] ids@[t])@ != id@,
        decreases ids@.len() - i,
    {
        if str_eq(ids[i].as_str(), id) {
            return true;
        }
        i = i + 1;
    }
    false
}

} // verus!
