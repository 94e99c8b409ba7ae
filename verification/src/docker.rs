//! What the service makes of the Docker daemon's answers: the container list
//! and the container events.
use vstd::prelude::*;
use vstd::slice::{slice_subrange, slice_to_vec};
use vstd::string::*;

use crate::ids::{short_id, short_id_of};
use crate::logs::{bytes_le, le_bytes};
use crate::text::{chars_of, string_from_chars};
use crate::types::{infos_view, ContainerInfo, ContainerInfoView};

verus! {

/// The lowercase form of a text, as `str::to_lowercase` gives it.
pub uninterp spec fn lowercase(s: Seq<char>) -> Seq<char>;

/// Calls `str::to_lowercase` (std). Trusted: the result is `lowercase(s)`, a
/// function of `s` alone (the Unicode lowercase mapping of std).
#[verifier::external_body]
pub(crate) fn to_lower(s: &str) -> (r: String)
    ensures
        r@ == lowercase(s@),
{
    s.to_lowercase()
}

/// One container as the daemon's list describes it; every field may be missing.
pub struct ContainerSummary {
    pub id: Option<String>,
    pub names: Option<Vec<String>>,
    pub image: Option<String>,
    pub state: Option<String>,
    pub status: Option<String>,
    pub created: Option<i64>,
}

/// `s` without its leading slashes.
pub open spec fn trim_slashes(s: Seq<char>) -> Seq<char>
    decreases s.len(),
{
    if s.len() > 0 && s[0] == '/' {
        trim_slashes(s.drop_first())
    } else {
        s
    }
}

pub open spec fn text_or_empty(o: Option<String>) -> Seq<char> {
    match o {
        Some(s) => s@,
        None => Seq::empty(),
    }
}

/// The name shown for a container: its first name without leading slashes,
/// else its short id.
pub open spec fn display_name(id: Seq<char>, names: Option<Vec<String>>) -> Seq<char> {
    match names {
        Some(n) => if n@.len() > 0 {
            trim_slashes(n@[0]@)
        } else {
            short_id_of(id)
        },
        None => short_id_of(id),
    }
}

/// The record of a listed container; `None` for one without an id.
pub open spec fn info_of(s: ContainerSummary) -> Option<ContainerInfoView> {
    match s.id {
        Some(id) => Some(
            ContainerInfoView {
                id: id@,
                name: display_name(id@, s.names),
                image: text_or_empty(s.image),
                state: text_or_empty(s.state),
                status: text_or_empty(s.status),
                created: match s.created {
                    Some(c) => c,
                    None => 0,
                },
            },
        ),
        None => None,
    }
}

/// The records of the listed containers that have an id, in listing order.
pub open spec fn infos_of(v: Seq<ContainerSummary>) -> Seq<ContainerInfoView>
    decreases v.len(),
{
    if v.len() == 0 {
        seq![]
    } else {
        let p = infos_of(v.drop_last());
        match info_of(v.last()) {
            Some(i) => p.push(i),
            None => p,
        }
    }
}

/// The sort key of a container: its name, lowercased, as UTF-8.
pub open spec fn name_key(c: ContainerInfoView) -> Seq<u8> {
    vstd::utf8::encode_utf8(lowercase(c.name))
}

/// The number of leading elements of `s` whose key is at most `k`.
pub open spec fn first_after(s: Seq<ContainerInfoView>, k: Seq<u8>) -> nat
    decreases s.len(),
{
    if s.len() > 0 && bytes_le(name_key(s[0]), k) {
        1 + first_after(s.drop_first(), k)
    } else {
        0
    }
}

/// `x` inserted into `s` after the leading elements whose key is at most its own.
pub open spec fn insert_by_name(s: Seq<ContainerInfoView>, x: ContainerInfoView) -> Seq<
    ContainerInfoView,
> {
    s.insert(first_after(s, name_key(x)) as int, x)
}

/// `v` sorted by name key, stably (equal keys keep their order).
pub open spec fn sort_by_name(v: Seq<ContainerInfoView>) -> Seq<ContainerInfoView>
    decreases v.len(),
{
    if v.len() == 0 {
        v
    } else {
        insert_by_name(sort_by_name(v.drop_last()), v.last())
    }
}

proof fn lemma_first_after(s: Seq<ContainerInfoView>, k: Seq<u8>, j: int)
    requires
        0 <= j <= s.len(),
        forall|t: int| 0 <= t < j ==> bytes_le(name_key(#[trigger] s[t]), k),
        j == s.len() || !bytes_le(name_key(s[j]), k),
    ensures
        first_after(s, k) == j,
    decreases j,
{
    if j > 0 {
        assert forall|t: int| 0 <= t < j - 1 implies bytes_le(
            name_key(#[trigger] s.drop_first()[t]),
            k,
        ) by {
            assert(s.drop_first()[t] == s[t + 1]);
        }
        lemma_first_after(s.drop_first(), k, j - 1);
    }
}

/// `s` without its leading slashes.
pub fn strip_slashes(s: &str) -> (r: String)
    ensures
        r@ == trim_slashes(s@),
{
    let cs = chars_of(s);
    let mut a: usize = 0;
    assert(cs@.skip(0) =~= cs@);
    while a < cs.len() && cs[a] == '/'
        invariant
            a <= cs@.len(),
            trim_slashes(cs@) == trim_slashes(cs@.skip(a as int)),
        decreases cs@.len() - a,
    {
        assert(cs@.skip(a as int).drop_first() =~= cs@.skip(a + 1));
        a = a + 1;
    }
    let part = slice_subrange(cs.as_slice(), a, cs.len());
    assert(part@ =~= cs@.skip(a as int));
    string_from_chars(part)
}

fn text_or_default(o: Option<String>) -> (r: String)
    ensures
        r@ == text_or_empty(o),
{
    match o {
        Some(s) => s,
        None => String::new(),
    }
}

/// The container records the daemon's list gives, sorted by lowercased name
/// (stably); entries without an id are left out.
pub fn containers_from_summaries(summaries: Vec<ContainerSummary>) -> (r: Vec<ContainerInfo>)
    ensures
        infos_view(r@) == sort_by_name(infos_of(summaries@)),
{
    let ghost all = summaries@;
    let mut keyed: Vec<(Vec<u8>, ContainerInfo)> = Vec::new();
    let mut src = summaries;
    let n = src.len();
    let mut i: usize = 0;
    let mut rev: Vec<ContainerSummary> = Vec::new();
    while src.len() > 0
        invariant
            src@.len() + rev@.len() == n,
            all.len() == n,
            src@ == all.take(src@.len() as int),
            forall|t: int| 0 <= t < rev@.len() ==> #[trigger] rev@[t] == all[n - 1 - t],
        decreases src@.len(),
    {
        let s = src.pop().unwrap();
        rev.push(s);
        assert(src@ =~= all.take(src@.len() as int));
    }
    while i < n
        invariant
            i <= n == all.len(),
            rev@.len() == n - i,
            forall|t: int| 0 <= t < rev@.len() ==> #[trigger] rev@[t] == all[n - 1 - t],
            forall|t: int|
                0 <= t < keyed@.len() ==> (#[trigger] keyed@[t]).0@ == name_key(keyed@[t].1@),
            keyed@.map_values(|p: (Vec<u8>, ContainerInfo)| p.1@) == sort_by_name(
                infos_of(all.take(i as int)),
            ),
        decreases n - i,
    {
        let s = rev.pop().unwrap();
        assert(s == all[i as int]);
        assert(all.take(i + 1).drop_last() =~= all.take(i as int));
        assert(all.take(i + 1).last() == all[i as int]);
        match s.id {
            Some(id) => {
                let name = match s.names {
                    Some(ns) => {
                        if ns.len() > 0 {
                            strip_slashes(ns[0].as_str())
                        } else {
                            short_id(id.as_str())
                        }
                    },
                    None => short_id(id.as_str()),
                };
                let info = ContainerInfo {
                    id,
                    name,
                    image: text_or_default(s.image),
                    state: text_or_default(s.state),
                    status: text_or_default(s.status),
                    created: match s.created {
                        Some(c) => c,
                        None => 0,
                    },
                };
                assert(info_of(all[i as int]) == Some(info@));
                let low = to_lower(info.name.as_str());
                let key = slice_to_vec(low.as_str().as_bytes());
                let ghost sorted = keyed@.map_values(|p: (Vec<u8>, ContainerInfo)| p.1@);
                let mut j: usize = 0;
                while j < keyed.len() && le_bytes(keyed[j].0.as_slice(), key.as_slice())
                    invariant
                        j <= keyed@.len(),
                        sorted == keyed@.map_values(|p: (Vec<u8>, ContainerInfo)| p.1@),
                        key@ == name_key(info@),
                        forall|t: int|
                            0 <= t < keyed@.len() ==> (#[trigger] keyed@[t]).0@ == name_key(
                                keyed@[t].1@,
                            ),
                        forall|t: int| 0 <= t < j ==> bytes_le(name_key(#[trigger] sorted[t]), key@),
                    decreases keyed@.len() - j,
                {
                    assert(sorted[j as int] == keyed@[j as int].1@);
                    j = j + 1;
                }
                proof {
                    if j < keyed@.len() {
                        assert(sorted[j as int] == keyed@[j as int].1@);
                    }
                    lemma_first_after(sorted, key@, j as int);
                }
                let ghost iv = info@;
                let ghost kv = key@;
                let ghost pre = keyed@;
                keyed.insert(j, (key, info));
                assert(keyed@.map_values(|p: (Vec<u8>, ContainerInfo)| p.1@) =~= sorted.insert(
                    j as int,
                    iv,
                ));
                proof {
                    assert forall|t: int| 0 <= t < keyed@.len() implies (#[trigger] keyed@[t]).0@
                        == name_key(keyed@[t].1@) by {
                        if t < j {
                            assert(keyed@[t] == pre[t]);
                        } else if t > j {
                            assert(keyed@[t] == pre[t - 1]);
                        }
                    }
                    let x = infos_of(all.take(i as int));
                    assert(infos_of(all.take(i + 1)) == x.push(iv));
                    assert(x.push(iv).drop_last() =~= x);
                    assert(sort_by_name(x.push(iv)) == insert_by_name(sort_by_name(x), iv));
                }
            },
            None => {
                assert(info_of(all[i as int]).is_none());
                assert(infos_of(all.take(i + 1)) == infos_of(all.take(i as int)));
            },
        }
        i = i + 1;
    }
    assert(all.take(n as int) =~= all);
    let ghost sorted = keyed@.map_values(|p: (Vec<u8>, ContainerInfo)| p.1@);
    let mut out: Vec<ContainerInfo> = Vec::new();
    let mut back: Vec<ContainerInfo> = Vec::new();
    while keyed.len() > 0
        invariant
            keyed@.map_values(|p: (Vec<u8>, ContainerInfo)| p.1@) == sorted.take(keyed@.len() as int),
            keyed@.len() + back@.len() == sorted.len(),
            forall|t: int| 0 <= t < back@.len() ==> (#[trigger] back@[t])@ == sorted[sorted.len() - 1 - t],
        decreases keyed@.len(),
    {
        let ghost kv = keyed@.map_values(|p: (Vec<u8>, ContainerInfo)| p.1@);
        let (_k, c) = keyed.pop().unwrap();
        assert(c@ == kv[kv.len() - 1]);
        assert(kv[kv.len() - 1] == sorted[kv.len() - 1]);
        back.push(c);
        assert(keyed@.map_values(|p: (Vec<u8>, ContainerInfo)| p.1@) =~= sorted.take(keyed@.len() as int));
    }
    while back.len() > 0
        invariant
            out@.len() + back@.len() == sorted.len(),
            forall|t: int| 0 <= t < back@.len() ==> (#[trigger] back@[t])@ == sorted[sorted.len() - 1 - t],
            infos_view(out@) == sorted.take(out@.len() as int),
        decreases back@.len(),
    {
        let c = back.pop().unwrap();
        let ghost cv = c@;
        let ghost before = infos_view(out@);
        out.push(c);
        assert(infos_view(out@) =~= before.push(cv));
        assert(infos_view(out@) =~= sorted.take(out@.len() as int));
    }
    assert(sorted.take(sorted.len() as int) =~= sorted);
    out
}

/// A container event: what happened (`start`, `die`, ...) to which container.
pub struct ContainerEvent {
    pub action: String,
    pub id: String,
}

impl ContainerEvent {
    /// The event a daemon message describes, if it names both an action and a container.
    pub fn from_parts(action: Option<String>, id: Option<String>) -> (r: Option<ContainerEvent>)
        ensures
            match (action, id) {
                (Some(a), Some(i)) => r is Some && r->0.action@ == a@ && r->0.id@ == i@,
                _ => r is None,
            },
    {
        match (action, id) {
            (Some(action), Some(id)) => Some(ContainerEvent { action, id }),
            _ => None,
        }
    }
}

/// Whether `s` is ordered by name key.
pub open spec fn sorted_by_name(s: Seq<ContainerInfoView>) -> bool {
    forall|i: int, j: int|
        0 <= i < j < s.len() ==> bytes_le(name_key(#[trigger] s[i]), name_key(#[trigger] s[j]))
}

proof fn lemma_first_after_bounds(s: Seq<ContainerInfoView>, k: Seq<u8>)
    ensures
        first_after(s, k) <= s.len(),
        forall|t: int| 0 <= t < first_after(s, k) ==> bytes_le(name_key(#[trigger] s[t]), k),
        first_after(s, k) < s.len() ==> !bytes_le(name_key(s[first_after(s, k) as int]), k),
    decreases s.len(),
{
    if s.len() > 0 && bytes_le(name_key(s[0]), k) {
        let d = s.drop_first();
        lemma_first_after_bounds(d, k);
        assert forall|t: int| 0 <= t < first_after(s, k) implies bytes_le(
            name_key(#[trigger] s[t]),
            k,
        ) by {
            if t > 0 {
                assert(s[t] == d[t - 1]);
            }
        }
        if first_after(s, k) < s.len() {
            assert(s[first_after(s, k) as int] == d[first_after(d, k) as int]);
        }
    }
}

proof fn lemma_insert_keeps_sorted(s: Seq<ContainerInfoView>, x: ContainerInfoView)
    requires
        sorted_by_name(s),
    ensures
        sorted_by_name(insert_by_name(s, x)),
{
    let k = name_key(x);
    let p = first_after(s, k) as int;
    lemma_first_after_bounds(s, k);
    let r = insert_by_name(s, x);
    assert(r.len() == s.len() + 1);
    assert forall|i: int, j: int| 0 <= i < j < r.len() implies bytes_le(
        name_key(#[trigger] r[i]),
        name_key(#[trigger] r[j]),
    ) by {
        let si = if i < p {
            i
        } else {
            i - 1
        };
        let sj = if j < p {
            j
        } else {
            j - 1
        };
        if i != p && j != p {
            assert(r[i] == s[si]);
            assert(r[j] == s[sj]);
            if si == sj {
                crate::logs::lemma_bytes_le_total(name_key(s[si]), name_key(s[sj]));
            }
        } else if j == p {
            assert(r[j] == x);
            assert(r[i] == s[i]);
        } else {
            assert(r[i] == x);
            assert(r[j] == s[j - 1]);
            crate::logs::lemma_bytes_le_total(name_key(s[p]), k);
            if j - 1 > p {
                crate::logs::lemma_bytes_le_trans(k, name_key(s[p]), name_key(s[j - 1]));
            }
        }
    }
}

/// The `k`-th listed summary, when it has an id, has its record at a
/// position (returned) of the records of the listing.
proof fn lemma_infos_index(v: Seq<ContainerSummary>, k: int) -> (j: int)
    requires
        0 <= k < v.len(),
        v[k].id is Some,
    ensures
        0 <= j < infos_of(v).len(),
        info_of(v[k]) == Some(infos_of(v)[j]),
    decreases v.len(),
{
    let p = v.drop_last();
    if k == v.len() - 1 {
        infos_of(p).len() as int
    } else {
        let j = lemma_infos_index(p, k);
        assert(p[k] == v[k]);
        j
    }
}

/// Sorting keeps every element: the `k`-th element of `v` is at a position
/// (returned) of the sorted list.
proof fn lemma_sort_index(v: Seq<ContainerInfoView>, k: int) -> (j: int)
    requires
        0 <= k < v.len(),
    ensures
        0 <= j < sort_by_name(v).len(),
        sort_by_name(v)[j] == v[k],
    decreases v.len(),
{
    let p = v.drop_last();
    let sp = sort_by_name(p);
    law_listing_sorted_permutation(p);
    assert(sp.len() == p.len()) by {
        assert(sp.to_multiset().len() == p.to_multiset().len());
        vstd::seq_lib::lemma_multiset_commutative(sp, seq![]);
        sp.to_multiset_ensures();
        p.to_multiset_ensures();
    }
    lemma_first_after_bounds(sp, name_key(v.last()));
    let at = first_after(sp, name_key(v.last())) as int;
    if k == v.len() - 1 {
        at
    } else {
        let j = lemma_sort_index(p, k);
        assert(p[k] == v[k]);
        if j < at {
            j
        } else {
            j + 1
        }
    }
}

/// Every listed container with an id has a record in the list (at the
/// position returned) with that id and, field for field, what the daemon
/// gave: its state, its status (each empty when missing, and neither taken
/// from the other), its image, its creation time (0 when missing) and its
/// display name.
pub proof fn law_listing_records(summaries: Seq<ContainerSummary>, k: int) -> (j: int)
    requires
        0 <= k < summaries.len(),
        summaries[k].id is Some,
    ensures
        0 <= j < sort_by_name(infos_of(summaries)).len(),
        sort_by_name(infos_of(summaries))[j].id == summaries[k].id->0@,
        sort_by_name(infos_of(summaries))[j].state == match summaries[k].state {
            Some(x) => x@,
            None => Seq::<char>::empty(),
        },
        sort_by_name(infos_of(summaries))[j].status == match summaries[k].status {
            Some(x) => x@,
            None => Seq::<char>::empty(),
        },
        sort_by_name(infos_of(summaries))[j].image == match summaries[k].image {
            Some(x) => x@,
            None => Seq::<char>::empty(),
        },
        sort_by_name(infos_of(summaries))[j].created == match summaries[k].created {
            Some(c) => c,
            None => 0,
        },
        sort_by_name(infos_of(summaries))[j].name == display_name(
            summaries[k].id->0@,
            summaries[k].names,
        ),
{
    let i = lemma_infos_index(summaries, k);
    lemma_sort_index(infos_of(summaries), i)
}

/// The container list is in order of lowercased name, and holds exactly the
/// listed containers that have an id, each once as often as listed.
pub proof fn law_listing_sorted_permutation(v: Seq<ContainerInfoView>)
    ensures
        sorted_by_name(sort_by_name(v)),
        sort_by_name(v).to_multiset() == v.to_multiset(),
    decreases v.len(),
{
    if v.len() > 0 {
        let p = v.drop_last();
        law_listing_sorted_permutation(p);
        lemma_insert_keeps_sorted(sort_by_name(p), v.last());
        let sp = sort_by_name(p);
        lemma_first_after_bounds(sp, name_key(v.last()));
        vstd::seq_lib::to_multiset_insert(sp, first_after(sp, name_key(v.last())) as int, v.last());
        vstd::seq_lib::to_multiset_build(p, v.last());
        assert(p.push(v.last()) =~= v);
    } else {
        assert(sort_by_name(v) == v);
    }
}

} // verus!
