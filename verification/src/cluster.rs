//! Stop clustering: stops that share a short name and lie close together
//! become one graph node. The node id is the XOR of the deduplicated, sorted
//! member stop ids, which makes it independent of input order; the node
//! coordinate is the arithmetic centroid of the members.

use vstd::prelude::*;

verus! {

use std::collections::HashMap;
use crate::graph::StopNode;
use crate::parser::NetexData;
use crate::parser::ScheduledStopPoint;

/// Where a clustered stop came from and which node swallowed it.
#[derive(Clone, Copy)]
pub struct Indices {
    pub node: usize,
    pub data: usize,
    pub stop: usize,
}

/// The clustered nodes with the two lookup tables the later stages need:
/// original stop id to indices, and node content id to node index.
pub struct Nodes {
    pub vec: Vec<StopNode>,
    pub ref_map: HashMap<u64, Indices>,
    pub id_map: HashMap<u64, usize>,
}

impl Nodes {
    /// Every table entry points at a real node.
    pub open spec fn wf(self) -> bool {
        &&& forall|r: u64|
            self.ref_map@.contains_key(r) ==> (#[trigger] self.ref_map@[r]).node < self.vec@.len()
        &&& forall|id: u64|
            self.id_map@.contains_key(id) ==> (#[trigger] self.id_map@[id]) < self.vec@.len()
    }

    /// The node at a position.
    pub fn get(&self, idx: usize) -> (r: &StopNode)
        requires
            idx < self.vec@.len(),
        ensures
            *r == self.vec@[idx as int],
    {
        &self.vec[idx]
    }

    /// Looks a node up by its content id.
    pub fn index_by_id(&self, id: u64) -> (r: Option<usize>)
        ensures
            match r {
                Some(idx) => self.id_map@.contains_key(id) && idx == self.id_map@[id],
                None => !self.id_map@.contains_key(id),
            },
    {
        match self.id_map.get(&id) {
            Some(idx) => Some(*idx),
            None => None,
        }
    }

    /// Looks the swallowing node up by an original stop id.
    pub fn index_by_stop_ref(&self, stop_ref: u64) -> (r: Option<&Indices>)
        ensures
            match r {
                Some(ind) => self.ref_map@.contains_key(stop_ref) && *ind
                    == self.ref_map@[stop_ref],
                None => !self.ref_map@.contains_key(stop_ref),
            },
    {
        self.ref_map.get(&stop_ref)
    }
}

/// Strictly ascending: sorted with no duplicates.
pub open spec fn strictly_sorted(s: Seq<u64>) -> bool {
    forall|i: int, j: int| 0 <= i < j < s.len() ==> s[i] < s[j]
}

/// XOR of all elements, left to right.
pub open spec fn xor_fold(s: Seq<u64>) -> u64
    decreases s.len(),
{
    if s.len() == 0 {
        0
    } else {
        xor_fold(s.drop_last()) ^ s.last()
    }
}

/// The one strictly ascending sequence that carries exactly the given set.
pub open spec fn canon_seq(s: Set<u64>) -> Seq<u64> {
    choose|q: Seq<u64>| strictly_sorted(q) && q.to_set() == s
}

/// The content id of a cluster: XOR over its member ids, each counted once,
/// in ascending order. A function of the id set alone.
pub open spec fn cluster_id_of(s: Set<u64>) -> u64 {
    xor_fold(canon_seq(s))
}

/// Two strictly ascending sequences over the same set are the same sequence.
proof fn lemma_strictly_sorted_unique(a: Seq<u64>, b: Seq<u64>)
    requires
        strictly_sorted(a),
        strictly_sorted(b),
        a.to_set() == b.to_set(),
    ensures
        a == b,
    decreases a.len(),
{
    if a.len() == 0 {
        if b.len() > 0 {
            assert(b.to_set().contains(b[0]));
            assert(a.contains(b[0]));
        }
        assert(a =~= b);
    } else {
        assert(a.to_set().contains(a[0]));
        assert(b.contains(a[0]));
        assert(b.to_set().contains(b[0]));
        assert(a.contains(b[0]));
        let ja = choose|j: int| 0 <= j < b.len() && b[j] == a[0];
        let jb = choose|j: int| 0 <= j < a.len() && a[j] == b[0];
        assert(b[0] <= b[ja]);
        assert(a[0] <= a[jb]);
        assert(a[0] == b[0]);
        let at = a.drop_first();
        let bt = b.drop_first();
        assert(strictly_sorted(at)) by {
            assert(forall|i: int, j: int|
                0 <= i < j < at.len() ==> at[i] == a[i + 1] && at[j] == a[j + 1]);
        }
        assert(strictly_sorted(bt)) by {
            assert(forall|i: int, j: int|
                0 <= i < j < bt.len() ==> bt[i] == b[i + 1] && bt[j] == b[j + 1]);
        }
        assert(at.to_set() =~= bt.to_set()) by {
            assert forall|x: u64| at.to_set().contains(x) implies bt.to_set().contains(x) by {
                assert(at.contains(x));
                let i = choose|i: int| 0 <= i < at.len() && at[i] == x;
                assert(a[i + 1] == x);
                assert(x > a[0]);
                assert(a.to_set().contains(x));
                assert(b.contains(x));
                let j = choose|j: int| 0 <= j < b.len() && b[j] == x;
                assert(j != 0);
                assert(bt[j - 1] == x);
            }
            assert forall|x: u64| bt.to_set().contains(x) implies at.to_set().contains(x) by {
                assert(bt.contains(x));
                let i = choose|i: int| 0 <= i < bt.len() && bt[i] == x;
                assert(b[i + 1] == x);
                assert(x > b[0]);
                assert(b.to_set().contains(x));
                assert(a.contains(x));
                let j = choose|j: int| 0 <= j < a.len() && a[j] == x;
                assert(j != 0);
                assert(at[j - 1] == x);
            }
        }
        lemma_strictly_sorted_unique(at, bt);
        assert(a.len() == b.len());
        assert forall|m: int| 0 <= m < a.len() implies a[m] == b[m] by {
            if m > 0 {
                assert(at[m - 1] == bt[m - 1]);
            }
        }
        assert(a =~= b);
    }
}

/// The cluster id is invariant under reordering and duplication of the
/// member ids: inputs with equal id sets get equal ids, whatever order the
/// documents arrived in. (The invariance is per cluster: a shuffle that
/// changes which stop seeds a box can still change the partition itself,
/// and with it the id sets.)
pub proof fn lemma_cluster_id_permutation_invariant(a: Seq<u64>, b: Seq<u64>)
    requires
        a.to_set() == b.to_set(),
    ensures
        cluster_id_of(a.to_set()) == cluster_id_of(b.to_set()),
{
}

/// Sorts ids ascending (duplicates kept).
fn sort_ids(ids: &mut Vec<u64>)
    ensures
        final(ids)@.to_multiset() == old(ids)@.to_multiset(),
        forall|i: int, j: int| 0 <= i < j < final(ids)@.len() ==> final(ids)@[i] <= final(ids)@[j],
{
    let n: usize = ids.len();
    let mut i: usize = 1;
    while i < n
        invariant
            1 <= i <= n || (n == 0 && i == 1),
            n == ids@.len(),
            ids@.to_multiset() == old(ids)@.to_multiset(),
            forall|p: int, q: int| 0 <= p < q < i ==> ids@[p] <= ids@[q],
        decreases n - i,
    {
        let mut k: usize = i;
        while k > 0 && ids[k - 1] > ids[k]
            invariant
                0 <= k <= i < n,
                n == ids@.len(),
                ids@.to_multiset() == old(ids)@.to_multiset(),
                forall|p: int, q: int| 0 <= p < q <= i && q != k ==> ids@[p] <= ids@[q],
                forall|q: int| k < q <= i ==> ids@[k as int] <= ids@[q],
            decreases k,
        {
            let ghost pre = ids@;
            let tmp_a: u64 = ids[k - 1];
            let tmp_b: u64 = ids[k];
            ids[k - 1] = tmp_b;
            ids[k] = tmp_a;
            proof {
                assert(ids@ =~= pre.update(k - 1, pre[k as int]).update(k as int, pre[k - 1]));
                assert(ids@.to_multiset() == pre.to_multiset()) by {
                    lemma_swap_multiset(pre, ids@, k - 1, k as int);
                }
            }
            k -= 1;
        }
        i += 1;
    }
}

/// Swapping two positions keeps the multiset.
proof fn lemma_swap_multiset(a: Seq<u64>, b: Seq<u64>, i: int, j: int)
    requires
        0 <= i < j < a.len(),
        b =~= a.update(i, a[j]).update(j, a[i]),
    ensures
        a.to_multiset() == b.to_multiset(),
{
    broadcast use vstd::seq_lib::to_multiset_update;

    let inner = a.update(i, a[j]);
    a.to_multiset_ensures();
    inner.to_multiset_ensures();
    b.to_multiset_ensures();
    assert(inner.to_multiset() == a.to_multiset().insert(a[j]).remove(a[i]));
    assert(inner[j] == a[j]);
    assert(inner[i] == a[j]);
    assert(b == inner.update(j, a[i]));
    assert(b.to_multiset() == inner.to_multiset().insert(a[i]).remove(a[j]));
    assert(a.to_multiset().contains(a[i]));
    assert(a.to_multiset().contains(a[j]));
    assert(b.to_multiset() =~= a.to_multiset());
}

/// Removes adjacent duplicates from a sorted vector: the result is strictly
/// ascending and carries the same set.
fn dedup_sorted(ids: &Vec<u64>) -> (r: Vec<u64>)
    requires
        forall|i: int, j: int| 0 <= i < j < ids@.len() ==> ids@[i] <= ids@[j],
    ensures
        strictly_sorted(r@),
        r@.to_set() == ids@.to_set(),
        ids@.len() > 0 ==> r@.len() > 0,
{
    let mut out: Vec<u64> = Vec::new();
    let mut i: usize = 0;
    while i < ids.len()
        invariant
            0 <= i <= ids@.len(),
            forall|p: int, q: int| 0 <= p < q < ids@.len() ==> ids@[p] <= ids@[q],
            strictly_sorted(out@),
            out@.to_set() =~= ids@.take(i as int).to_set(),
            i > 0 ==> out@.len() > 0 && out@.last() == ids@[i - 1],
            out@.len() > 0 ==> i > 0,
        decreases ids@.len() - i,
    {
        let v: u64 = ids[i];
        let ghost out0 = out@;
        if out.len() == 0 {
            out.push(v);
        } else {
            let last: u64 = out[out.len() - 1];
            if last != v {
                proof {
                    assert(last == ids@[i - 1]);
                    assert(ids@[i - 1] <= ids@[i as int]);
                    assert(last < v);
                    assert(forall|p: int|
                        0 <= p < out@.len() ==> #[trigger] out@[p] <= out@[out@.len() - 1]);
                }
                out.push(v);
            }
        }
        proof {
            assert(out@ == out0 || out@ == out0.push(v));
            assert(out@.contains(v)) by {
                if out@ == out0 {
                    assert(out0[out0.len() - 1] == v);
                } else {
                    assert(out@[out@.len() - 1] == v);
                }
            }
            assert(out@.to_set() =~= ids@.take(i + 1).to_set()) by {
                assert forall|x: u64| ids@.take(i + 1).to_set().contains(x) implies
                    out@.to_set().contains(x) by {
                    assert(ids@.take(i + 1).contains(x));
                    let p = choose|p: int|
                        0 <= p < ids@.take(i + 1).len() && #[trigger] ids@.take(i + 1)[p] == x;
                    if p < i {
                        assert(ids@.take(i as int)[p] == x);
                        assert(ids@.take(i as int).contains(x));
                        assert(out0.to_set().contains(x));
                        assert(out0.contains(x));
                        let q = choose|q: int| 0 <= q < out0.len() && out0[q] == x;
                        assert(out@[q] == x);
                        assert(out@.contains(x));
                    } else {
                        assert(x == v);
                    }
                }
                assert forall|x: u64| out@.to_set().contains(x) implies ids@.take(
                    i + 1,
                ).to_set().contains(x) by {
                    assert(out@.contains(x));
                    let q = choose|q: int| 0 <= q < out@.len() && out@[q] == x;
                    if q < out0.len() {
                        assert(out0[q] == x);
                        assert(out0.contains(x));
                        assert(out0.to_set().contains(x));
                        assert(ids@.take(i as int).contains(x));
                        let p = choose|p: int|
                            0 <= p < ids@.take(i as int).len() && #[trigger] ids@.take(
                                i as int,
                            )[p] == x;
                        assert(ids@.take(i + 1)[p] == x);
                        assert(ids@.take(i + 1).contains(x));
                    } else {
                        assert(x == v);
                        assert(ids@.take(i + 1)[i as int] == v);
                        assert(ids@.take(i + 1).contains(v));
                    }
                }
            }
        }
        i += 1;
    }
    proof {
        assert(ids@.take(ids@.len() as int) =~= ids@);
    }
    out
}

/// XOR of the elements, left to right.
fn xor_ids(ids: &Vec<u64>) -> (r: u64)
    ensures
        r == xor_fold(ids@),
{
    let mut acc: u64 = 0;
    let mut i: usize = 0;
    while i < ids.len()
        invariant
            0 <= i <= ids@.len(),
            acc == xor_fold(ids@.take(i as int)),
        decreases ids@.len() - i,
    {
        proof {
            assert(ids@.take(i + 1).drop_last() =~= ids@.take(i as int));
            assert(ids@.take(i + 1).last() == ids@[i as int]);
        }
        acc = acc ^ ids[i];
        i += 1;
    }
    proof {
        assert(ids@.take(ids@.len() as int) =~= ids@);
    }
    acc
}

/// The content id of a cluster, from the (possibly unsorted, possibly
/// repeating) member stop ids: XOR over the deduplicated ids in ascending
/// order, a function of the id set alone.
pub fn cluster_id(ids: Vec<u64>) -> (r: u64)
    ensures
        r == cluster_id_of(ids@.to_set()),
{
    let ghost orig = ids@;
    let mut ids = ids;
    sort_ids(&mut ids);
    proof {
        orig.to_multiset_ensures();
        ids@.to_multiset_ensures();
        assert(ids@.to_set() =~= orig.to_set()) by {
            assert forall|x: u64| ids@.to_set().contains(x) implies orig.to_set().contains(x) by {
                assert(ids@.contains(x));
                assert(ids@.to_multiset().count(x) > 0);
                assert(orig.to_multiset().count(x) > 0);
            }
            assert forall|x: u64| orig.to_set().contains(x) implies ids@.to_set().contains(x) by {
                assert(orig.contains(x));
                assert(orig.to_multiset().count(x) > 0);
                assert(ids@.to_multiset().count(x) > 0);
            }
        }
    }
    let unique = dedup_sorted(&ids);
    let r = xor_ids(&unique);
    proof {
        let q = canon_seq(orig.to_set());
        assert(strictly_sorted(unique@) && unique@.to_set() == orig.to_set());
        assert(strictly_sorted(q) && q.to_set() == orig.to_set());
        lemma_strictly_sorted_unique(unique@, q);
    }
    r
}

/// One short-name bucket: the stops that share this name.
pub struct Bucket {
    pub name: String,
    pub members: Vec<(usize, usize)>,
}

/// The member points into the corpus: a document and a stop inside it.
pub open spec fn valid_stop_index(data: Seq<NetexData>, m: (usize, usize)) -> bool {
    m.0 < data.len() && m.1 < data[m.0 as int].scheduled_stop_points@.len()
}

/// The short name of the stop a member points at.
pub open spec fn stop_name_at(data: Seq<NetexData>, m: (usize, usize)) -> Seq<char> {
    data[m.0 as int].scheduled_stop_points@[m.1 as int].short_name@
}

/// Buckets are sound: members point at real stops whose name is the bucket
/// name, and no two buckets share a name.
pub open spec fn buckets_wf(data: Seq<NetexData>, buckets: Seq<Bucket>) -> bool {
    &&& forall|b: int, m: int|
        0 <= b < buckets.len() && 0 <= m < buckets[b].members@.len() ==> valid_stop_index(
            data,
            #[trigger] buckets[b].members@[m],
        ) && stop_name_at(data, buckets[b].members@[m]) == buckets[b].name@
    &&& forall|b1: int, b2: int|
        0 <= b1 < b2 < buckets.len() ==> (#[trigger] buckets[b1].name@) != (
        #[trigger] buckets[b2].name@)
}

/// The stop `(d, s)` sits in some bucket.
pub open spec fn bucket_member(buckets: Seq<Bucket>, d: int, s: int) -> bool {
    exists|b: int, m: int|
        0 <= b < buckets.len() && 0 <= m < buckets[b].members@.len()
            && (#[trigger] buckets[b].members@[m]).0 == d && buckets[b].members@[m].1 == s
}

/// Every stop of the corpus sits in some bucket.
pub open spec fn buckets_complete(data: Seq<NetexData>, buckets: Seq<Bucket>) -> bool {
    forall|d: int, s: int|
        0 <= d < data.len() && 0 <= s < data[d].scheduled_stop_points@.len() ==> bucket_member(
            buckets,
            d,
            s,
        )
}

/// Index of the bucket carrying this name, if one exists.
fn find_bucket(buckets: &Vec<Bucket>, name: &str) -> (r: Option<usize>)
    ensures
        match r {
            Some(b) => b < buckets@.len() && buckets@[b as int].name@ == name@,
            None => forall|b: int| 0 <= b < buckets@.len() ==> (#[trigger] buckets@[b].name@)
                != name@,
        },
{
    let mut b: usize = 0;
    while b < buckets.len()
        invariant
            0 <= b <= buckets@.len(),
            forall|k: int| 0 <= k < b ==> (#[trigger] buckets@[k].name@) != name@,
        decreases buckets@.len() - b,
    {
        if crate::strutil::str_eq(buckets[b].name.as_str(), name) {
            return Some(b);
        }
        b += 1;
    }
    None
}

/// Groups every stop of the corpus by its short name, in first-seen order.
/// Each stop lands in exactly the bucket carrying its name, and every
/// bucket holds at least one stop (so its name is some stop's name).
pub fn bucket_stops(data: &Vec<NetexData>) -> (r: Vec<Bucket>)
    ensures
        buckets_wf(data@, r@),
        buckets_complete(data@, r@),
        forall|b: int| 0 <= b < r@.len() ==> (#[trigger] r@[b]).members@.len() > 0,
{
    let mut buckets: Vec<Bucket> = Vec::new();
    let mut d: usize = 0;
    while d < data.len()
        invariant
            0 <= d <= data@.len(),
            buckets_wf(data@, buckets@),
            forall|b: int| 0 <= b < buckets@.len() ==> (#[trigger] buckets@[b]).members@.len() > 0,
            forall|dd: int, ss: int|
                0 <= dd < d && 0 <= ss < data@[dd].scheduled_stop_points@.len() ==> bucket_member(
                    buckets@,
                    dd,
                    ss,
                ),
        decreases data@.len() - d,
    {
        let stops_len: usize = data[d].scheduled_stop_points.len();
        let mut s: usize = 0;
        while s < stops_len
            invariant
                0 <= s <= stops_len,
                d < data@.len(),
                stops_len == data@[d as int].scheduled_stop_points@.len(),
                buckets_wf(data@, buckets@),
                forall|b: int|
                    0 <= b < buckets@.len() ==> (#[trigger] buckets@[b]).members@.len() > 0,
                forall|dd: int, ss: int|
                    0 <= dd < d && 0 <= ss < data@[dd].scheduled_stop_points@.len()
                        ==> bucket_member(buckets@, dd, ss),
                forall|ss: int| 0 <= ss < s ==> bucket_member(buckets@, d as int, ss),
            decreases stops_len - s,
        {
            let ghost pre = buckets@;
            let name_owned: String = data[d].scheduled_stop_points[s].short_name.clone();
            match find_bucket(&buckets, name_owned.as_str()) {
                Some(b) => {
                    let members = &mut buckets[b].members;
                    members.push((d, s));
                    proof {
                        let bi = b as int;
                        assert(buckets@[bi].members@ == pre[bi].members@.push((d, s)));
                        assert(buckets@[bi].name@ == pre[bi].name@);
                        assert(forall|k: int|
                            0 <= k < buckets@.len() && k != bi ==> buckets@[k] == pre[k]);
                        assert(buckets_wf(data@, buckets@)) by {
                            assert forall|bb: int, mm: int|
                                0 <= bb < buckets@.len() && 0 <= mm
                                    < buckets@[bb].members@.len() implies valid_stop_index(
                                data@,
                                #[trigger] buckets@[bb].members@[mm],
                            ) && stop_name_at(data@, buckets@[bb].members@[mm])
                                == buckets@[bb].name@ by {
                                if bb == bi && mm == pre[bi].members@.len() {
                                    assert(buckets@[bb].members@[mm] == (d, s));
                                } else if bb == bi {
                                    assert(buckets@[bb].members@[mm] == pre[bb].members@[mm]);
                                } else {
                                    assert(buckets@[bb] == pre[bb]);
                                }
                            }
                        }
                        assert forall|dd: int, ss: int|
                            (0 <= dd < d && 0 <= ss < data@[dd].scheduled_stop_points@.len()) || (
                            dd == d && 0 <= ss <= s) implies bucket_member(buckets@, dd, ss) by {
                            if dd == d && ss == s {
                                assert(buckets@[bi].members@[pre[bi].members@.len() as int].0
                                    == d);
                            } else {
                                assert(bucket_member(pre, dd, ss));
                                let (b0, m0) = choose|b0: int, m0: int|
                                    0 <= b0 < pre.len() && 0 <= m0 < pre[b0].members@.len()
                                        && (#[trigger] pre[b0].members@[m0]).0 == dd
                                        && pre[b0].members@[m0].1 == ss;
                                assert(buckets@[b0].members@[m0].0 == dd);
                                assert(buckets@[b0].members@[m0].1 == ss);
                            }
                        }
                    }
                },
                None => {
                    let members: Vec<(usize, usize)> = vec![(d, s)];
                    proof {
                        assert(members@ =~= seq![(d, s)]);
                    }
                    buckets.push(Bucket { name: name_owned, members });
                    proof {
                        let bi = pre.len() as int;
                        assert(buckets@[bi].members@[0].0 == d);
                        assert(buckets_wf(data@, buckets@)) by {
                            assert forall|bb: int, mm: int|
                                0 <= bb < buckets@.len() && 0 <= mm
                                    < buckets@[bb].members@.len() implies valid_stop_index(
                                data@,
                                #[trigger] buckets@[bb].members@[mm],
                            ) && stop_name_at(data@, buckets@[bb].members@[mm])
                                == buckets@[bb].name@ by {
                                if bb == bi {
                                    assert(buckets@[bb].members@[mm] == (d, s));
                                } else {
                                    assert(buckets@[bb] == pre[bb]);
                                }
                            }
                        }
                        assert forall|dd: int, ss: int|
                            (0 <= dd < d && 0 <= ss < data@[dd].scheduled_stop_points@.len()) || (
                            dd == d && 0 <= ss <= s) implies bucket_member(buckets@, dd, ss) by {
                            if dd == d && ss == s {
                                assert(buckets@[bi].members@[0].0 == d);
                            } else {
                                assert(bucket_member(pre, dd, ss));
                                let (b0, m0) = choose|b0: int, m0: int|
                                    0 <= b0 < pre.len() && 0 <= m0 < pre[b0].members@.len()
                                        && (#[trigger] pre[b0].members@[m0]).0 == dd
                                        && pre[b0].members@[m0].1 == ss;
                                assert(buckets@[b0].members@[m0].0 == dd);
                                assert(buckets@[b0].members@[m0].1 == ss);
                            }
                        }
                    }
                },
            }
            s += 1;
        }
        d += 1;
    }
    buckets
}

/// How many flags are still set.
pub open spec fn count_true(s: Seq<bool>) -> int
    decreases s.len(),
{
    if s.len() == 0 {
        0
    } else {
        count_true(s.drop_last()) + if s.last() {
            1int
        } else {
            0int
        }
    }
}

/// The count is bounded by the length.
proof fn lemma_count_true_bounds(s: Seq<bool>)
    ensures
        0 <= count_true(s) <= s.len(),
    decreases s.len(),
{
    if s.len() > 0 {
        lemma_count_true_bounds(s.drop_last());
    }
}

/// Clearing a set flag lowers the count by one.
proof fn lemma_count_true_clear(s: Seq<bool>, i: int)
    requires
        0 <= i < s.len(),
        s[i],
    ensures
        count_true(s.update(i, false)) == count_true(s) - 1,
    decreases s.len(),
{
    let t = s.update(i, false);
    if i == s.len() - 1 {
        assert(t.drop_last() =~= s.drop_last());
    } else {
        assert(t.drop_last() =~= s.drop_last().update(i, false));
        lemma_count_true_clear(s.drop_last(), i);
        assert(t.last() == s.last());
    }
}

/// The element `x` sits in one of the first `upto` clusters.
pub open spec fn assigned_in(cs: Seq<Vec<usize>>, upto: int, x: usize) -> bool {
    exists|c: int, m: int|
        0 <= c < upto && 0 <= m < cs[c]@.len() && (#[trigger] cs[c]@[m]) == x
}

/// Clusters are sound with respect to a bucket of `n` stops and its
/// proximity relation: nonempty, ascending, in range, and every member lies
/// in the box around the cluster's seed (its first element).
pub open spec fn clusters_wf(cs: Seq<Vec<usize>>, n: int, in_box: Seq<Vec<bool>>) -> bool {
    &&& forall|c: int| 0 <= c < cs.len() ==> (#[trigger] cs[c])@.len() > 0
    &&& forall|c: int, m: int|
        0 <= c < cs.len() && 0 <= m < cs[c]@.len() ==> (#[trigger] cs[c]@[m]) < n
    &&& forall|c: int, m1: int, m2: int|
        0 <= c < cs.len() && 0 <= m1 < m2 < cs[c]@.len() ==> (#[trigger] cs[c]@[m1]) < (
        #[trigger] cs[c]@[m2])
    &&& forall|c: int, m: int|
        0 <= c < cs.len() && 0 <= m < cs[c]@.len() ==> ((#[trigger] cs[c]@[m]) == cs[c]@[0]
            || in_box[cs[c]@[0] as int]@[cs[c]@[m] as int])
}

/// No element appears in two different clusters.
pub open spec fn clusters_disjoint(cs: Seq<Vec<usize>>) -> bool {
    forall|c1: int, m1: int, c2: int, m2: int|
        0 <= c1 < c2 < cs.len() && 0 <= m1 < cs[c1]@.len() && 0 <= m2 < cs[c2]@.len() ==> (
        #[trigger] cs[c1]@[m1]) != (#[trigger] cs[c2]@[m2])
}

/// No cluster leaves a stop behind: every stop that is not in an earlier
/// cluster and lies in the box around a cluster's seed belongs to that
/// cluster.
pub open spec fn clusters_maximal(cs: Seq<Vec<usize>>, n: int, in_box: Seq<Vec<bool>>) -> bool {
    forall|c: int, y: usize|
        0 <= c < cs.len() && y < n && !(#[trigger] assigned_in(cs, c, y)) && (y == cs[c]@[0]
            || in_box[cs[c]@[0] as int]@[y as int]) ==> cs[c]@.contains(y)
}

/// Each cluster's seed is the lowest index not yet assigned: everything
/// below it sits in an earlier cluster.
pub open spec fn seeds_lowest(cs: Seq<Vec<usize>>) -> bool {
    forall|c: int, y: usize|
        0 <= c < cs.len() && (y as int) < cs[c]@[0] ==> #[trigger] assigned_in(cs, c, y)
}

/// Index of the first set flag, if any.
fn find_true(remaining: &Vec<bool>) -> (r: Option<usize>)
    ensures
        match r {
            Some(i) => i < remaining@.len() && remaining@[i as int] && (forall|y: int|
                0 <= y < i ==> !remaining@[y]),
            None => forall|y: int| 0 <= y < remaining@.len() ==> !remaining@[y],
        },
{
    let mut i: usize = 0;
    while i < remaining.len()
        invariant
            0 <= i <= remaining@.len(),
            forall|y: int| 0 <= y < i ==> !remaining@[y],
        decreases remaining@.len() - i,
    {
        if remaining[i] {
            return Some(i);
        }
        i += 1;
    }
    None
}

/// Partitions the stops `0 .. n` of one bucket into clusters: repeatedly
/// take the lowest unassigned stop as seed and extract every unassigned
/// stop inside the box around it (the relation `in_box`, which the caller
/// computed from the stop coordinates). The result covers every stop
/// exactly once.
pub fn cluster_bucket(n: usize, in_box: &Vec<Vec<bool>>) -> (r: Vec<Vec<usize>>)
    requires
        in_box@.len() == n,
        forall|i: int| 0 <= i < n ==> (#[trigger] in_box@[i])@.len() == n,
    ensures
        clusters_wf(r@, n as int, in_box@),
        clusters_disjoint(r@),
        clusters_maximal(r@, n as int, in_box@),
        seeds_lowest(r@),
        forall|x: usize| x < n ==> assigned_in(r@, r@.len() as int, x),
{
    let mut clusters: Vec<Vec<usize>> = Vec::new();
    let mut remaining: Vec<bool> = Vec::new();
    let mut i: usize = 0;
    while i < n
        invariant
            0 <= i <= n,
            remaining@.len() == i,
            forall|y: int| 0 <= y < i ==> remaining@[y],
        decreases n - i,
    {
        remaining.push(true);
        i += 1;
    }
    let mut done: bool = false;
    while !done
        invariant
            remaining@.len() == n,
            in_box@.len() == n,
            forall|i: int| 0 <= i < n ==> (#[trigger] in_box@[i])@.len() == n,
            clusters_wf(clusters@, n as int, in_box@),
            clusters_disjoint(clusters@),
            clusters_maximal(clusters@, n as int, in_box@),
            seeds_lowest(clusters@),
            forall|x: usize|
                x < n ==> (assigned_in(clusters@, clusters@.len() as int, x) <==> !remaining@[x as int]),
            done ==> forall|y: int| 0 <= y < n ==> !remaining@[y],
        decreases count_true(remaining@), (if done { 0int } else { 1int }),
    {
        proof {
            lemma_count_true_bounds(remaining@);
        }
        match find_true(&remaining) {
            None => {
                done = true;
            },
            Some(seed) => {
                let ghost rem0 = remaining@;
                let ghost cs0 = clusters@;
                let mut cl: Vec<usize> = Vec::new();
                let mut x: usize = 0;
                while x < n
                    invariant
                        0 <= x <= n,
                        seed < n,
                        remaining@.len() == n,
                        rem0.len() == n,
                        in_box@.len() == n,
                        forall|i: int| 0 <= i < n ==> (#[trigger] in_box@[i])@.len() == n,
                        rem0[seed as int],
                        forall|y: int| 0 <= y < seed ==> !rem0[y],
                        // the cluster so far: ascending, below x, box-bound to the seed
                        forall|m1: int, m2: int|
                            0 <= m1 < m2 < cl@.len() ==> (#[trigger] cl@[m1]) < (
                            #[trigger] cl@[m2]),
                        forall|m: int| 0 <= m < cl@.len() ==> (#[trigger] cl@[m]) < x,
                        cl@.len() > 0 ==> cl@[0] == seed,
                        x > seed ==> cl@.len() > 0,
                        forall|m: int|
                            0 <= m < cl@.len() ==> ((#[trigger] cl@[m]) == seed
                                || in_box@[seed as int]@[cl@[m] as int]),
                        forall|y: usize|
                            y < x && rem0[y as int] && (y == seed || in_box@[seed as int]@[y as int])
                                ==> cl@.contains(y),
                        // what was taken out of `remaining` is exactly `cl`
                        forall|y: usize|
                            y < n ==> (remaining@[y as int] <==> (rem0[y as int] && !cl@.contains(
                                y,
                            ))),
                        forall|m: int| 0 <= m < cl@.len() ==> rem0[(#[trigger] cl@[m]) as int],
                        count_true(remaining@) == count_true(rem0) - cl@.len(),
                    decreases n - x,
                {
                    let ghost cl_entry = cl@;
                    if remaining[x] && (x == seed || in_box[seed][x]) {
                        let ghost cl_pre = cl@;
                        let ghost rem_pre = remaining@;
                        proof {
                            if cl_pre.len() == 0 {
                                assert(rem_pre[x as int]);
                                assert(rem0[x as int]);
                                assert(x >= seed);
                                assert(x == seed);
                            }
                        }
                        cl.push(x);
                        remaining[x] = false;
                        proof {
                            lemma_count_true_clear(rem_pre, x as int);
                            assert(remaining@ =~= rem_pre.update(x as int, false));
                            assert forall|y: usize|
                                y < n implies (remaining@[y as int] <==> (rem0[y as int]
                                && !cl@.contains(y))) by {
                                if y == x {
                                    assert(cl@[cl@.len() - 1] == x);
                                    assert(cl@.contains(x));
                                } else {
                                    assert(remaining@[y as int] == rem_pre[y as int]);
                                    assert(cl@.contains(y) == cl_pre.contains(y)) by {
                                        if cl_pre.contains(y) {
                                            let m = choose|m: int|
                                                0 <= m < cl_pre.len() && cl_pre[m] == y;
                                            assert(cl@[m] == y);
                                        }
                                        if cl@.contains(y) {
                                            let m = choose|m: int|
                                                0 <= m < cl@.len() && cl@[m] == y;
                                            assert(m < cl_pre.len());
                                            assert(cl_pre[m] == y);
                                        }
                                    }
                                }
                            }
                        }
                    }
                    proof {
                        assert forall|y: usize|
                            y < x + 1 && rem0[y as int] && (y == seed || in_box@[seed as int]@[y as int])
                            implies cl@.contains(y) by {
                            if y < x {
                                assert(cl_entry.contains(y));
                                let m = choose|m: int| 0 <= m < cl_entry.len() && cl_entry[m] == y;
                                assert(cl@[m] == y);
                            } else {
                                assert(cl@.contains(y)) by {
                                    if !cl_entry.contains(y) {
                                        assert(cl@[cl@.len() - 1] == y);
                                    } else {
                                        let m = choose|m: int|
                                            0 <= m < cl_entry.len() && cl_entry[m] == y;
                                        assert(cl@[m] == y);
                                    }
                                }
                            }
                        }
                    }
                    x += 1;
                }
                proof {
                    assert(cl@.len() > 0);
                    assert(cl@[0] == seed);
                }
                let ghost cl_final = cl@;
                clusters.push(cl);
                proof {
                    let ci = cs0.len() as int;
                    assert(clusters@[ci]@ == cl_final);
                    assert(forall|c: int| 0 <= c < ci ==> clusters@[c] == cs0[c]);
                    assert(clusters_wf(clusters@, n as int, in_box@)) by {
                        assert forall|c: int, m: int|
                            0 <= c < clusters@.len() && 0 <= m < clusters@[c]@.len() implies ((
                        #[trigger] clusters@[c]@[m]) == clusters@[c]@[0] || in_box@[clusters@[c]@[0] as int]@[clusters@[c]@[m] as int])
                            by {
                            if c < ci {
                                assert(clusters@[c] == cs0[c]);
                            }
                        }
                        assert forall|c: int, m: int|
                            0 <= c < clusters@.len() && 0 <= m < clusters@[c]@.len() implies (
                        #[trigger] clusters@[c]@[m]) < n by {
                            if c < ci {
                                assert(clusters@[c] == cs0[c]);
                            }
                        }
                        assert forall|c: int, m1: int, m2: int|
                            0 <= c < clusters@.len() && 0 <= m1 < m2 < clusters@[c]@.len() implies (
                        #[trigger] clusters@[c]@[m1]) < (#[trigger] clusters@[c]@[m2]) by {
                            if c < ci {
                                assert(clusters@[c] == cs0[c]);
                            }
                        }
                    }
                    assert(clusters_disjoint(clusters@)) by {
                        assert forall|c1: int, m1: int, c2: int, m2: int|
                            0 <= c1 < c2 < clusters@.len() && 0 <= m1 < clusters@[c1]@.len() && 0
                            <= m2 < clusters@[c2]@.len() implies (#[trigger] clusters@[c1]@[m1])
                            != (#[trigger] clusters@[c2]@[m2]) by {
                            if c2 == ci {
                                assert(clusters@[c1] == cs0[c1]);
                                let y = clusters@[c2]@[m2];
                                assert(cl_final.contains(y));
                                assert(rem0[y as int]);
                                assert(!assigned_in(cs0, cs0.len() as int, y));
                                assert(clusters@[c1]@[m1] == cs0[c1]@[m1]);
                                if cs0[c1]@[m1] == y {
                                    assert(assigned_in(cs0, cs0.len() as int, y));
                                }
                            } else {
                                assert(clusters@[c1] == cs0[c1]);
                                assert(clusters@[c2] == cs0[c2]);
                            }
                        }
                    }
                    assert forall|x: usize|
                        x < n implies (assigned_in(clusters@, clusters@.len() as int, x) <==> !remaining@[x as int])
                        by {
                        if assigned_in(clusters@, clusters@.len() as int, x) {
                            let (c, m) = choose|c: int, m: int|
                                0 <= c < clusters@.len() && 0 <= m < clusters@[c]@.len()
                                    && (#[trigger] clusters@[c]@[m]) == x;
                            if c == ci {
                                assert(cl_final[m] == x);
                                assert(cl_final.contains(x));
                                assert(!remaining@[x as int]);
                            } else {
                                assert(cs0[c]@[m] == x);
                                assert(assigned_in(cs0, cs0.len() as int, x));
                                assert(!rem0[x as int]);
                                assert(!remaining@[x as int]);
                            }
                        }
                        if !remaining@[x as int] {
                            if rem0[x as int] {
                                assert(cl_final.contains(x));
                                let m = choose|m: int| 0 <= m < cl_final.len() && cl_final[m] == x;
                                assert(clusters@[ci]@[m] == x);
                                assert(assigned_in(clusters@, clusters@.len() as int, x));
                            } else {
                                assert(assigned_in(cs0, cs0.len() as int, x));
                                let (c, m) = choose|c: int, m: int|
                                    0 <= c < cs0.len() && 0 <= m < cs0[c]@.len()
                                        && (#[trigger] cs0[c]@[m]) == x;
                                assert(clusters@[c]@[m] == x);
                                assert(assigned_in(clusters@, clusters@.len() as int, x));
                            }
                        }
                    }
                    assert(clusters_maximal(clusters@, n as int, in_box@)) by {
                        assert forall|c: int, y: usize|
                            0 <= c < clusters@.len() && y < n && !(#[trigger] assigned_in(
                                clusters@,
                                c,
                                y,
                            )) && (y == clusters@[c]@[0]
                                || in_box@[clusters@[c]@[0] as int]@[y as int]) implies
                            clusters@[c]@.contains(y) by {
                            if c < ci {
                                assert(clusters@[c] == cs0[c]);
                                assert(!assigned_in(cs0, c, y)) by {
                                    if assigned_in(cs0, c, y) {
                                        let (c2, m2) = choose|c2: int, m2: int|
                                            0 <= c2 < c && 0 <= m2 < cs0[c2]@.len()
                                                && (#[trigger] cs0[c2]@[m2]) == y;
                                        assert(clusters@[c2]@[m2] == y);
                                    }
                                }
                                assert(cs0[c]@.contains(y));
                            } else {
                                assert(!assigned_in(cs0, cs0.len() as int, y)) by {
                                    if assigned_in(cs0, cs0.len() as int, y) {
                                        let (c2, m2) = choose|c2: int, m2: int|
                                            0 <= c2 < cs0.len() && 0 <= m2 < cs0[c2]@.len()
                                                && (#[trigger] cs0[c2]@[m2]) == y;
                                        assert(clusters@[c2]@[m2] == y);
                                        assert(assigned_in(clusters@, c, y));
                                    }
                                }
                                assert(rem0[y as int]);
                                assert(clusters@[ci]@[0] == seed);
                                assert(cl_final.contains(y));
                            }
                        }
                    }
                    assert(seeds_lowest(clusters@)) by {
                        assert forall|c: int, y: usize|
                            0 <= c < clusters@.len() && (y as int)
                                < clusters@[c]@[0] implies #[trigger] assigned_in(
                            clusters@,
                            c,
                            y,
                        ) by {
                            if c < ci {
                                assert(clusters@[c] == cs0[c]);
                                assert(assigned_in(cs0, c, y));
                                let (c2, m2) = choose|c2: int, m2: int|
                                    0 <= c2 < c && 0 <= m2 < cs0[c2]@.len()
                                        && (#[trigger] cs0[c2]@[m2]) == y;
                                assert(clusters@[c2]@[m2] == y);
                            } else {
                                assert(clusters@[c]@[0] == seed);
                                assert(!rem0[y as int]);
                                assert(assigned_in(cs0, cs0.len() as int, y));
                                let (c2, m2) = choose|c2: int, m2: int|
                                    0 <= c2 < cs0.len() && 0 <= m2 < cs0[c2]@.len()
                                        && (#[trigger] cs0[c2]@[m2]) == y;
                                assert(clusters@[c2]@[m2] == y);
                            }
                        }
                    }
                    assert(count_true(remaining@) < count_true(rem0));
                    lemma_count_true_bounds(remaining@);
                }
            },
        }
    }
    proof {
        assert forall|x: usize| x < n implies assigned_in(
            clusters@,
            clusters@.len() as int,
            x,
        ) by {
            assert(!remaining@[x as int]);
        }
    }
    clusters
}

/// The stop a member points at.
pub open spec fn stop_of(data: Seq<NetexData>, m: (usize, usize)) -> ScheduledStopPoint {
    data[m.0 as int].scheduled_stop_points@[m.1 as int]
}

/// Sum of the longitudes of the cluster's member stops.
pub open spec fn sum_longs(data: Seq<NetexData>, b: Bucket, cl: Seq<usize>) -> int
    decreases cl.len(),
{
    if cl.len() == 0 {
        0
    } else {
        sum_longs(data, b, cl.drop_last()) + stop_of(
            data,
            b.members@[cl.last() as int],
        ).long as int
    }
}

/// Sum of the latitudes of the cluster's member stops.
pub open spec fn sum_lats(data: Seq<NetexData>, b: Bucket, cl: Seq<usize>) -> int
    decreases cl.len(),
{
    if cl.len() == 0 {
        0
    } else {
        sum_lats(data, b, cl.drop_last()) + stop_of(data, b.members@[cl.last() as int]).lat as int
    }
}

/// The mean with the remainder dropped toward zero.
pub open spec fn mean_trunc(sum: int, n: int) -> int {
    if sum >= 0 {
        sum / n
    } else {
        -((-sum) / n)
    }
}

/// Truncating division of a bounded sum by the member count.
fn div_trunc(sum: i128, n: usize, bound: i64) -> (r: i64)
    requires
        n > 0,
        0 < bound <= 180000000,
        -bound * n <= sum <= bound * n,
    ensures
        r == mean_trunc(sum as int, n as int),
        -bound <= r <= bound,
{
    proof {
        assert(n as int <= u64::MAX as int);
        assert((bound as int) * (n as int) < 0x40000000000000000000000000000000) by (nonlinear_arith)
            requires
                0 <= bound <= 180000000,
                0 <= n <= 0xFFFFFFFFFFFFFFFFu64,
        ;
        assert((-(bound as int)) * (n as int) == -((bound as int) * (n as int)))
            by (nonlinear_arith);
    }
    if sum >= 0 {
        proof {
            vstd::arithmetic::div_mod::lemma_div_is_ordered(
                sum as int,
                (bound as int) * (n as int),
                n as int,
            );
            vstd::arithmetic::div_mod::lemma_div_multiples_vanish(bound as int, n as int);
            assert((bound as int) * (n as int) == (n as int) * (bound as int)) by (nonlinear_arith);
            vstd::arithmetic::div_mod::lemma_div_pos_is_pos(sum as int, n as int);
        }
        let q: u128 = (sum as u128) / (n as u128);
        q as i64
    } else {
        proof {
            vstd::arithmetic::div_mod::lemma_div_is_ordered(
                -(sum as int),
                (bound as int) * (n as int),
                n as int,
            );
            vstd::arithmetic::div_mod::lemma_div_multiples_vanish(bound as int, n as int);
            assert((bound as int) * (n as int) == (n as int) * (bound as int)) by (nonlinear_arith);
            vstd::arithmetic::div_mod::lemma_div_pos_is_pos(-(sum as int), n as int);
        }
        let mag: u128 = (-sum) as u128;
        let q: u128 = mag / (n as u128);
        -(q as i64)
    }
}

/// The centroid of one cluster: the arithmetic mean of the member stop
/// coordinates, each stop counted once, truncated toward zero.
pub fn centroid_of(data: &Vec<NetexData>, bucket: &Bucket, cl: &Vec<usize>) -> (r: (i64, i64))
    requires
        cl@.len() > 0,
        forall|k: int| 0 <= k < cl@.len() ==> (#[trigger] cl@[k]) < bucket.members@.len(),
        forall|k: int|
            0 <= k < cl@.len() ==> valid_stop_index(
                data@,
                #[trigger] bucket.members@[cl@[k] as int],
            ),
        forall|k: int|
            0 <= k < cl@.len() ==> crate::parser::stop_wf(
                stop_of(data@, #[trigger] bucket.members@[cl@[k] as int]),
            ),
    ensures
        r.0 == mean_trunc(sum_longs(data@, *bucket, cl@), cl@.len() as int),
        r.1 == mean_trunc(sum_lats(data@, *bucket, cl@), cl@.len() as int),
        -180000000 <= r.0 <= 180000000,
        -90000000 <= r.1 <= 90000000,
{
    let mut sum_long: i128 = 0;
    let mut sum_lat: i128 = 0;
    let mut k: usize = 0;
    while k < cl.len()
        invariant
            0 <= k <= cl@.len(),
            forall|m: int| 0 <= m < cl@.len() ==> (#[trigger] cl@[m]) < bucket.members@.len(),
            forall|m: int|
                0 <= m < cl@.len() ==> valid_stop_index(
                    data@,
                    #[trigger] bucket.members@[cl@[m] as int],
                ),
            forall|m: int|
                0 <= m < cl@.len() ==> crate::parser::stop_wf(
                    stop_of(data@, #[trigger] bucket.members@[cl@[m] as int]),
                ),
            sum_long == sum_longs(data@, *bucket, cl@.take(k as int)),
            sum_lat == sum_lats(data@, *bucket, cl@.take(k as int)),
            -180000000 * k <= sum_long <= 180000000 * k,
            -90000000 * k <= sum_lat <= 90000000 * k,
        decreases cl@.len() - k,
    {
        let m = cl[k];
        let member = bucket.members[m];
        let stop = &data[member.0].scheduled_stop_points[member.1];
        proof {
            assert(cl@.take(k + 1).drop_last() =~= cl@.take(k as int));
            assert(cl@.take(k + 1).last() == cl@[k as int]);
            assert(crate::parser::stop_wf(stop_of(data@, bucket.members@[cl@[k as int] as int])));
        }
        sum_long = sum_long + stop.long as i128;
        sum_lat = sum_lat + stop.lat as i128;
        k += 1;
    }
    proof {
        assert(cl@.take(cl@.len() as int) =~= cl@);
    }
    let count: usize = cl.len();
    let cx: i64 = div_trunc(sum_long, count, 180000000);
    let cy: i64 = div_trunc(sum_lat, count, 90000000);
    (cx, cy)
}

/// The original stop ids of a cluster's members, in cluster order.
pub open spec fn member_ids(data: Seq<NetexData>, b: Bucket, cl: Seq<usize>) -> Seq<u64> {
    Seq::new(cl.len(), |j: int| stop_of(data, b.members@[cl[j] as int]).id)
}

/// The node is what one cluster of one bucket yields: its name is the
/// bucket's, its id is the XOR of the distinct member stop ids, its
/// coordinates are the equal-weight centroid of the members (truncated
/// toward zero), the members are listed ascending, and every member lies in
/// the box around the cluster's seed.
pub open spec fn node_from_cluster(
    data: Seq<NetexData>,
    buckets: Seq<Bucket>,
    boxes: Seq<Vec<Vec<bool>>>,
    b: int,
    cl: Seq<usize>,
    node: StopNode,
) -> bool {
    &&& 0 <= b < buckets.len()
    &&& cl.len() > 0
    &&& forall|m: int| 0 <= m < cl.len() ==> (#[trigger] cl[m]) < buckets[b].members@.len()
    &&& forall|m1: int, m2: int| 0 <= m1 < m2 < cl.len() ==> cl[m1] < cl[m2]
    &&& node.short_name@ == buckets[b].name@
    &&& node.id == cluster_id_of(member_ids(data, buckets[b], cl).to_set())
    &&& node.long == mean_trunc(sum_longs(data, buckets[b], cl), cl.len() as int)
    &&& node.lat == mean_trunc(sum_lats(data, buckets[b], cl), cl.len() as int)
    &&& forall|m: int|
        0 <= m < cl.len() ==> ((#[trigger] cl[m]) == cl[0] || boxes[b]@[cl[0] as int]@[cl[m] as int])
}

/// Some node among the first `upto` claims member `y` of bucket `b`.
pub open spec fn member_claimed_before(
    assign: Seq<(int, Seq<usize>)>,
    upto: int,
    b: int,
    y: usize,
) -> bool {
    exists|idx: int|
        0 <= idx < upto && (#[trigger] assign[idx]).0 == b && assign[idx].1.contains(y)
}

/// The lookup entry points at the node whose cluster holds this very stop:
/// the stored document/stop indices are a member of the claiming node's
/// cluster, and that stop carries the looked-up id.
pub open spec fn ref_entry_ok(
    data: Seq<NetexData>,
    buckets: Seq<Bucket>,
    assign: Seq<(int, Seq<usize>)>,
    id: u64,
    ind: Indices,
) -> bool {
    exists|y: usize|
        0 <= (ind.node as int) < assign.len() && (y as int)
            < buckets[assign[ind.node as int].0].members@.len() && (#[trigger] assign[
            ind.node as int
        ].1.contains(y)) && buckets[assign[ind.node as int].0].members@[y as int] == (
            ind.data,
            ind.stop,
        ) && stop_of(data, (ind.data, ind.stop)).id == id
}

/// The state of a partition under construction: one cluster per node, the
/// clusters of one bucket pairwise disjoint, none leaving an in-box stop
/// unclaimed, and every lookup entry pointing into its claiming cluster.
pub open spec fn partition_so_far(
    data: Seq<NetexData>,
    buckets: Seq<Bucket>,
    boxes: Seq<Vec<Vec<bool>>>,
    assign: Seq<(int, Seq<usize>)>,
    vec: Seq<StopNode>,
    ref_map: Map<u64, Indices>,
) -> bool {
    &&& assign.len() == vec.len()
    &&& forall|idx: int|
        0 <= idx < vec.len() ==> node_from_cluster(
            data,
            buckets,
            boxes,
            (#[trigger] assign[idx]).0,
            assign[idx].1,
            vec[idx],
        )
    &&& forall|i1: int, i2: int, y: usize|
        0 <= i1 < i2 < assign.len() && assign[i1].0 == assign[i2].0 && (#[trigger] assign[
            i1
        ].1.contains(y)) ==> !(#[trigger] assign[i2].1.contains(y))
    &&& forall|idx: int, y: usize|
        0 <= idx < assign.len() && (y as int) < buckets[assign[idx].0].members@.len()
            && !(#[trigger] member_claimed_before(assign, idx, assign[idx].0, y)) && (y
            == assign[idx].1[0] || boxes[assign[idx].0]@[assign[idx].1[0] as int]@[y as int])
            ==> assign[idx].1.contains(y)
    &&& forall|id: u64|
        ref_map.contains_key(id) ==> ref_entry_ok(data, buckets, assign, id, #[trigger] ref_map[id])
}

/// A finished partition: the construction state plus full coverage — every
/// member of every bucket is claimed by exactly one node.
pub open spec fn nodes_partition(
    data: Seq<NetexData>,
    buckets: Seq<Bucket>,
    boxes: Seq<Vec<Vec<bool>>>,
    assign: Seq<(int, Seq<usize>)>,
    vec: Seq<StopNode>,
    ref_map: Map<u64, Indices>,
) -> bool {
    &&& partition_so_far(data, buckets, boxes, assign, vec, ref_map)
    &&& forall|b: int, y: usize|
        0 <= b < buckets.len() && (y as int) < buckets[b].members@.len()
            ==> #[trigger] member_claimed_before(assign, assign.len() as int, b, y)
}

/// The node list is one node per cluster of a disjoint, covering,
/// box-maximal partition of the bucketed stops, with the stop-lookup table
/// pointing into the claiming clusters.
pub open spec fn nodes_partitioned(
    data: Seq<NetexData>,
    buckets: Seq<Bucket>,
    boxes: Seq<Vec<Vec<bool>>>,
    vec: Seq<StopNode>,
    ref_map: Map<u64, Indices>,
) -> bool {
    exists|assign: Seq<(int, Seq<usize>)>|
        #[trigger] nodes_partition(data, buckets, boxes, assign, vec, ref_map)
}

/// The node is what some cluster of some bucket yields.
pub open spec fn node_clustered(
    data: Seq<NetexData>,
    buckets: Seq<Bucket>,
    boxes: Seq<Vec<Vec<bool>>>,
    node: StopNode,
) -> bool {
    exists|b: int, cl: Seq<usize>| node_from_cluster(data, buckets, boxes, b, cl, node)
}

impl Nodes {
/// Builds the node table from the buckets, the proximity relation of each
/// bucket (as the caller computed it from the coordinates), and the corpus.
/// Every entry of both lookup tables points at a real node, and a node
/// index looked up by content id carries that id.
#[verifier::rlimit(100)]
#[verifier::spinoff_prover]
pub fn from_data(
    data: &Vec<NetexData>,
    buckets: &Vec<Bucket>,
    boxes: &Vec<Vec<Vec<bool>>>,
) -> (r: Nodes)
    requires
        buckets_wf(data@, buckets@),
        forall|d: int| 0 <= d < data@.len() ==> crate::parser::data_wf(#[trigger] data@[d]),
        boxes@.len() == buckets@.len(),
        forall|b: int|
            0 <= b < buckets@.len() ==> (#[trigger] boxes@[b])@.len() == buckets@[b].members@.len(),
        forall|b: int, i: int|
            0 <= b < buckets@.len() && 0 <= i < boxes@[b]@.len() ==> (#[trigger] boxes@[b]@[i])@.len()
                == buckets@[b].members@.len(),
    ensures
        r.wf(),
        forall|id: u64|
            r.id_map@.contains_key(id) ==> r.vec@[(#[trigger] r.id_map@[id]) as int].id == id,
        // every node can be found again through its content id
        forall|idx: int|
            0 <= idx < r.vec@.len() ==> r.id_map@.contains_key((#[trigger] r.vec@[idx]).id),
        // every bucketed stop was swallowed by some node
        forall|b: int, m: int|
            0 <= b < buckets@.len() && 0 <= m < buckets@[b].members@.len()
                ==> r.ref_map@.contains_key(
                stop_of(data@, #[trigger] buckets@[b].members@[m]).id,
            ),
        // every node is what one cluster of one bucket yields
        forall|idx: int|
            0 <= idx < r.vec@.len() ==> node_clustered(
                data@,
                buckets@,
                boxes@,
                #[trigger] r.vec@[idx],
            ),
        // the nodes are one per cluster of a disjoint, covering, box-maximal
        // partition, and the lookup table points into the claiming clusters
        nodes_partitioned(data@, buckets@, boxes@, r.vec@, r.ref_map@),
{
    let ghost mut assign: Seq<(int, Seq<usize>)> = Seq::empty();
    let mut vec: Vec<StopNode> = Vec::new();
    let mut ref_map: HashMap<u64, Indices> = HashMap::new();
    let mut id_map: HashMap<u64, usize> = HashMap::new();
    let mut b: usize = 0;
    while b < buckets.len()
        invariant
            0 <= b <= buckets@.len(),
            buckets_wf(data@, buckets@),
            forall|d: int| 0 <= d < data@.len() ==> crate::parser::data_wf(#[trigger] data@[d]),
            boxes@.len() == buckets@.len(),
            forall|bb: int|
                0 <= bb < buckets@.len() ==> (#[trigger] boxes@[bb])@.len()
                    == buckets@[bb].members@.len(),
            forall|bb: int, i: int|
                0 <= bb < buckets@.len() && 0 <= i < boxes@[bb]@.len() ==> (
                #[trigger] boxes@[bb]@[i])@.len() == buckets@[bb].members@.len(),
            forall|rr: u64|
                ref_map@.contains_key(rr) ==> (#[trigger] ref_map@[rr]).node < vec@.len(),
            forall|id: u64| id_map@.contains_key(id) ==> (#[trigger] id_map@[id]) < vec@.len(),
            forall|id: u64|
                id_map@.contains_key(id) ==> vec@[(#[trigger] id_map@[id]) as int].id == id,
            forall|idx: int|
                0 <= idx < vec@.len() ==> id_map@.contains_key((#[trigger] vec@[idx]).id),
            forall|bb: int, m: int|
                0 <= bb < b && 0 <= m < buckets@[bb].members@.len() ==> ref_map@.contains_key(
                    stop_of(data@, #[trigger] buckets@[bb].members@[m]).id,
                ),
            forall|idx: int|
                0 <= idx < vec@.len() ==> node_clustered(
                    data@,
                    buckets@,
                    boxes@,
                    #[trigger] vec@[idx],
                ),
            partition_so_far(data@, buckets@, boxes@, assign, vec@, ref_map@),
            forall|i: int| 0 <= i < assign.len() ==> (#[trigger] assign[i]).0 < b as int,
            forall|bb: int, y: usize|
                0 <= bb < b && (y as int) < buckets@[bb].members@.len()
                    ==> #[trigger] member_claimed_before(assign, assign.len() as int, bb, y),
        decreases buckets@.len() - b,
    {
        let members_len: usize = buckets[b].members.len();
        let clusters = cluster_bucket(members_len, &boxes[b]);
        let ghost assign0 = assign;
        let mut c: usize = 0;
        while c < clusters.len()
            invariant
                0 <= c <= clusters@.len(),
                b < buckets@.len(),
                buckets_wf(data@, buckets@),
                forall|d: int| 0 <= d < data@.len() ==> crate::parser::data_wf(#[trigger] data@[d]),
                members_len == buckets@[b as int].members@.len(),
                clusters_wf(clusters@, members_len as int, boxes@[b as int]@),
                forall|rr: u64|
                    ref_map@.contains_key(rr) ==> (#[trigger] ref_map@[rr]).node < vec@.len(),
                forall|id: u64| id_map@.contains_key(id) ==> (#[trigger] id_map@[id]) < vec@.len(),
                forall|id: u64|
                    id_map@.contains_key(id) ==> vec@[(#[trigger] id_map@[id]) as int].id == id,
                forall|idx: int|
                    0 <= idx < vec@.len() ==> id_map@.contains_key((#[trigger] vec@[idx]).id),
                forall|bb: int, m: int|
                    0 <= bb < b && 0 <= m < buckets@[bb].members@.len() ==> ref_map@.contains_key(
                        stop_of(data@, #[trigger] buckets@[bb].members@[m]).id,
                    ),
                forall|x: usize|
                    x < members_len && #[trigger] assigned_in(clusters@, c as int, x)
                        ==> ref_map@.contains_key(
                        stop_of(data@, buckets@[b as int].members@[x as int]).id,
                    ),
                boxes@.len() == buckets@.len(),
                clusters_wf(clusters@, members_len as int, boxes@[b as int]@),
                forall|idx: int|
                    0 <= idx < vec@.len() ==> node_clustered(
                        data@,
                        buckets@,
                        boxes@,
                        #[trigger] vec@[idx],
                    ),
                partition_so_far(data@, buckets@, boxes@, assign, vec@, ref_map@),
                clusters_disjoint(clusters@),
                clusters_maximal(clusters@, members_len as int, boxes@[b as int]@),
                assign.len() == assign0.len() + c,
                forall|i: int| 0 <= i < assign0.len() ==> #[trigger] assign[i] == assign0[i],
                forall|i: int| 0 <= i < assign0.len() ==> (#[trigger] assign[i]).0 < b as int,
                forall|i: int|
                    assign0.len() <= i < assign.len() ==> (#[trigger] assign[i]).0 == b as int
                        && assign[i].1 == clusters@[i - assign0.len()]@,
                forall|bb: int, y: usize|
                    0 <= bb < b && (y as int) < buckets@[bb].members@.len()
                        ==> #[trigger] member_claimed_before(assign, assign.len() as int, bb, y),
                forall|y: usize|
                    y < members_len && #[trigger] assigned_in(clusters@, c as int, y)
                        ==> member_claimed_before(assign, assign.len() as int, b as int, y),
            decreases clusters@.len() - c,
        {
            let cl = &clusters[c];
            let mut ids: Vec<u64> = Vec::new();
            let mut k: usize = 0;
            while k < cl.len()
                invariant
                    0 <= k <= cl@.len(),
                    b < buckets@.len(),
                    c < clusters@.len(),
                    cl == clusters@[c as int],
                    buckets_wf(data@, buckets@),
                    members_len == buckets@[b as int].members@.len(),
                    clusters_wf(clusters@, members_len as int, boxes@[b as int]@),
                    ids@.len() == k,
                    forall|j: int|
                        0 <= j < k ==> #[trigger] ids@[j] == stop_of(
                            data@,
                            buckets@[b as int].members@[cl@[j] as int],
                        ).id,
                decreases cl@.len() - k,
            {
                proof {
                    assert(cl@[k as int] < members_len);
                    assert(valid_stop_index(data@, buckets@[b as int].members@[cl@[k as int] as int]));
                }
                let member = buckets[b].members[cl[k]];
                ids.push(data[member.0].scheduled_stop_points[member.1].id);
                k += 1;
            }
            let node_id: u64 = cluster_id(ids);
            proof {
                assert forall|m: int| 0 <= m < cl@.len() implies valid_stop_index(
                    data@,
                    #[trigger] buckets@[b as int].members@[cl@[m] as int],
                ) by {
                    assert(cl@[m] < members_len);
                }
                assert forall|m: int| 0 <= m < cl@.len() implies crate::parser::stop_wf(
                    stop_of(data@, #[trigger] buckets@[b as int].members@[cl@[m] as int]),
                ) by {
                    assert(cl@[m] < members_len);
                    let mem = buckets@[b as int].members@[cl@[m] as int];
                    assert(crate::parser::data_wf(data@[mem.0 as int]));
                }
            }
            let (cx, cy) = centroid_of(data, &buckets[b], cl);
            let node_idx: usize = vec.len();
            let ghost assign_pre = assign;
            let name: String = buckets[b].name.clone();
            vec.push(StopNode { id: node_id, short_name: name, long: cx, lat: cy });
            proof {
                assign = assign.push((b as int, cl@));
                assert(ids@ =~= member_ids(data@, buckets@[b as int], cl@));
                assert(node_from_cluster(
                    data@,
                    buckets@,
                    boxes@,
                    b as int,
                    cl@,
                    vec@[node_idx as int],
                ));
                assert(node_clustered(data@, buckets@, boxes@, vec@[node_idx as int]));
                assert forall|idx: int|
                    0 <= idx < vec@.len() implies node_clustered(
                    data@,
                    buckets@,
                    boxes@,
                    #[trigger] vec@[idx],
                ) by {
                    if idx < node_idx {
                        assert(vec@[idx] == vec@.drop_last()[idx]);
                    }
                }
                // the construction state carries over to the extended assignment
                let ni = node_idx as int;
                assert(assign[ni] == (b as int, cl@));
                assert(forall|i: int| 0 <= i < ni ==> #[trigger] assign[i] == assign_pre[i]);
                assert(partition_so_far(data@, buckets@, boxes@, assign, vec@, ref_map@)) by {
                    assert forall|i1: int, i2: int, y: usize|
                        0 <= i1 < i2 < assign.len() && assign[i1].0 == assign[i2].0 && (
                        #[trigger] assign[i1].1.contains(y)) implies !(#[trigger] assign[
                        i2
                    ].1.contains(y)) by {
                        if i2 == ni {
                            if assign[i1].0 == b as int {
                                assert(i1 >= assign0.len());
                                let c1 = i1 - assign0.len();
                                assert(assign[i1].1 == clusters@[c1]@);
                                if assign[i2].1.contains(y) {
                                    let m1 = choose|m1: int|
                                        0 <= m1 < clusters@[c1]@.len() && clusters@[c1]@[m1] == y;
                                    let m2 = choose|m2: int|
                                        0 <= m2 < cl@.len() && cl@[m2] == y;
                                    assert(clusters@[c1]@[m1] == clusters@[c as int]@[m2]);
                                    assert(false);
                                }
                            }
                        }
                    }
                    assert forall|idx: int, y: usize|
                        0 <= idx < assign.len() && (y as int)
                            < buckets@[assign[idx].0].members@.len() && !(
                        #[trigger] member_claimed_before(assign, idx, assign[idx].0, y)) && (y
                            == assign[idx].1[0] || boxes@[assign[idx].0]@[assign[idx].1[0] as int]@[y as int])
                        implies assign[idx].1.contains(y) by {
                        if idx == ni {
                            assert(!assigned_in(clusters@, c as int, y)) by {
                                if assigned_in(clusters@, c as int, y) {
                                    let (cc, mm) = choose|cc: int, mm: int|
                                        0 <= cc < c as int && 0 <= mm < clusters@[cc]@.len()
                                            && (#[trigger] clusters@[cc]@[mm]) == y;
                                    assert(assign[assign0.len() + cc].0 == b as int);
                                    assert(assign[assign0.len() + cc].1.contains(y));
                                    assert(member_claimed_before(assign, idx, b as int, y));
                                }
                            }
                            assert(clusters@[c as int]@.contains(y));
                        } else {
                            assert(!member_claimed_before(assign_pre, idx, assign_pre[idx].0, y))
                                by {
                                if member_claimed_before(assign_pre, idx, assign_pre[idx].0, y) {
                                    let i0 = choose|i0: int|
                                        0 <= i0 < idx && (#[trigger] assign_pre[i0]).0
                                            == assign_pre[idx].0 && assign_pre[i0].1.contains(y);
                                    assert(assign[i0] == assign_pre[i0]);
                                    assert(member_claimed_before(assign, idx, assign[idx].0, y));
                                }
                            }
                        }
                    }
                    assert forall|id: u64|
                        ref_map@.contains_key(id) implies ref_entry_ok(
                        data@,
                        buckets@,
                        assign,
                        id,
                        #[trigger] ref_map@[id],
                    ) by {
                        let ind = ref_map@[id];
                        assert(ref_entry_ok(data@, buckets@, assign_pre, id, ind));
                        let y = choose|y: usize|
                            0 <= (ind.node as int) < assign_pre.len() && (y as int)
                                < buckets@[assign_pre[ind.node as int].0].members@.len()
                                && (#[trigger] assign_pre[ind.node as int].1.contains(y))
                                && buckets@[assign_pre[ind.node as int].0].members@[y as int] == (
                                ind.data,
                                ind.stop,
                            ) && stop_of(data@, (ind.data, ind.stop)).id == id;
                        assert(assign[ind.node as int] == assign_pre[ind.node as int]);
                        assert(assign[ind.node as int].1.contains(y));
                    }
                }
                // coverage bookkeeping for the claimed members
                assert forall|bb: int, y: usize|
                    0 <= bb < b && (y as int)
                        < buckets@[bb].members@.len() implies #[trigger] member_claimed_before(
                    assign,
                    assign.len() as int,
                    bb,
                    y,
                ) by {
                    assert(member_claimed_before(assign_pre, assign_pre.len() as int, bb, y));
                    let i0 = choose|i0: int|
                        0 <= i0 < assign_pre.len() && (#[trigger] assign_pre[i0]).0 == bb
                            && assign_pre[i0].1.contains(y);
                    assert(assign[i0] == assign_pre[i0]);
                }
                assert forall|y: usize|
                    y < members_len && #[trigger] assigned_in(clusters@, c as int + 1, y)
                        implies member_claimed_before(
                    assign,
                    assign.len() as int,
                    b as int,
                    y,
                ) by {
                    let (cc, mm) = choose|cc: int, mm: int|
                        0 <= cc < c as int + 1 && 0 <= mm < clusters@[cc]@.len()
                            && (#[trigger] clusters@[cc]@[mm]) == y;
                    assert(assign[assign0.len() + cc].0 == b as int);
                    assert(assign[assign0.len() + cc].1.contains(y));
                }
            }
            id_map.insert(node_id, node_idx);
            let mut k2: usize = 0;
            while k2 < cl.len()
                invariant
                    0 <= k2 <= cl@.len(),
                    b < buckets@.len(),
                    c < clusters@.len(),
                    cl == clusters@[c as int],
                    buckets_wf(data@, buckets@),
                    members_len == buckets@[b as int].members@.len(),
                    clusters_wf(clusters@, members_len as int, boxes@[b as int]@),
                    node_idx as int == vec@.len() - 1,
                    assign.len() == vec@.len(),
                    assign[node_idx as int] == (b as int, cl@),
                    partition_so_far(data@, buckets@, boxes@, assign, vec@, ref_map@),
                    forall|rr: u64|
                        ref_map@.contains_key(rr) ==> (#[trigger] ref_map@[rr]).node < vec@.len(),
                    forall|id: u64|
                        id_map@.contains_key(id) ==> (#[trigger] id_map@[id]) < vec@.len(),
                    forall|id: u64|
                        id_map@.contains_key(id) ==> vec@[(#[trigger] id_map@[id]) as int].id
                            == id,
                    forall|idx: int|
                        0 <= idx < vec@.len() ==> id_map@.contains_key((#[trigger] vec@[idx]).id),
                    forall|bb: int, m: int|
                        0 <= bb < b && 0 <= m < buckets@[bb].members@.len()
                            ==> ref_map@.contains_key(
                            stop_of(data@, #[trigger] buckets@[bb].members@[m]).id,
                        ),
                    forall|x: usize|
                        x < members_len && #[trigger] assigned_in(clusters@, c as int, x)
                            ==> ref_map@.contains_key(
                            stop_of(data@, buckets@[b as int].members@[x as int]).id,
                        ),
                    forall|m: int|
                        0 <= m < k2 ==> ref_map@.contains_key(
                            stop_of(
                                data@,
                                buckets@[b as int].members@[#[trigger] cl@[m] as int],
                            ).id,
                        ),
                decreases cl@.len() - k2,
            {
                proof {
                    assert(cl@[k2 as int] < members_len);
                    assert(valid_stop_index(
                        data@,
                        buckets@[b as int].members@[cl@[k2 as int] as int],
                    ));
                }
                let member = buckets[b].members[cl[k2]];
                let stop_id: u64 = data[member.0].scheduled_stop_points[member.1].id;
                let ghost refs_pre = ref_map@;
                ref_map.insert(
                    stop_id,
                    Indices { node: node_idx, data: member.0, stop: member.1 },
                );
                proof {
                    let ind = ref_map@[stop_id];
                    assert(assign[ind.node as int].1.contains(cl@[k2 as int]));
                    assert(buckets@[b as int].members@[cl@[k2 as int] as int] == (
                        ind.data,
                        ind.stop,
                    ));
                    assert(ref_entry_ok(data@, buckets@, assign, stop_id, ind));
                    assert forall|id: u64|
                        ref_map@.contains_key(id) implies ref_entry_ok(
                        data@,
                        buckets@,
                        assign,
                        id,
                        #[trigger] ref_map@[id],
                    ) by {
                        if id != stop_id {
                            assert(ref_map@[id] == refs_pre[id]);
                        }
                    }
                }
                k2 += 1;
            }
            proof {
                assert forall|x: usize|
                    x < members_len && #[trigger] assigned_in(clusters@, c as int + 1, x)
                        implies ref_map@.contains_key(
                    stop_of(data@, buckets@[b as int].members@[x as int]).id,
                ) by {
                    if !assigned_in(clusters@, c as int, x) {
                        let (cc, mm) = choose|cc: int, mm: int|
                            0 <= cc < c as int + 1 && 0 <= mm < clusters@[cc]@.len()
                                && (#[trigger] clusters@[cc]@[mm]) == x;
                        assert(cc == c as int);
                        assert(cl@[mm] == x);
                    }
                }
            }
            c += 1;
        }
        proof {
            assert forall|m: int|
                0 <= m < buckets@[b as int].members@.len() implies ref_map@.contains_key(
                stop_of(data@, #[trigger] buckets@[b as int].members@[m]).id,
            ) by {
                let x: usize = m as usize;
                assert(assigned_in(clusters@, clusters@.len() as int, x));
            }
            assert forall|bb: int, y: usize|
                0 <= bb < b + 1 && (y as int)
                    < buckets@[bb].members@.len() implies #[trigger] member_claimed_before(
                assign,
                assign.len() as int,
                bb,
                y,
            ) by {
                if bb == b as int {
                    assert(assigned_in(clusters@, clusters@.len() as int, y));
                }
            }
        }
        b += 1;
    }
    proof {
        assert(nodes_partition(data@, buckets@, boxes@, assign, vec@, ref_map@));
        assert(nodes_partitioned(data@, buckets@, boxes@, vec@, ref_map@));
    }
    Nodes { vec, ref_map, id_map }
}
}

} // verus!
