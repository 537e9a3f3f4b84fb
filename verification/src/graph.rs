//! The timetable graph: clustered stop nodes, directed edges keyed by node
//! pairs, and the per-edge timetables. The edge map keeps one edge per
//! `(start, end)` pair; that key stays unique through every stage.

use vstd::prelude::*;

verus! {

use crate::cluster::Nodes;
use crate::parser::NetexData;
use crate::parser::UicOperatingPeriod;

/// A graph node: one cluster of stops. Coordinates are the cluster centroid
/// in micro-degrees; the id is a content hash of the member stop ids.
pub struct StopNode {
    pub id: u64,
    pub short_name: String,
    pub long: i64,
    pub lat: i64,
}

/// One scheduled run over an edge. `operating_period` indexes the global
/// period table until the finisher remaps it into the edge's own table.
pub struct Journey {
    pub departure: u16,
    pub arrival: u16,
    pub transport_mode: String,
    pub operating_period: usize,
    pub line: String,
    pub controller: String,
}

/// A per-edge operating period: the span dates, the packed day flags, and
/// their base64 form for text outputs.
pub struct OperatingPeriod {
    pub from: u32,
    pub to: u32,
    pub valid_day_bits: String,
    pub valid_day: Vec<u8>,
}

/// The timetable carried by one edge.
pub struct Timetable {
    pub journeys: Vec<Journey>,
    pub periods: Vec<OperatingPeriod>,
}

/// A directed edge between two node indices. `walk_seconds` is `0xFFFF`
/// when no walking transfer exists.
pub struct Edge {
    pub start_node: usize,
    pub end_node: usize,
    pub timetable: Timetable,
    pub walk_seconds: u16,
}

/// The finished graph.
pub struct Graph {
    pub nodes: Vec<StopNode>,
    pub edges: Vec<Edge>,
}

/// An external walking transfer between two nodes, keyed by node content
/// hash. The duration is in whole seconds, saturated into a `u16`.
pub struct WalkEdge {
    pub start: u64,
    pub end: u64,
    pub duration: u16,
}

/// No two edges share a `(start, end)` key.
pub open spec fn edge_keys_distinct(s: Seq<Edge>) -> bool {
    forall|i: int, j: int|
        0 <= i < j < s.len() ==> !(#[trigger] s[i].start_node == #[trigger] s[j].start_node
            && s[i].end_node == s[j].end_node)
}

/// Every edge endpoint is a valid node index below `n`.
pub open spec fn edge_keys_bounded(s: Seq<Edge>, n: int) -> bool {
    forall|i: int| 0 <= i < s.len() ==> (#[trigger] s[i]).start_node < n && s[i].end_node < n
}

/// Some edge in the sequence has the key `(a, b)`.
pub open spec fn has_edge_key(s: Seq<Edge>, a: usize, b: usize) -> bool {
    exists|i: int| 0 <= i < s.len() && (#[trigger] s[i]).start_node == a && s[i].end_node == b
}

/// Every journey of the edge points into the global period table of size
/// `total`.
pub open spec fn edge_periods_bounded(e: Edge, total: int) -> bool {
    forall|j: int|
        0 <= j < e.timetable.journeys@.len() ==> (#[trigger] e.timetable.journeys@[j]).operating_period
            < total
}

/// How many journey records the edges carry in all.
pub open spec fn total_journeys(s: Seq<Edge>) -> int
    decreases s.len(),
{
    if s.len() == 0 {
        0
    } else {
        total_journeys(s.drop_last()) + s.last().timetable.journeys@.len()
    }
}

/// Replacing one edge shifts the total by the difference of its journey
/// counts.
pub proof fn lemma_total_journeys_update(s: Seq<Edge>, i: int, e: Edge)
    requires
        0 <= i < s.len(),
    ensures
        total_journeys(s.update(i, e)) == total_journeys(s) - s[i].timetable.journeys@.len()
            + e.timetable.journeys@.len(),
    decreases s.len(),
{
    let t = s.update(i, e);
    if i == s.len() - 1 {
        assert(t.drop_last() =~= s.drop_last());
        assert(t.last() == e);
    } else {
        assert(t.drop_last() =~= s.drop_last().update(i, e));
        lemma_total_journeys_update(s.drop_last(), i, e);
        assert(t.last() == s.last());
    }
}

/// Edges without journeys carry no journey records in all.
pub proof fn lemma_total_journeys_zero(s: Seq<Edge>)
    requires
        forall|i: int| 0 <= i < s.len() ==> (#[trigger] s[i]).timetable.journeys@.len() == 0,
    ensures
        total_journeys(s) == 0,
    decreases s.len(),
{
    if s.len() > 0 {
        assert(forall|i: int|
            0 <= i < s.drop_last().len() ==> (#[trigger] s.drop_last()[i]).timetable.journeys@.len()
                == 0);
        lemma_total_journeys_zero(s.drop_last());
    }
}

/// Every edge's journeys point below `total` in the global period table.
pub open spec fn edges_ops_below(s: Seq<Edge>, total: int) -> bool {
    forall|i: int| 0 <= i < s.len() ==> edge_periods_bounded(#[trigger] s[i], total)
}

/// The graph invariant: endpoints in range, keys unique, and every journey's
/// period index inside its own edge's period table.
impl Graph {
    pub open spec fn wf(self) -> bool {
        &&& edge_keys_distinct(self.edges@)
        &&& edge_keys_bounded(self.edges@, self.nodes@.len() as int)
        &&& forall|i: int|
            0 <= i < self.edges@.len() ==> edge_periods_bounded(
                #[trigger] self.edges@[i],
                self.edges@[i].timetable.periods@.len() as int,
            )
    }
}

/// A map from `(start, end)` node pairs to edges, kept as a vector whose
/// keys are unique.
pub struct EdgeMap {
    pub edges: Vec<Edge>,
}

impl EdgeMap {
    /// The map invariant: one edge per key.
    pub open spec fn wf(self) -> bool {
        edge_keys_distinct(self.edges@)
    }

    /// An empty map.
    pub fn new() -> (r: EdgeMap)
        ensures
            r.edges@.len() == 0,
            r.wf(),
    {
        EdgeMap { edges: Vec::new() }
    }

    /// Position of the edge with key `(a, b)`, if the map holds one.
    pub fn find(&self, a: usize, b: usize) -> (r: Option<usize>)
        ensures
            match r {
                Some(i) => i < self.edges@.len() && self.edges@[i as int].start_node == a
                    && self.edges@[i as int].end_node == b,
                None => !has_edge_key(self.edges@, a, b),
            },
    {
        let mut i: usize = 0;
        while i < self.edges.len()
            invariant
                0 <= i <= self.edges@.len(),
                forall|k: int|
                    0 <= k < i ==> !(#[trigger] self.edges@[k].start_node == a
                        && self.edges@[k].end_node == b),
            decreases self.edges@.len() - i,
        {
            if self.edges[i].start_node == a && self.edges[i].end_node == b {
                return Some(i);
            }
            i += 1;
        }
        None
    }

    /// Appends one journey to the edge keyed `(a, b)`, creating the edge
    /// with an empty timetable and no walking transfer when it is new.
    pub fn push_journey(&mut self, a: usize, b: usize, j: Journey)
        requires
            old(self).wf(),
        ensures
            final(self).wf(),
            has_edge_key(final(self).edges@, a, b),
            has_edge_key(old(self).edges@, a, b) ==> final(self).edges@.len() == old(
                self,
            ).edges@.len() && (exists|i: int|
                0 <= i < old(self).edges@.len() && #[trigger] old(self).edges@[i].start_node == a
                    && old(self).edges@[i].end_node == b && journey_appended(
                    old(self).edges@[i],
                    final(self).edges@[i],
                    j,
                ) && (forall|k: int|
                    0 <= k < old(self).edges@.len() && k != i ==> final(self).edges@[k] == old(
                        self,
                    ).edges@[k])),
            !has_edge_key(old(self).edges@, a, b) ==> final(self).edges@.len() == old(
                self,
            ).edges@.len() + 1 && (forall|k: int|
                0 <= k < old(self).edges@.len() ==> final(self).edges@[k] == old(self).edges@[k])
                && fresh_edge(final(self).edges@[old(self).edges@.len() as int], a, b, j),
            forall|t: int|
                edges_ops_below(old(self).edges@, t) && (j.operating_period as int) < t
                    ==> #[trigger] edges_ops_below(final(self).edges@, t),
            forall|n: int|
                edge_keys_bounded(old(self).edges@, n) && (a as int) < n && (b as int) < n
                    ==> #[trigger] edge_keys_bounded(final(self).edges@, n),
            total_journeys(final(self).edges@) == total_journeys(old(self).edges@) + 1,
    {
        let ghost olds = self.edges@;
        match self.find(a, b) {
            Some(i) => {
                let edge = &mut self.edges[i];
                edge.timetable.journeys.push(j);
                proof {
                    assert(self.edges@[i as int].start_node == a);
                    assert(has_edge_key(olds, a, b));
                    assert(has_edge_key(self.edges@, a, b));
                    assert(journey_appended(olds[i as int], self.edges@[i as int], j));
                    assert(edge_keys_distinct(self.edges@));
                    assert(self.edges@ =~= olds.update(i as int, self.edges@[i as int]));
                    lemma_total_journeys_update(olds, i as int, self.edges@[i as int]);
                    assert forall|t: int|
                        edges_ops_below(olds, t) && (j.operating_period as int)
                            < t implies #[trigger] edges_ops_below(self.edges@, t) by {
                        assert forall|k: int|
                            0 <= k < self.edges@.len() implies edge_periods_bounded(
                            #[trigger] self.edges@[k],
                            t,
                        ) by {
                            assert(edge_periods_bounded(olds[k], t));
                            if k == i {
                                assert forall|jj: int|
                                    0 <= jj < self.edges@[k].timetable.journeys@.len() implies (
                                #[trigger] self.edges@[k].timetable.journeys@[jj]).operating_period
                                    < t by {
                                    if jj < olds[k].timetable.journeys@.len() {
                                        assert(self.edges@[k].timetable.journeys@[jj]
                                            == olds[k].timetable.journeys@[jj]);
                                    } else {
                                        assert(self.edges@[k].timetable.journeys@[jj] == j);
                                    }
                                }
                            }
                        }
                    }
                }
            },
            None => {
                let journeys: Vec<Journey> = vec![j];
                proof {
                    assert(journeys@ =~= seq![j]);
                }
                self.edges.push(
                    Edge {
                        start_node: a,
                        end_node: b,
                        timetable: Timetable { journeys, periods: Vec::new() },
                        walk_seconds: 0xFFFFu16,
                    },
                );
                proof {
                    let ghost n = olds.len() as int;
                    assert(self.edges@[n].start_node == a);
                    assert(has_edge_key(self.edges@, a, b));
                    assert(fresh_edge(self.edges@[n], a, b, j));
                    assert(edge_keys_distinct(self.edges@));
                    assert(self.edges@.drop_last() =~= olds);
                    assert(total_journeys(self.edges@) == total_journeys(olds) + 1);
                    assert forall|t: int|
                        edges_ops_below(olds, t) && (j.operating_period as int)
                            < t implies #[trigger] edges_ops_below(self.edges@, t) by {
                        assert forall|k: int|
                            0 <= k < self.edges@.len() implies edge_periods_bounded(
                            #[trigger] self.edges@[k],
                            t,
                        ) by {
                            if k < olds.len() {
                                assert(edge_periods_bounded(olds[k], t));
                                assert(self.edges@[k] == olds[k]);
                            } else {
                                assert(self.edges@[k].timetable.journeys@ == seq![j]);
                            }
                        }
                    }
                }
            },
        }
    }
}

/// The new edge equals the old one with `j` appended to its journeys.
pub open spec fn journey_appended(olde: Edge, newe: Edge, j: Journey) -> bool {
    &&& newe.start_node == olde.start_node
    &&& newe.end_node == olde.end_node
    &&& newe.walk_seconds == olde.walk_seconds
    &&& newe.timetable.periods@ == olde.timetable.periods@
    &&& newe.timetable.journeys@ == olde.timetable.journeys@.push(j)
}

/// A newly created edge: key `(a, b)`, no walking transfer, the single
/// journey `j` and no periods yet.
pub open spec fn fresh_edge(e: Edge, a: usize, b: usize, j: Journey) -> bool {
    &&& e.start_node == a
    &&& e.end_node == b
    &&& e.walk_seconds == 0xFFFF
    &&& e.timetable.journeys@ == seq![j]
    &&& e.timetable.periods@.len() == 0
}

/// Minutes from departure to arrival, wrapping past midnight: a smaller
/// arrival minute means the journey ends on the next day. (Normalizing
/// both ends through `(x % 60) + (x / 60) * 60` is the identity; the wrap
/// is the only effect.)
pub open spec fn journey_minutes(departure: u16, arrival: u16) -> int {
    if arrival < departure {
        arrival + 1440 - departure
    } else {
        arrival - departure
    }
}

/// Travel minutes between two passing times. A departure more than a day
/// after the arrival has no sensible wrap and its subtraction would fail,
/// so it is excluded.
pub fn compute_minutes(departure: u16, arrival: u16) -> (m: u32)
    requires
        departure <= arrival + 1440,
    ensures
        m == journey_minutes(departure, arrival),
        m <= 67000,
{
    let d: u32 = (departure as u32 % 60) + (departure as u32 / 60) * 60;
    let a0: u32 = (arrival as u32 % 60) + (arrival as u32 / 60) * 60;
    let a: u32 = if a0 < d {
        a0 + 24 * 60
    } else {
        a0
    };
    a - d
}

/// The speed filter keeps a journey when its implied speed stays under
/// 325 km/h, or when it is a short hop (under 3 minutes and under 3 km).
/// With the distance in millimetres, `speed < 325 km/h` is exactly
/// `60 * dist_mm < 325 000 000 * minutes`; a zero-minute journey has
/// unbounded speed and fails that test.
pub open spec fn keep_journey(departure: u16, arrival: u16, dist_mm: u64) -> bool {
    let m = journey_minutes(departure, arrival);
    60 * dist_mm < 325000000 * m || (m < 3 && dist_mm < 3000000)
}

/// Drops every journey of the edge whose implied travel speed is
/// implausible, given the great-circle distance between the edge's
/// endpoints in millimetres. Everything else about the edge stays.
pub fn filter_journeys(edge: &mut Edge, dist_mm: u64)
    requires
        dist_mm <= 100000000000000,
        forall|i: int|
            0 <= i < old(edge).timetable.journeys@.len() ==> (
            #[trigger] old(edge).timetable.journeys@[i]).departure
                <= old(edge).timetable.journeys@[i].arrival + 1440,
    ensures
        final(edge).start_node == old(edge).start_node,
        final(edge).end_node == old(edge).end_node,
        final(edge).walk_seconds == old(edge).walk_seconds,
        final(edge).timetable.periods@ == old(edge).timetable.periods@,
        final(edge).timetable.journeys@ == old(edge).timetable.journeys@.filter(
            (|j: Journey| keep_journey(j.departure, j.arrival, dist_mm)),
        ),
        forall|jj: int|
            0 <= jj < final(edge).timetable.journeys@.len() ==> old(
                edge,
            ).timetable.journeys@.contains(#[trigger] final(edge).timetable.journeys@[jj]),
{
    let ghost orig = edge.timetable.journeys@;
    let ghost pred = (|j: Journey| keep_journey(j.departure, j.arrival, dist_mm));
    let mut kept: Vec<Journey> = Vec::new();
    let ghost mut c: int = 0;
    while edge.timetable.journeys.len() > 0
        invariant
            0 <= c <= orig.len(),
            dist_mm <= 100000000000000,
            pred == (|j: Journey| keep_journey(j.departure, j.arrival, dist_mm)),
            edge.timetable.journeys@ == orig.skip(c),
            kept@ == orig.take(c).filter(pred),
            forall|jj: int| 0 <= jj < kept@.len() ==> orig.contains(#[trigger] kept@[jj]),
            forall|i: int|
                0 <= i < orig.len() ==> (#[trigger] orig[i]).departure <= orig[i].arrival + 1440,
            edge.start_node == old(edge).start_node,
            edge.end_node == old(edge).end_node,
            edge.walk_seconds == old(edge).walk_seconds,
            edge.timetable.periods@ == old(edge).timetable.periods@,
        decreases orig.len() - c,
    {
        let j = edge.timetable.journeys.remove(0);
        proof {
            assert(orig.skip(c)[0] == orig[c]);
            assert(orig.skip(c).remove(0) =~= orig.skip(c + 1));
        }
        let m = compute_minutes(j.departure, j.arrival);
        let keep: bool = (60 * dist_mm < 325000000u64 * (m as u64)) || (m < 3 && dist_mm
            < 3000000);
        proof {
            assert(keep == pred(j));
            reveal(Seq::filter);
            assert(orig.take(c + 1).drop_last() =~= orig.take(c));
            assert(orig.take(c + 1).last() == orig[c]);
        }
        if keep {
            kept.push(j);
            proof {
                assert(orig.contains(orig[c]));
            }
        }
        proof {
            c = c + 1;
        }
    }
    proof {
        assert(orig.take(c) =~= orig);
    }
    edge.timetable.journeys = kept;
}

/// What became of one walking transfer.
#[derive(Clone, Copy, Debug, PartialEq, Eq, Structural)]
pub enum WalkOutcome {
    /// Both directions now carry the walking duration.
    Applied,
    /// An endpoint id is not a node of the graph; nothing changed.
    Unresolved,
    /// The endpoints lie more than a kilometre apart; nothing changed.
    TooFar,
}

/// The walking transfer was written symmetrically: both `(s, e)` and
/// `(e, s)` exist and carry the duration; every other edge is untouched;
/// edges that already existed keep their timetables, created ones have
/// empty timetables.
pub open spec fn walk_applied(olds: Seq<Edge>, news: Seq<Edge>, s: usize, e: usize, dur: u16) -> bool {
    &&& olds.len() <= news.len() <= olds.len() + 2
    &&& has_edge_key(news, s, e)
    &&& has_edge_key(news, e, s)
    &&& forall|i: int|
        0 <= i < olds.len() ==> (#[trigger] news[i]).start_node == olds[i].start_node
            && news[i].end_node == olds[i].end_node
    &&& forall|i: int|
        0 <= i < news.len() && (((#[trigger] news[i]).start_node == s && news[i].end_node == e)
            || (news[i].start_node == e && news[i].end_node == s)) ==> news[i].walk_seconds == dur
    &&& forall|i: int|
        0 <= i < news.len() && !(((#[trigger] news[i]).start_node == s && news[i].end_node == e)
            || (news[i].start_node == e && news[i].end_node == s)) ==> i < olds.len() && news[i]
            == olds[i]
    &&& forall|i: int|
        0 <= i < olds.len() ==> (#[trigger] news[i]).timetable.journeys@
            == olds[i].timetable.journeys@ && news[i].timetable.periods@
            == olds[i].timetable.periods@
    &&& forall|i: int|
        olds.len() <= i < news.len() ==> (#[trigger] news[i]).timetable.journeys@.len() == 0
            && news[i].timetable.periods@.len() == 0
}

impl Graph {
    /// Merges one external walking transfer into the edge map. Endpoints
    /// resolve through the node content ids; unresolvable entries and
    /// entries farther than a kilometre apart are dropped. An accepted
    /// entry sets `walk_seconds` on both directions, creating edges with
    /// empty timetables where none existed.
    pub fn update_walk(walk: &WalkEdge, nodes: &Nodes, edges: &mut EdgeMap, dist_mm: u64) -> (r:
        WalkOutcome)
        requires
            old(edges).wf(),
            nodes.wf(),
            edge_keys_bounded(old(edges).edges@, nodes.vec@.len() as int),
        ensures
            final(edges).wf(),
            edge_keys_bounded(final(edges).edges@, nodes.vec@.len() as int),
            (r == WalkOutcome::Unresolved) <==> (!nodes.id_map@.contains_key(walk.start)
                || !nodes.id_map@.contains_key(walk.end)),
            (r == WalkOutcome::TooFar) <==> (nodes.id_map@.contains_key(walk.start)
                && nodes.id_map@.contains_key(walk.end) && dist_mm > 1000000),
            (r == WalkOutcome::Unresolved || r == WalkOutcome::TooFar) ==> final(edges).edges@
                == old(edges).edges@,
            (r == WalkOutcome::Applied) ==> nodes.id_map@.contains_key(walk.start)
                && nodes.id_map@.contains_key(walk.end) && dist_mm <= 1000000 && walk_applied(
                old(edges).edges@,
                final(edges).edges@,
                nodes.id_map@[walk.start],
                nodes.id_map@[walk.end],
                walk.duration,
            ),
    {
        let s: usize = match nodes.index_by_id(walk.start) {
            Some(i) => i,
            None => {
                return WalkOutcome::Unresolved;
            },
        };
        let e: usize = match nodes.index_by_id(walk.end) {
            Some(i) => i,
            None => {
                return WalkOutcome::Unresolved;
            },
        };
        if dist_mm > 1000000 {
            return WalkOutcome::TooFar;
        }
        let ghost olds = edges.edges@;
        match edges.find(s, e) {
            Some(i) => {
                edges.edges[i].walk_seconds = walk.duration;
            },
            None => {
                edges.edges.push(
                    Edge {
                        start_node: s,
                        end_node: e,
                        timetable: Timetable { journeys: Vec::new(), periods: Vec::new() },
                        walk_seconds: walk.duration,
                    },
                );
            },
        }
        let ghost mids = edges.edges@;
        proof {
            assert(edge_keys_distinct(mids));
            assert(has_edge_key(mids, s, e)) by {
                if !has_edge_key(olds, s, e) {
                    assert(mids[olds.len() as int].start_node == s);
                }
            }
        }
        match edges.find(e, s) {
            Some(i) => {
                edges.edges[i].walk_seconds = walk.duration;
            },
            None => {
                edges.edges.push(
                    Edge {
                        start_node: e,
                        end_node: s,
                        timetable: Timetable { journeys: Vec::new(), periods: Vec::new() },
                        walk_seconds: walk.duration,
                    },
                );
            },
        }
        proof {
            assert(edge_keys_distinct(edges.edges@));
            assert(has_edge_key(edges.edges@, e, s)) by {
                if !has_edge_key(mids, e, s) {
                    assert(edges.edges@[mids.len() as int].start_node == e);
                }
            }
            assert(has_edge_key(edges.edges@, s, e)) by {
                let i = choose|i: int|
                    0 <= i < mids.len() && (#[trigger] mids[i]).start_node == s && mids[i].end_node
                        == e;
                assert(edges.edges@[i].start_node == s && edges.edges@[i].end_node == e);
            }
            assert(walk_applied(olds, edges.edges@, s, e, walk.duration));
        }
        WalkOutcome::Applied
    }

    /// The operating period at a corpus-wide index: documents contribute
    /// their periods in order. Present exactly when the index is below the
    /// corpus total.
    pub fn lookup_operating_period<'a>(data: &'a Vec<NetexData>, global_index: usize) -> (r: Option<
        &'a UicOperatingPeriod,
    >)
        ensures
            r is Some <==> (global_index as int) < crate::transform::total_periods(data@),
            r is Some ==> *r->Some_0 == crate::transform::all_periods(data@)[global_index as int],
    {
        let mut d: usize = 0;
        let mut rem: usize = global_index;
        while d < data.len()
            invariant
                0 <= d <= data@.len(),
                rem <= global_index,
                global_index - rem == crate::transform::all_periods(data@.take(d as int)).len(),
            decreases data@.len() - d,
        {
            let len_d: usize = data[d].operating_periods.len();
            proof {
                assert(data@.take(d as int + 1).drop_last() =~= data@.take(d as int));
                assert(data@.take(d as int + 1).last() == data@[d as int]);
                crate::transform::lemma_all_periods_prefix(data@, d as int + 1);
            }
            if rem < len_d {
                proof {
                    let cum = global_index - rem;
                    assert(crate::transform::all_periods(data@.take(d as int + 1))[cum + rem]
                        == data@[d as int].operating_periods@[rem as int]);
                    assert(crate::transform::all_periods(data@)[global_index as int]
                        == data@[d as int].operating_periods@[rem as int]);
                }
                return Some(&data[d].operating_periods[rem]);
            }
            rem -= len_d;
            d += 1;
        }
        proof {
            assert(data@.take(d as int) =~= data@);
        }
        None
    }
}

/// The operating-period indices carried by a journey list.
pub open spec fn ops_of(journeys: Seq<Journey>) -> Seq<usize> {
    journeys.map_values(|j: Journey| j.operating_period)
}

/// The distinct values of a list, in first-seen order.
pub open spec fn firsts(s: Seq<usize>) -> Seq<usize>
    decreases s.len(),
{
    if s.len() == 0 {
        Seq::empty()
    } else {
        let p = firsts(s.drop_last());
        if p.contains(s.last()) {
            p
        } else {
            p.push(s.last())
        }
    }
}

/// First-seen lists hold distinct values, exactly the values of the input.
proof fn lemma_firsts_props(s: Seq<usize>)
    ensures
        forall|m1: int, m2: int|
            0 <= m1 < m2 < firsts(s).len() ==> firsts(s)[m1] != firsts(s)[m2],
        forall|x: usize| firsts(s).contains(x) <==> s.contains(x),
        firsts(s).len() <= s.len(),
    decreases s.len(),
{
    if s.len() > 0 {
        lemma_firsts_props(s.drop_last());
        let p = firsts(s.drop_last());
        assert forall|x: usize| firsts(s).contains(x) implies s.contains(x) by {
            if p.contains(x) {
                assert(s.drop_last().contains(x));
                let i = choose|i: int| 0 <= i < s.drop_last().len() && s.drop_last()[i] == x;
                assert(s[i] == x);
            } else {
                assert(x == s.last());
                assert(s[s.len() - 1] == x);
            }
        }
        assert forall|x: usize| s.contains(x) implies firsts(s).contains(x) by {
            let i = choose|i: int| 0 <= i < s.len() && s[i] == x;
            if i < s.len() - 1 {
                assert(s.drop_last()[i] == x);
                assert(s.drop_last().contains(x));
                assert(p.contains(x));
                if !p.contains(s.last()) {
                    let m = choose|m: int| 0 <= m < p.len() && p[m] == x;
                    assert(firsts(s)[m] == x);
                }
            } else {
                assert(x == s.last());
                if p.contains(x) {
                } else {
                    assert(firsts(s)[p.len() as int] == x);
                }
            }
        }
    }
}

/// Index of the first pair keyed by this global index, if one exists.
fn find_global(g2l: &Vec<(usize, usize)>, op: usize) -> (r: Option<usize>)
    ensures
        match r {
            Some(m) => m < g2l@.len() && g2l@[m as int].0 == op,
            None => forall|m: int| 0 <= m < g2l@.len() ==> (#[trigger] g2l@[m]).0 != op,
        },
{
    let mut m: usize = 0;
    while m < g2l.len()
        invariant
            0 <= m <= g2l@.len(),
            forall|k: int| 0 <= k < m ==> (#[trigger] g2l@[k]).0 != op,
        decreases g2l@.len() - m,
    {
        if g2l[m].0 == op {
            return Some(m);
        }
        m += 1;
    }
    None
}

/// A byte vector with the same contents.
fn clone_bytes(v: &Vec<u8>) -> (r: Vec<u8>)
    ensures
        r@ == v@,
{
    let r = v.clone();
    proof {
        assert forall|i: int| 0 <= i < v@.len() implies r@[i] == v@[i] by {
            assert(vstd::pervasive::cloned::<u8>(v@[i], r@[i]));
        }
        assert(r@ =~= v@);
    }
    r
}

impl Graph {
    /// Rewrites the edge's journeys from corpus-wide operating-period
    /// indices to indices local to the edge: each distinct global index
    /// gets the next local slot in first-seen order, and the edge's own
    /// period table is filled from the corpus table, with the day flags
    /// also base64-encoded for text outputs. Afterwards every journey
    /// points inside the edge's own table.
    pub fn remap_periods(edge: &mut Edge, data: &Vec<NetexData>)
        requires
            edge_periods_bounded(*old(edge), crate::transform::total_periods(data@)),
        ensures
            final(edge).start_node == old(edge).start_node,
            final(edge).end_node == old(edge).end_node,
            final(edge).walk_seconds == old(edge).walk_seconds,
            final(edge).timetable.journeys@.len() == old(edge).timetable.journeys@.len(),
            final(edge).timetable.periods@.len() == firsts(
                ops_of(old(edge).timetable.journeys@),
            ).len(),
            forall|i: int|
                0 <= i < final(edge).timetable.journeys@.len() ==> {
                    let oldj = old(edge).timetable.journeys@[i];
                    let newj = #[trigger] final(edge).timetable.journeys@[i];
                    &&& newj.departure == oldj.departure
                    &&& newj.arrival == oldj.arrival
                    &&& newj.transport_mode == oldj.transport_mode
                    &&& newj.line == oldj.line
                    &&& newj.controller == oldj.controller
                    &&& newj.operating_period < final(edge).timetable.periods@.len()
                    &&& firsts(ops_of(old(edge).timetable.journeys@))[newj.operating_period as int]
                        == oldj.operating_period
                },
            forall|m: int|
                0 <= m < final(edge).timetable.periods@.len() ==> {
                    let global = firsts(ops_of(old(edge).timetable.journeys@))[m];
                    let src = crate::transform::all_periods(data@)[global as int];
                    let p = #[trigger] final(edge).timetable.periods@[m];
                    &&& p.from == src.from
                    &&& p.to == src.to
                    &&& p.valid_day@ == src.valid_day_bits@
                    &&& p.valid_day_bits@ == crate::b64::b64_of(src.valid_day_bits@)
                },
            edge_periods_bounded(*final(edge), final(edge).timetable.periods@.len() as int),
    {
        let ghost oldjs = edge.timetable.journeys@;
        let ghost allops = ops_of(oldjs);
        proof {
            lemma_firsts_props(allops);
        }
        // first pass: the distinct global indices, in first-seen order
        let mut g2l: Vec<(usize, usize)> = Vec::new();
        let n: usize = edge.timetable.journeys.len();
        let mut i: usize = 0;
        while i < n
            invariant
                0 <= i <= n,
                n == oldjs.len(),
                edge.timetable.journeys@ == oldjs,
                allops == ops_of(oldjs),
                g2l@.map_values(|p: (usize, usize)| p.0) == firsts(allops.take(i as int)),
                forall|m: int| 0 <= m < g2l@.len() ==> (#[trigger] g2l@[m]).1 == m,
            decreases n - i,
        {
            let op: usize = edge.timetable.journeys[i].operating_period;
            let ghost keys = g2l@.map_values(|p: (usize, usize)| p.0);
            proof {
                assert(allops[i as int] == op);
                assert(allops.take(i as int + 1).drop_last() =~= allops.take(i as int));
                assert(allops.take(i as int + 1).last() == op);
            }
            match find_global(&g2l, op) {
                Some(_) => {
                    proof {
                        let m = choose|m: int| 0 <= m < g2l@.len() && (#[trigger] g2l@[m]).0 == op;
                        assert(keys[m] == op);
                        assert(keys.contains(op));
                        assert(firsts(allops.take(i as int + 1)) == keys);
                    }
                },
                None => {
                    let l: usize = g2l.len();
                    g2l.push((op, l));
                    proof {
                        assert(!keys.contains(op)) by {
                            if keys.contains(op) {
                                let m = choose|m: int| 0 <= m < keys.len() && keys[m] == op;
                                assert(g2l@[m].0 == op);
                            }
                        }
                        assert(g2l@.map_values(|p: (usize, usize)| p.0) =~= keys.push(op));
                        assert(firsts(allops.take(i as int + 1)) == keys.push(op));
                    }
                },
            }
            i += 1;
        }
        proof {
            assert(allops.take(n as int) =~= allops);
        }
        let ghost fkeys = firsts(allops);
        // second pass: fill the local period table from the corpus table
        let mut local_ops: Vec<OperatingPeriod> = Vec::new();
        let mut m: usize = 0;
        while m < g2l.len()
            invariant
                0 <= m <= g2l@.len(),
                g2l@.map_values(|p: (usize, usize)| p.0) == fkeys,
                fkeys == firsts(ops_of(oldjs)),
                allops == ops_of(oldjs),
                edge.timetable.journeys@ == oldjs,
                edge_periods_bounded(*edge, crate::transform::total_periods(data@)),
                local_ops@.len() == m,
                forall|k: int|
                    0 <= k < m ==> {
                        let global = fkeys[k];
                        let src = crate::transform::all_periods(data@)[global as int];
                        let p = #[trigger] local_ops@[k];
                        &&& p.from == src.from
                        &&& p.to == src.to
                        &&& p.valid_day@ == src.valid_day_bits@
                        &&& p.valid_day_bits@ == crate::b64::b64_of(src.valid_day_bits@)
                    },
            decreases g2l@.len() - m,
        {
            let global: usize = g2l[m].0;
            proof {
                assert(fkeys[m as int] == global);
                assert(fkeys.contains(global));
                lemma_firsts_props(allops);
                assert(allops.contains(global));
                let j = choose|j: int| 0 <= j < allops.len() && allops[j] == global;
                assert(oldjs[j].operating_period == global);
                assert(global < crate::transform::total_periods(data@));
            }
            let uic = match Self::lookup_operating_period(data, global) {
                Some(u) => u,
                None => {
                    proof {
                        assert(false);
                    }
                    return ;
                },
            };
            let valid_day = clone_bytes(&uic.valid_day_bits);
            let encoded = crate::b64::base64_encode(&uic.valid_day_bits);
            local_ops.push(
                OperatingPeriod {
                    from: uic.from,
                    to: uic.to,
                    valid_day_bits: encoded,
                    valid_day,
                },
            );
            m += 1;
        }
        // third pass: rewrite each journey's period to its local slot
        let mut k: usize = 0;
        while k < n
            invariant
                0 <= k <= n,
                n == oldjs.len(),
                edge.timetable.journeys@.len() == oldjs.len(),
                g2l@.map_values(|p: (usize, usize)| p.0) == fkeys,
                fkeys == firsts(ops_of(oldjs)),
                allops == ops_of(oldjs),
                forall|m2: int| 0 <= m2 < g2l@.len() ==> (#[trigger] g2l@[m2]).1 == m2,
                forall|i2: int|
                    k <= i2 < n ==> (#[trigger] edge.timetable.journeys@[i2]) == oldjs[i2],
                forall|i2: int|
                    0 <= i2 < k ==> {
                        let oldj = oldjs[i2];
                        let newj = #[trigger] edge.timetable.journeys@[i2];
                        &&& newj.departure == oldj.departure
                        &&& newj.arrival == oldj.arrival
                        &&& newj.transport_mode == oldj.transport_mode
                        &&& newj.line == oldj.line
                        &&& newj.controller == oldj.controller
                        &&& newj.operating_period < fkeys.len()
                        &&& fkeys[newj.operating_period as int] == oldj.operating_period
                    },
                edge.start_node == old(edge).start_node,
                edge.end_node == old(edge).end_node,
                edge.walk_seconds == old(edge).walk_seconds,
            decreases n - k,
        {
            let op: usize = edge.timetable.journeys[k].operating_period;
            proof {
                assert(edge.timetable.journeys@[k as int] == oldjs[k as int]);
                assert(allops[k as int] == op);
                assert(allops.contains(op));
                lemma_firsts_props(allops);
                assert(fkeys.contains(op));
            }
            let l: usize = match find_global(&g2l, op) {
                Some(m2) => m2,
                None => {
                    proof {
                        let mm = choose|mm: int| 0 <= mm < fkeys.len() && fkeys[mm] == op;
                        assert(g2l@[mm].0 == op);
                        assert(false);
                    }
                    0
                },
            };
            proof {
                assert(fkeys[l as int] == op);
            }
            edge.timetable.journeys[k].operating_period = l;
            k += 1;
        }
        edge.timetable.periods = local_ops;
        proof {
            lemma_firsts_props(allops);
        }
    }
}

/// Every adjacent passing-time pair of the corpus wraps sensibly: no
/// departure more than a day after the following arrival (the speed
/// filter's own precondition, lifted to the corpus).
pub open spec fn corpus_times_ok(data: Seq<NetexData>) -> bool {
    forall|d: int, j: int, w: int|
        0 <= d < data.len() && 0 <= j < data[d].service_journeys@.len() && 1 <= w
            < data[d].service_journeys@[j].passing_times@.len() ==> (
        #[trigger] data[d].service_journeys@[j].passing_times@[w - 1]).departure
            <= data[d].service_journeys@[j].passing_times@[w].arrival + 1440
}

/// What the finisher leaves of one edge: the key and the walking transfer
/// stay; the journeys are exactly the speed-filtered ones for the given
/// distance, with their period indices remapped into the edge's own table
/// in first-seen order, and the table filled from the corpus table.
pub open spec fn finished_edge(before: Edge, after: Edge, dist_mm: u64, data: Seq<NetexData>) -> bool {
    let filtered = before.timetable.journeys@.filter(
        (|j: Journey| keep_journey(j.departure, j.arrival, dist_mm)),
    );
    &&& after.start_node == before.start_node
    &&& after.end_node == before.end_node
    &&& after.walk_seconds == before.walk_seconds
    &&& after.timetable.journeys@.len() == filtered.len()
    &&& after.timetable.periods@.len() == firsts(ops_of(filtered)).len()
    &&& (forall|i: int|
        0 <= i < after.timetable.journeys@.len() ==> {
            let oldj = filtered[i];
            let newj = #[trigger] after.timetable.journeys@[i];
            &&& newj.departure == oldj.departure
            &&& newj.arrival == oldj.arrival
            &&& newj.transport_mode == oldj.transport_mode
            &&& newj.line == oldj.line
            &&& newj.controller == oldj.controller
            &&& newj.operating_period < after.timetable.periods@.len()
            &&& firsts(ops_of(filtered))[newj.operating_period as int] == oldj.operating_period
        })
    &&& (forall|m: int|
        0 <= m < after.timetable.periods@.len() ==> {
            let global = firsts(ops_of(filtered))[m];
            let src = crate::transform::all_periods(data)[global as int];
            let p = #[trigger] after.timetable.periods@[m];
            &&& p.from == src.from
            &&& p.to == src.to
            &&& p.valid_day@ == src.valid_day_bits@
            &&& p.valid_day_bits@ == crate::b64::b64_of(src.valid_day_bits@)
        })
    &&& edge_periods_bounded(after, after.timetable.periods@.len() as int)
}

/// A pair recorded in the edge map stays recorded when one more journey
/// record is appended to the map.
proof fn lemma_recorded_survives_push(
    t: crate::transform::JourneyTransformer,
    nodes: Nodes,
    jy: crate::parser::ServiceJourney,
    w: int,
    before: Seq<Edge>,
    after: Seq<Edge>,
    a: usize,
    bkey: usize,
    j: Journey,
)
    requires
        crate::transform::pair_recorded(t, nodes, jy, w, before),
        edge_keys_distinct(before),
        has_edge_key(before, a, bkey) ==> after.len() == before.len() && (exists|x: int|
            0 <= x < before.len() && #[trigger] before[x].start_node == a && before[x].end_node
                == bkey && journey_appended(before[x], after[x], j) && (forall|y: int|
                0 <= y < before.len() && y != x ==> after[y] == before[y])),
        !has_edge_key(before, a, bkey) ==> after.len() == before.len() + 1 && (forall|k: int|
            0 <= k < before.len() ==> after[k] == before[k]) && fresh_edge(
            after[before.len() as int],
            a,
            bkey,
            j,
        ),
    ensures
        crate::transform::pair_recorded(t, nodes, jy, w, after),
{
    let (i0, jj0) = choose|i0: int, jj0: int|
        0 <= i0 < before.len() && 0 <= jj0 < before[i0].timetable.journeys@.len()
            && #[trigger] t.journey_record_matches(
            nodes,
            jy,
            w,
            before[i0].timetable.journeys@[jj0],
            before[i0].start_node,
            before[i0].end_node,
        );
    if has_edge_key(before, a, bkey) {
        let x = choose|x: int|
            0 <= x < before.len() && #[trigger] before[x].start_node == a && before[x].end_node
                == bkey && journey_appended(before[x], after[x], j) && (forall|y: int|
                0 <= y < before.len() && y != x ==> after[y] == before[y]);
        if i0 == x {
            assert(after[i0].timetable.journeys@[jj0] == before[i0].timetable.journeys@[jj0]);
            assert(t.journey_record_matches(
                nodes,
                jy,
                w,
                after[i0].timetable.journeys@[jj0],
                after[i0].start_node,
                after[i0].end_node,
            ));
        } else {
            assert(after[i0] == before[i0]);
            assert(t.journey_record_matches(
                nodes,
                jy,
                w,
                after[i0].timetable.journeys@[jj0],
                after[i0].start_node,
                after[i0].end_node,
            ));
        }
    } else {
        assert(after[i0] == before[i0]);
        assert(t.journey_record_matches(
            nodes,
            jy,
            w,
            after[i0].timetable.journeys@[jj0],
            after[i0].start_node,
            after[i0].end_node,
        ));
    }
}

impl Graph {
    /// Maps every service journey of the corpus onto edges and merges the
    /// per-journey maps: journeys for the same `(start, end)` key are
    /// concatenated, new keys start without a walking transfer. The result
    /// has one edge per key, endpoints inside the node table, and period
    /// indices below the corpus total.
    pub fn collect_edges(
        data: &Vec<NetexData>,
        transformer: &crate::transform::JourneyTransformer,
        nodes: &Nodes,
    ) -> (r: EdgeMap)
        requires
            transformer.wf(data@),
            nodes.wf(),
            crate::transform::all_journeys_resolvable(*transformer, data@),
        ensures
            r.wf(),
            edge_keys_bounded(r.edges@, nodes.vec@.len() as int),
            edges_ops_below(r.edges@, crate::transform::total_periods(data@)),
            total_journeys(r.edges@) == crate::transform::corpus_pairs(
                *transformer,
                *nodes,
                data@,
            ),
            forall|i: int, jj: int|
                0 <= i < r.edges@.len() && 0 <= jj < r.edges@[i].timetable.journeys@.len()
                    ==> crate::transform::record_from_corpus(
                    *transformer,
                    *nodes,
                    data@,
                    #[trigger] r.edges@[i].timetable.journeys@[jj],
                    r.edges@[i].start_node,
                    r.edges@[i].end_node,
                ),
            forall|dd: int, j2: int, w: int|
                0 <= dd < data@.len() && 0 <= j2 < data@[dd].service_journeys@.len() && 1 <= w
                    < data@[dd].service_journeys@[j2].passing_times@.len()
                    && #[trigger] transformer.pair_resolves(
                    *nodes,
                    data@[dd].service_journeys@[j2],
                    w,
                ) ==> crate::transform::pair_recorded(
                    *transformer,
                    *nodes,
                    data@[dd].service_journeys@[j2],
                    w,
                    r.edges@,
                ),
    {
        let ghost total = crate::transform::total_periods(data@);
        let mut edges = EdgeMap::new();
        let mut d: usize = 0;
        while d < data.len()
            invariant
                0 <= d <= data@.len(),
                transformer.wf(data@),
                nodes.wf(),
                crate::transform::all_journeys_resolvable(*transformer, data@),
                total == crate::transform::total_periods(data@),
                edges.wf(),
                edge_keys_bounded(edges.edges@, nodes.vec@.len() as int),
                edges_ops_below(edges.edges@, total),
                total_journeys(edges.edges@) == crate::transform::corpus_pairs(
                    *transformer,
                    *nodes,
                    data@.take(d as int),
                ),
                forall|i: int, jj: int|
                    0 <= i < edges.edges@.len() && 0 <= jj
                        < edges.edges@[i].timetable.journeys@.len()
                        ==> crate::transform::record_from_corpus(
                        *transformer,
                        *nodes,
                        data@,
                        #[trigger] edges.edges@[i].timetable.journeys@[jj],
                        edges.edges@[i].start_node,
                        edges.edges@[i].end_node,
                    ),
                forall|dd: int, j2: int, w: int|
                    0 <= dd < d && 0 <= j2 < data@[dd].service_journeys@.len() && 1 <= w
                        < data@[dd].service_journeys@[j2].passing_times@.len()
                        && #[trigger] transformer.pair_resolves(
                        *nodes,
                        data@[dd].service_journeys@[j2],
                        w,
                    ) ==> crate::transform::pair_recorded(
                        *transformer,
                        *nodes,
                        data@[dd].service_journeys@[j2],
                        w,
                        edges.edges@,
                    ),
            decreases data@.len() - d,
        {
            let journeys_len: usize = data[d].service_journeys.len();
            let mut jdx: usize = 0;
            while jdx < journeys_len
                invariant
                    0 <= jdx <= journeys_len,
                    d < data@.len(),
                    journeys_len == data@[d as int].service_journeys@.len(),
                    transformer.wf(data@),
                    nodes.wf(),
                    crate::transform::all_journeys_resolvable(*transformer, data@),
                    total == crate::transform::total_periods(data@),
                    edges.wf(),
                    edge_keys_bounded(edges.edges@, nodes.vec@.len() as int),
                    edges_ops_below(edges.edges@, total),
                    total_journeys(edges.edges@) == crate::transform::corpus_pairs(
                        *transformer,
                        *nodes,
                        data@.take(d as int),
                    ) + crate::transform::doc_pairs(
                        *transformer,
                        *nodes,
                        data@[d as int].service_journeys@.take(jdx as int),
                    ),
                    forall|i: int, jj: int|
                        0 <= i < edges.edges@.len() && 0 <= jj
                            < edges.edges@[i].timetable.journeys@.len()
                            ==> crate::transform::record_from_corpus(
                            *transformer,
                            *nodes,
                            data@,
                            #[trigger] edges.edges@[i].timetable.journeys@[jj],
                            edges.edges@[i].start_node,
                            edges.edges@[i].end_node,
                        ),
                    forall|dd: int, j2: int, w: int|
                        0 <= dd < data@.len() && 0 <= j2 < data@[dd].service_journeys@.len() && 1
                            <= w < data@[dd].service_journeys@[j2].passing_times@.len() && (dd < d
                            || (dd == d && j2 < jdx)) && #[trigger] transformer.pair_resolves(
                            *nodes,
                            data@[dd].service_journeys@[j2],
                            w,
                        ) ==> crate::transform::pair_recorded(
                            *transformer,
                            *nodes,
                            data@[dd].service_journeys@[j2],
                            w,
                            edges.edges@,
                        ),
                decreases journeys_len - jdx,
            {
                let local = transformer.to_edges(&data[d].service_journeys[jdx], nodes);
                let ghost jny = data@[d as int].service_journeys@[jdx as int];
                let mut le: Vec<Edge> = local.edges;
                let ghost le0 = le@;
                let ghost base = total_journeys(edges.edges@);
                let mut ei: usize = 0;
                while ei < le.len()
                    invariant
                        0 <= ei <= le@.len(),
                        le@.len() == le0.len(),
                        transformer.wf(data@),
                        nodes.wf(),
                        total == crate::transform::total_periods(data@),
                        edges.wf(),
                        edge_keys_bounded(edges.edges@, nodes.vec@.len() as int),
                        edges_ops_below(edges.edges@, total),
                        forall|x: int| ei <= x < le@.len() ==> #[trigger] le@[x] == le0[x],
                        forall|x: int|
                            0 <= x < ei ==> (#[trigger] le@[x]).timetable.journeys@.len() == 0,
                        total_journeys(edges.edges@) == base + total_journeys(le0)
                            - total_journeys(le@),
                        edge_keys_bounded(le0, nodes.vec@.len() as int),
                        forall|x: int, y: int|
                            0 <= x < le0.len() && 0 <= y < le0[x].timetable.journeys@.len()
                                ==> transformer.op_from_map(
                                (#[trigger] le0[x].timetable.journeys@[y]).operating_period,
                            ),
                        d < data@.len(),
                        jdx < data@[d as int].service_journeys@.len(),
                        jny == data@[d as int].service_journeys@[jdx as int],
                        forall|x: int, y: int|
                            0 <= x < le@.len() && 0 <= y < le@[x].timetable.journeys@.len()
                                ==> transformer.record_from_pair(
                                *nodes,
                                jny,
                                (#[trigger] le@[x].timetable.journeys@[y]),
                                le@[x].start_node,
                                le@[x].end_node,
                            ),
                        forall|i: int, jj: int|
                            0 <= i < edges.edges@.len() && 0 <= jj
                                < edges.edges@[i].timetable.journeys@.len()
                                ==> crate::transform::record_from_corpus(
                                *transformer,
                                *nodes,
                                data@,
                                #[trigger] edges.edges@[i].timetable.journeys@[jj],
                                edges.edges@[i].start_node,
                                edges.edges@[i].end_node,
                            ),
                        forall|dd: int, j2: int, w: int|
                            0 <= dd < data@.len() && 0 <= j2 < data@[dd].service_journeys@.len()
                                && 1 <= w < data@[dd].service_journeys@[j2].passing_times@.len()
                                && (dd < d || (dd == d && j2 < jdx))
                                && #[trigger] transformer.pair_resolves(
                                *nodes,
                                data@[dd].service_journeys@[j2],
                                w,
                            ) ==> crate::transform::pair_recorded(
                                *transformer,
                                *nodes,
                                data@[dd].service_journeys@[j2],
                                w,
                                edges.edges@,
                            ),
                        forall|w: int|
                            1 <= w < jny.passing_times@.len() && #[trigger] transformer.pair_resolves(
                                *nodes,
                                jny,
                                w,
                            ) ==> (crate::transform::pair_recorded(
                                *transformer,
                                *nodes,
                                jny,
                                w,
                                edges.edges@,
                            ) || crate::transform::pair_recorded(
                                *transformer,
                                *nodes,
                                jny,
                                w,
                                le@,
                            )),
                    decreases le@.len() - ei,
                {
                    let start: usize = le[ei].start_node;
                    let end: usize = le[ei].end_node;
                    proof {
                        assert(le@[ei as int] == le0[ei as int]);
                        assert(start < nodes.vec@.len());
                        assert(end < nodes.vec@.len());
                    }
                    while le[ei].timetable.journeys.len() > 0
                        invariant
                            0 <= ei < le@.len(),
                            le@.len() == le0.len(),
                            transformer.wf(data@),
                            total == crate::transform::total_periods(data@),
                            start < nodes.vec@.len(),
                            end < nodes.vec@.len(),
                            edges.wf(),
                            edge_keys_bounded(edges.edges@, nodes.vec@.len() as int),
                            edges_ops_below(edges.edges@, total),
                            forall|x: int| ei < x < le@.len() ==> #[trigger] le@[x] == le0[x],
                            forall|x: int|
                                0 <= x < ei ==> (#[trigger] le@[x]).timetable.journeys@.len()
                                    == 0,
                            total_journeys(edges.edges@) == base + total_journeys(le0)
                                - total_journeys(le@),
                            forall|y: int|
                                0 <= y < le@[ei as int].timetable.journeys@.len()
                                    ==> transformer.op_from_map(
                                    (
                                    #[trigger] le@[ei as int].timetable.journeys@[y]).operating_period,
                                ),
                            d < data@.len(),
                            jdx < data@[d as int].service_journeys@.len(),
                            jny == data@[d as int].service_journeys@[jdx as int],
                            nodes.wf(),
                            le@[ei as int].start_node == start,
                            le@[ei as int].end_node == end,
                            forall|x: int, y: int|
                                0 <= x < le@.len() && 0 <= y < le@[x].timetable.journeys@.len()
                                    ==> transformer.record_from_pair(
                                    *nodes,
                                    jny,
                                    (#[trigger] le@[x].timetable.journeys@[y]),
                                    le@[x].start_node,
                                    le@[x].end_node,
                                ),
                            forall|i: int, jj: int|
                                0 <= i < edges.edges@.len() && 0 <= jj
                                    < edges.edges@[i].timetable.journeys@.len()
                                    ==> crate::transform::record_from_corpus(
                                    *transformer,
                                    *nodes,
                                    data@,
                                    #[trigger] edges.edges@[i].timetable.journeys@[jj],
                                    edges.edges@[i].start_node,
                                    edges.edges@[i].end_node,
                                ),
                            forall|dd: int, j2: int, w: int|
                                0 <= dd < data@.len() && 0 <= j2
                                    < data@[dd].service_journeys@.len() && 1 <= w
                                    < data@[dd].service_journeys@[j2].passing_times@.len() && (dd
                                    < d || (dd == d && j2 < jdx))
                                    && #[trigger] transformer.pair_resolves(
                                    *nodes,
                                    data@[dd].service_journeys@[j2],
                                    w,
                                ) ==> crate::transform::pair_recorded(
                                    *transformer,
                                    *nodes,
                                    data@[dd].service_journeys@[j2],
                                    w,
                                    edges.edges@,
                                ),
                            forall|w: int|
                                1 <= w < jny.passing_times@.len()
                                    && #[trigger] transformer.pair_resolves(*nodes, jny, w) ==> (
                                crate::transform::pair_recorded(
                                    *transformer,
                                    *nodes,
                                    jny,
                                    w,
                                    edges.edges@,
                                ) || crate::transform::pair_recorded(
                                    *transformer,
                                    *nodes,
                                    jny,
                                    w,
                                    le@,
                                )),
                        decreases le@[ei as int].timetable.journeys@.len(),
                    {
                        let ghost le_pre = le@;
                        let j = le[ei].timetable.journeys.remove(0);
                        proof {
                            assert(le@ =~= le_pre.update(ei as int, le@[ei as int]));
                            lemma_total_journeys_update(le_pre, ei as int, le@[ei as int]);
                            assert(transformer.op_from_map(j.operating_period));
                            let p = choose|p: u64| #[trigger]
                                transformer.period_map@.contains_key(p)
                                    && transformer.period_map@[p] == j.operating_period;
                            assert((j.operating_period as int) < total);
                            assert(j == le_pre[ei as int].timetable.journeys@[0]);
                            assert(transformer.record_from_pair(*nodes, jny, j, start, end));
                            // the remaining local records keep their provenance
                            assert forall|x: int, y: int|
                                0 <= x < le@.len() && 0 <= y
                                    < le@[x].timetable.journeys@.len() implies
                                transformer.record_from_pair(
                                *nodes,
                                jny,
                                (#[trigger] le@[x].timetable.journeys@[y]),
                                le@[x].start_node,
                                le@[x].end_node,
                            ) by {
                                if x == ei as int {
                                    assert(le@[x].timetable.journeys@[y]
                                        == le_pre[x].timetable.journeys@[y + 1]);
                                } else {
                                    assert(le@[x] == le_pre[x]);
                                }
                            }
                        }
                        let ghost before2 = edges.edges@;
                        edges.push_journey(start, end, j);
                        proof {
                            let after2 = edges.edges@;
                            // the location the pushed record landed at
                            let ghost (ti, tjj) = if has_edge_key(before2, start, end) {
                                let x = choose|x: int|
                                    0 <= x < before2.len() && #[trigger] before2[x].start_node
                                        == start && before2[x].end_node == end;
                                (x, before2[x].timetable.journeys@.len() as int)
                            } else {
                                (before2.len() as int, 0int)
                            };
                            assert(0 <= ti < after2.len() && 0 <= tjj
                                < after2[ti].timetable.journeys@.len()
                                && after2[ti].timetable.journeys@[tjj] == j
                                && after2[ti].start_node == start && after2[ti].end_node == end)
                                by {
                                if has_edge_key(before2, start, end) {
                                    let x = choose|x: int|
                                        0 <= x < before2.len() && #[trigger] before2[x].start_node
                                            == start && before2[x].end_node == end
                                            && journey_appended(before2[x], after2[x], j);
                                    assert(edge_keys_distinct(before2));
                                    assert(x == ti);
                                }
                            }
                            // every accumulated record still has corpus provenance
                            assert forall|i: int, jj: int|
                                0 <= i < after2.len() && 0 <= jj
                                    < after2[i].timetable.journeys@.len() implies
                                crate::transform::record_from_corpus(
                                *transformer,
                                *nodes,
                                data@,
                                #[trigger] after2[i].timetable.journeys@[jj],
                                after2[i].start_node,
                                after2[i].end_node,
                            ) by {
                                if i == ti && jj == tjj {
                                    assert(after2[i].timetable.journeys@[jj] == j);
                                    assert(transformer.record_from_pair(
                                        *nodes,
                                        data@[d as int].service_journeys@[jdx as int],
                                        j,
                                        start,
                                        end,
                                    ));
                                } else {
                                    assert(i < before2.len());
                                    assert(after2[i].start_node == before2[i].start_node
                                        && after2[i].end_node == before2[i].end_node
                                        && after2[i].timetable.journeys@[jj]
                                        == before2[i].timetable.journeys@[jj] && jj
                                        < before2[i].timetable.journeys@.len()) by {
                                        if has_edge_key(before2, start, end) {
                                            let x = choose|x: int|
                                                0 <= x < before2.len()
                                                    && #[trigger] before2[x].start_node == start
                                                    && before2[x].end_node == end
                                                    && journey_appended(before2[x], after2[x], j)
                                                    && (forall|yy: int|
                                                    0 <= yy < before2.len() && yy != x
                                                        ==> after2[yy] == before2[yy]);
                                            assert(x == ti);
                                        }
                                    }
                                }
                            }
                            // previously settled pairs stay settled
                            assert forall|dd: int, j2: int, w: int|
                                0 <= dd < data@.len() && 0 <= j2
                                    < data@[dd].service_journeys@.len() && 1 <= w
                                    < data@[dd].service_journeys@[j2].passing_times@.len() && (dd
                                    < d || (dd == d && j2 < jdx))
                                    && #[trigger] transformer.pair_resolves(
                                    *nodes,
                                    data@[dd].service_journeys@[j2],
                                    w,
                                ) implies crate::transform::pair_recorded(
                                *transformer,
                                *nodes,
                                data@[dd].service_journeys@[j2],
                                w,
                                after2,
                            ) by {
                                lemma_recorded_survives_push(
                                    *transformer,
                                    *nodes,
                                    data@[dd].service_journeys@[j2],
                                    w,
                                    before2,
                                    after2,
                                    start,
                                    end,
                                    j,
                                );
                            }
                            // the current journey's pairs are settled or still local
                            assert forall|w: int|
                                1 <= w < jny.passing_times@.len()
                                    && #[trigger] transformer.pair_resolves(*nodes, jny, w)
                                implies (crate::transform::pair_recorded(
                                *transformer,
                                *nodes,
                                jny,
                                w,
                                after2,
                            ) || crate::transform::pair_recorded(
                                *transformer,
                                *nodes,
                                jny,
                                w,
                                le@,
                            )) by {
                                if crate::transform::pair_recorded(
                                    *transformer,
                                    *nodes,
                                    jny,
                                    w,
                                    before2,
                                ) {
                                    lemma_recorded_survives_push(
                                        *transformer,
                                        *nodes,
                                        jny,
                                        w,
                                        before2,
                                        after2,
                                        start,
                                        end,
                                        j,
                                    );
                                } else {
                                    let (x, y) = choose|x: int, y: int|
                                        0 <= x < le_pre.len() && 0 <= y
                                            < le_pre[x].timetable.journeys@.len()
                                            && #[trigger] transformer.journey_record_matches(
                                            *nodes,
                                            jny,
                                            w,
                                            le_pre[x].timetable.journeys@[y],
                                            le_pre[x].start_node,
                                            le_pre[x].end_node,
                                        );
                                    if x == ei as int && y == 0 {
                                        assert(le_pre[x].timetable.journeys@[0] == j);
                                        assert(transformer.journey_record_matches(
                                            *nodes,
                                            jny,
                                            w,
                                            after2[ti].timetable.journeys@[tjj],
                                            after2[ti].start_node,
                                            after2[ti].end_node,
                                        ));
                                    } else if x == ei as int {
                                        assert(le@[x].timetable.journeys@[y - 1]
                                            == le_pre[x].timetable.journeys@[y]);
                                        assert(transformer.journey_record_matches(
                                            *nodes,
                                            jny,
                                            w,
                                            le@[x].timetable.journeys@[y - 1],
                                            le@[x].start_node,
                                            le@[x].end_node,
                                        ));
                                    } else {
                                        assert(le@[x] == le_pre[x]);
                                        assert(transformer.journey_record_matches(
                                            *nodes,
                                            jny,
                                            w,
                                            le@[x].timetable.journeys@[y],
                                            le@[x].start_node,
                                            le@[x].end_node,
                                        ));
                                    }
                                }
                            }
                        }
                    }
                    ei += 1;
                }
                proof {
                    lemma_total_journeys_zero(le@);
                    assert(total_journeys(edges.edges@) == base + total_journeys(le0));
                    let js = data@[d as int].service_journeys@;
                    assert(js.take(jdx as int + 1).drop_last() =~= js.take(jdx as int));
                    assert(js.take(jdx as int + 1).last() == js[jdx as int]);
                }
                jdx += 1;
            }
            proof {
                let js = data@[d as int].service_journeys@;
                assert(js.take(js.len() as int) =~= js);
                assert(data@.take(d as int + 1).drop_last() =~= data@.take(d as int));
                assert(data@.take(d as int + 1).last() == data@[d as int]);
            }
            d += 1;
        }
        proof {
            assert(data@.take(data@.len() as int) =~= data@);
        }
        edges
    }

    /// The whole journey-to-graph pipeline in one call: maps every corpus
    /// journey onto edges, merges the external walking transfers, filters
    /// implausible journeys against the given great-circle distance oracle
    /// (millimetres between two node indices), and remaps the period
    /// indices. The result satisfies the graph invariant: endpoints inside
    /// the node table, one edge per `(start, end)` key, and every journey's
    /// period index inside its own edge's table.
    pub fn from_data<F: Fn(usize, usize) -> u64>(
        data: &Vec<NetexData>,
        transformer: &crate::transform::JourneyTransformer,
        nodes: Nodes,
        walkways: &Vec<WalkEdge>,
        dist_mm: F,
    ) -> (g: Graph)
        requires
            transformer.wf(data@),
            nodes.wf(),
            crate::transform::all_journeys_resolvable(*transformer, data@),
            corpus_times_ok(data@),
            forall|a: usize, b: usize| #[trigger] call_requires(dist_mm, (a, b)),
            forall|a: usize, b: usize, r: u64|
                #[trigger] call_ensures(dist_mm, (a, b), r) ==> r <= 100000000000000,
        ensures
            g.wf(),
            g.nodes@ == nodes.vec@,
    {
        let mut edges = Self::collect_edges(data, transformer, &nodes);
        let mut wi: usize = 0;
        while wi < walkways.len()
            invariant
                0 <= wi <= walkways@.len(),
                nodes.wf(),
                transformer.wf(data@),
                edges.wf(),
                edge_keys_bounded(edges.edges@, nodes.vec@.len() as int),
                edges_ops_below(edges.edges@, crate::transform::total_periods(data@)),
                forall|i: int, jj: int|
                    0 <= i < edges.edges@.len() && 0 <= jj
                        < edges.edges@[i].timetable.journeys@.len()
                        ==> crate::transform::record_from_corpus(
                        *transformer,
                        nodes,
                        data@,
                        #[trigger] edges.edges@[i].timetable.journeys@[jj],
                        edges.edges@[i].start_node,
                        edges.edges@[i].end_node,
                    ),
                forall|a: usize, b: usize| #[trigger] call_requires(dist_mm, (a, b)),
                forall|a: usize, b: usize, r: u64|
                    #[trigger] call_ensures(dist_mm, (a, b), r) ==> r <= 100000000000000,
            decreases walkways@.len() - wi,
        {
            let walk = &walkways[wi];
            let dmm: u64 = match (nodes.index_by_id(walk.start), nodes.index_by_id(walk.end)) {
                (Some(a), Some(b)) => dist_mm(a, b),
                _ => 0,
            };
            let ghost before = edges.edges@;
            Self::update_walk(walk, &nodes, &mut edges, dmm);
            proof {
                assert(edges_ops_below(edges.edges@, crate::transform::total_periods(data@))) by {
                    assert forall|i: int|
                        0 <= i < edges.edges@.len() implies edge_periods_bounded(
                        #[trigger] edges.edges@[i],
                        crate::transform::total_periods(data@),
                    ) by {
                        if edges.edges@ != before {
                            if i < before.len() {
                                assert(edges.edges@[i].timetable.journeys@
                                    == before[i].timetable.journeys@);
                                assert(edge_periods_bounded(
                                    before[i],
                                    crate::transform::total_periods(data@),
                                ));
                            } else {
                                assert(edges.edges@[i].timetable.journeys@.len() == 0);
                            }
                        }
                    }
                }
                assert forall|i: int, jj: int|
                    0 <= i < edges.edges@.len() && 0 <= jj
                        < edges.edges@[i].timetable.journeys@.len() implies
                    crate::transform::record_from_corpus(
                    *transformer,
                    nodes,
                    data@,
                    #[trigger] edges.edges@[i].timetable.journeys@[jj],
                    edges.edges@[i].start_node,
                    edges.edges@[i].end_node,
                ) by {
                    if edges.edges@ != before {
                        if i < before.len() {
                            assert(edges.edges@[i].timetable.journeys@[jj]
                                == before[i].timetable.journeys@[jj]);
                            assert(edges.edges@[i].start_node == before[i].start_node);
                            assert(edges.edges@[i].end_node == before[i].end_node);
                        } else {
                            assert(edges.edges@[i].timetable.journeys@.len() == 0);
                        }
                    }
                }
            }
            wi += 1;
        }
        let mut dists: Vec<u64> = Vec::new();
        let mut i: usize = 0;
        while i < edges.edges.len()
            invariant
                0 <= i <= edges.edges@.len(),
                dists@.len() == i,
                forall|k: int| 0 <= k < i ==> #[trigger] dists@[k] <= 100000000000000,
                forall|a: usize, b: usize| #[trigger] call_requires(dist_mm, (a, b)),
                forall|a: usize, b: usize, r: u64|
                    #[trigger] call_ensures(dist_mm, (a, b), r) ==> r <= 100000000000000,
            decreases edges.edges@.len() - i,
        {
            let dv: u64 = dist_mm(edges.edges[i].start_node, edges.edges[i].end_node);
            dists.push(dv);
            i += 1;
        }
        proof {
            assert forall|k: int, j: int|
                0 <= k < edges.edges@.len() && 0 <= j
                    < edges.edges@[k].timetable.journeys@.len() implies (
            #[trigger] edges.edges@[k].timetable.journeys@[j]).departure
                <= edges.edges@[k].timetable.journeys@[j].arrival + 1440 by {
                let rec = edges.edges@[k].timetable.journeys@[j];
                let (dd, j2) = choose|dd: int, j2: int|
                    0 <= dd < data@.len() && 0 <= j2 < data@[dd].service_journeys@.len()
                        && #[trigger] transformer.record_from_pair(
                        nodes,
                        data@[dd].service_journeys@[j2],
                        rec,
                        edges.edges@[k].start_node,
                        edges.edges@[k].end_node,
                    );
                let jy = data@[dd].service_journeys@[j2];
                let w = choose|w: int|
                    1 <= w < jy.passing_times@.len() && #[trigger] transformer.pair_resolves(
                        nodes,
                        jy,
                        w,
                    ) && transformer.journey_record_matches(
                        nodes,
                        jy,
                        w,
                        rec,
                        edges.edges@[k].start_node,
                        edges.edges@[k].end_node,
                    );
                assert(rec.departure == jy.passing_times@[w - 1].departure);
                assert(rec.arrival == jy.passing_times@[w].arrival);
            }
        }
        Self::from_parts(nodes, edges, data, &dists)
    }

    /// Finishes the edges and assembles the graph: every edge's journeys
    /// pass the speed filter for that edge's distance, the period indices
    /// become local to each edge, and the result satisfies the graph
    /// invariant. The edge keys and walking transfers stay as they were.
    pub fn from_parts(
        nodes: Nodes,
        edges: EdgeMap,
        data: &Vec<NetexData>,
        dists_mm: &Vec<u64>,
    ) -> (g: Graph)
        requires
            edges.wf(),
            edge_keys_bounded(edges.edges@, nodes.vec@.len() as int),
            edges_ops_below(edges.edges@, crate::transform::total_periods(data@)),
            dists_mm@.len() == edges.edges@.len(),
            forall|i: int| 0 <= i < dists_mm@.len() ==> #[trigger] dists_mm@[i] <= 100000000000000,
            forall|i: int, j: int|
                0 <= i < edges.edges@.len() && 0 <= j
                    < edges.edges@[i].timetable.journeys@.len() ==> (
                #[trigger] edges.edges@[i].timetable.journeys@[j]).departure
                    <= edges.edges@[i].timetable.journeys@[j].arrival + 1440,
        ensures
            g.wf(),
            g.nodes@ == nodes.vec@,
            g.edges@.len() == edges.edges@.len(),
            forall|i: int|
                0 <= i < g.edges@.len() ==> finished_edge(
                    edges.edges@[i],
                    #[trigger] g.edges@[i],
                    dists_mm@[i],
                    data@,
                ),
    {
        let ghost orig = edges.edges@;
        let mut em = edges;
        let mut i: usize = 0;
        while i < em.edges.len()
            invariant
                0 <= i <= em.edges@.len(),
                em.edges@.len() == orig.len(),
                dists_mm@.len() == orig.len(),
                forall|k: int| 0 <= k < dists_mm@.len() ==> #[trigger] dists_mm@[k]
                    <= 100000000000000,
                edges_ops_below(orig, crate::transform::total_periods(data@)),
                forall|k: int, j: int|
                    0 <= k < orig.len() && 0 <= j < orig[k].timetable.journeys@.len() ==> (
                    #[trigger] orig[k].timetable.journeys@[j]).departure
                        <= orig[k].timetable.journeys@[j].arrival + 1440,
                forall|k: int| i <= k < orig.len() ==> #[trigger] em.edges@[k] == orig[k],
                forall|k: int|
                    0 <= k < i ==> finished_edge(
                        orig[k],
                        #[trigger] em.edges@[k],
                        dists_mm@[k],
                        data@,
                    ),
            decreases em.edges@.len() - i,
        {
            let dist: u64 = dists_mm[i];
            proof {
                assert(em.edges@[i as int] == orig[i as int]);
            }
            let edge = &mut em.edges[i];
            filter_journeys(edge, dist);
            proof {
                let filtered = edge.timetable.journeys@;
                let before = orig[i as int].timetable.journeys@;
                assert forall|j: int|
                    0 <= j < filtered.len() implies (#[trigger] filtered[j]).operating_period
                    < crate::transform::total_periods(data@) by {
                    assert(before.contains(filtered[j]));
                    let m = choose|m: int| 0 <= m < before.len() && before[m] == filtered[j];
                    assert(edge_periods_bounded(orig[i as int], crate::transform::total_periods(data@)));
                }
                assert(edge_periods_bounded(*edge, crate::transform::total_periods(data@)));
            }
            Self::remap_periods(edge, data);
            proof {
                assert(finished_edge(orig[i as int], em.edges@[i as int], dist, data@));
                assert(dist == dists_mm@[i as int]);
            }
            i += 1;
        }
        Graph { nodes: nodes.vec, edges: em.edges }
    }
}

} // verus!
