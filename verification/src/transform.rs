//! Journey-to-edge transformation: the lookup tables that resolve a service
//! journey's references, and the mapping of each journey onto directed
//! edges keyed by `(start node, end node)`.

use vstd::prelude::*;

verus! {

use std::collections::HashMap;
use crate::cluster::Nodes;
use crate::graph::EdgeMap;
use crate::graph::Journey;
use crate::graph::edge_keys_bounded;
use crate::parser::Authority;
use crate::parser::DayTypeAssignment;
use crate::parser::Line;
use crate::parser::NetexData;
use crate::parser::ServiceJourney;
use crate::parser::UicOperatingPeriod;

/// The corpus-wide operating-period table: every document's periods, in
/// document order. A journey's global period index points into this.
pub open spec fn all_periods(data: Seq<NetexData>) -> Seq<UicOperatingPeriod>
    decreases data.len(),
{
    if data.len() == 0 {
        Seq::empty()
    } else {
        all_periods(data.drop_last()) + data.last().operating_periods@
    }
}

/// How many operating periods the corpus holds.
pub open spec fn total_periods(data: Seq<NetexData>) -> int {
    all_periods(data).len() as int
}

/// The periods of a corpus prefix sit unchanged at the front of the full
/// table.
pub proof fn lemma_all_periods_prefix(data: Seq<NetexData>, d: int)
    requires
        0 <= d <= data.len(),
    ensures
        all_periods(data.take(d)).len() <= all_periods(data).len(),
        forall|i: int|
            0 <= i < all_periods(data.take(d)).len() ==> all_periods(data.take(d))[i]
                == all_periods(data)[i],
    decreases data.len() - d,
{
    if d == data.len() {
        assert(data.take(d) =~= data);
    } else {
        lemma_all_periods_prefix(data, d + 1);
        assert(data.take(d + 1).drop_last() =~= data.take(d));
        assert(data.take(d + 1).last() == data[d]);
    }
}

/// Some document holds a line with this id.
pub open spec fn data_has_line(data: Seq<NetexData>, id: u64) -> bool {
    exists|d: int, k: int|
        0 <= d < data.len() && 0 <= k < data[d].lines@.len() && (#[trigger] data[d].lines@[k]).id
            == id
}

/// Some document holds an authority with this id.
pub open spec fn data_has_authority(data: Seq<NetexData>, id: u64) -> bool {
    exists|d: int, k: int|
        0 <= d < data.len() && 0 <= k < data[d].authorities@.len() && (
        #[trigger] data[d].authorities@[k]).id == id
}

/// Some document holds a journey pattern with this id.
pub open spec fn data_has_pattern(data: Seq<NetexData>, id: u64) -> bool {
    exists|d: int, k: int|
        0 <= d < data.len() && 0 <= k < data[d].service_journey_patterns@.len() && (
        #[trigger] data[d].service_journey_patterns@[k]).id == id
}

/// Some document holds a day-type assignment for this day type.
pub open spec fn data_has_day_type(data: Seq<NetexData>, day_type: u64) -> bool {
    exists|d: int, k: int|
        0 <= d < data.len() && 0 <= k < data[d].day_type_assignments@.len() && (
        #[trigger] data[d].day_type_assignments@[k]).day_type == day_type
}

/// Some pattern of some document holds a pattern stop with this id.
pub open spec fn data_has_pattern_stop(data: Seq<NetexData>, id: u64) -> bool {
    exists|d: int, p: int, k: int|
        0 <= d < data.len() && 0 <= p < data[d].service_journey_patterns@.len() && 0 <= k
            < data[d].service_journey_patterns@[p].stops@.len() && (
        #[trigger] data[d].service_journey_patterns@[p].stops@[k]).id == id
}

/// Some document holds a period with this id.
pub open spec fn data_has_period(data: Seq<NetexData>, id: u64) -> bool {
    exists|d: int, k: int|
        0 <= d < data.len() && 0 <= k < data[d].operating_periods@.len() && (
        #[trigger] data[d].operating_periods@[k]).id == id
}

/// The stored line is a corpus record with the looked-up id.
pub open spec fn line_record_at(data: Seq<NetexData>, d: int, k: int, id: u64, rec: Line) -> bool {
    &&& 0 <= d < data.len() && 0 <= k < data[d].lines@.len()
    &&& data[d].lines@[k].id == id
    &&& rec.id == id
    &&& rec.short_name@ == data[d].lines@[k].short_name@
    &&& rec.authority == data[d].lines@[k].authority
}

/// The stored authority is a corpus record with the looked-up id.
pub open spec fn authority_record_at(
    data: Seq<NetexData>,
    d: int,
    k: int,
    id: u64,
    rec: Authority,
) -> bool {
    &&& 0 <= d < data.len() && 0 <= k < data[d].authorities@.len()
    &&& data[d].authorities@[k].id == id
    &&& rec.id == id
    &&& rec.short_name@ == data[d].authorities@[k].short_name@
}

/// The stored assignment is a corpus record for the looked-up day type.
pub open spec fn dta_record_at(
    data: Seq<NetexData>,
    d: int,
    k: int,
    dt: u64,
    rec: DayTypeAssignment,
) -> bool {
    &&& 0 <= d < data.len() && 0 <= k < data[d].day_type_assignments@.len()
    &&& data[d].day_type_assignments@[k].day_type == dt
    &&& rec.day_type == dt
    &&& rec.operating_period == data[d].day_type_assignments@[k].operating_period
    &&& rec.is_available == data[d].day_type_assignments@[k].is_available
}

/// Some corpus pattern with the looked-up id carries the stored line ref.
pub open spec fn pattern_line_at(data: Seq<NetexData>, d: int, k: int, id: u64, v: u64) -> bool {
    &&& 0 <= d < data.len() && 0 <= k < data[d].service_journey_patterns@.len()
    &&& data[d].service_journey_patterns@[k].id == id
    &&& data[d].service_journey_patterns@[k].line == v
}

/// The stored stop reference is the one of the first pattern stop with the
/// looked-up id, in document, pattern, stop order.
pub open spec fn first_stop_ref_at(
    data: Seq<NetexData>,
    d: int,
    p: int,
    k: int,
    id: u64,
    v: u64,
) -> bool {
    &&& 0 <= d < data.len() && 0 <= p < data[d].service_journey_patterns@.len() && 0 <= k
        < data[d].service_journey_patterns@[p].stops@.len()
    &&& data[d].service_journey_patterns@[p].stops@[k].id == id
    &&& data[d].service_journey_patterns@[p].stops@[k].scheduled_stop_point == v
    &&& forall|d2: int, p2: int, k2: int|
        0 <= d2 < data.len() && 0 <= p2 < data[d2].service_journey_patterns@.len() && 0 <= k2
            < data[d2].service_journey_patterns@[p2].stops@.len() && (d2 < d || (d2 == d && p2 < p)
            || (d2 == d && p2 == p && k2 < k)) ==> (
        #[trigger] data[d2].service_journey_patterns@[p2].stops@[k2]).id != id
}

/// First-write-wins: the stored stop reference comes from the first
/// occurrence of the pattern-stop id.
pub open spec fn first_stop_ref(data: Seq<NetexData>, id: u64, v: u64) -> bool {
    exists|d: int, p: int, k: int| first_stop_ref_at(data, d, p, k, id, v)
}

/// The stored line is the last corpus record with the looked-up id among
/// the records before the scan bound `(dbound, kbound)`; with the bound
/// past the corpus this is last-write-wins outright.
pub open spec fn last_line_at(
    data: Seq<NetexData>,
    d: int,
    k: int,
    id: u64,
    rec: Line,
    dbound: int,
    kbound: int,
) -> bool {
    &&& line_record_at(data, d, k, id, rec)
    &&& forall|d2: int, k2: int|
        0 <= d2 < data.len() && 0 <= k2 < data[d2].lines@.len() && (d2 > d || (d2 == d && k2 > k))
            && (d2 < dbound || (d2 == dbound && k2 < kbound)) ==> (
        #[trigger] data[d2].lines@[k2]).id != id
}

/// Last-write-wins for the line table, up to the scan bound.
pub open spec fn last_line_from_corpus(
    data: Seq<NetexData>,
    id: u64,
    rec: Line,
    dbound: int,
    kbound: int,
) -> bool {
    exists|d: int, k: int| #[trigger] last_line_at(data, d, k, id, rec, dbound, kbound)
}

/// The stored authority is the last corpus record with the looked-up id
/// among the records before the scan bound.
pub open spec fn last_authority_at(
    data: Seq<NetexData>,
    d: int,
    k: int,
    id: u64,
    rec: Authority,
    dbound: int,
    kbound: int,
) -> bool {
    &&& authority_record_at(data, d, k, id, rec)
    &&& forall|d2: int, k2: int|
        0 <= d2 < data.len() && 0 <= k2 < data[d2].authorities@.len() && (d2 > d || (d2 == d && k2
            > k)) && (d2 < dbound || (d2 == dbound && k2 < kbound)) ==> (
        #[trigger] data[d2].authorities@[k2]).id != id
}

/// Last-write-wins for the authority table, up to the scan bound.
pub open spec fn last_authority_from_corpus(
    data: Seq<NetexData>,
    id: u64,
    rec: Authority,
    dbound: int,
    kbound: int,
) -> bool {
    exists|d: int, k: int| #[trigger] last_authority_at(data, d, k, id, rec, dbound, kbound)
}

/// The stored line reference is the last pattern record with the looked-up
/// id among the records before the scan bound.
pub open spec fn last_pattern_line_at(
    data: Seq<NetexData>,
    d: int,
    k: int,
    id: u64,
    v: u64,
    dbound: int,
    kbound: int,
) -> bool {
    &&& pattern_line_at(data, d, k, id, v)
    &&& forall|d2: int, k2: int|
        0 <= d2 < data.len() && 0 <= k2 < data[d2].service_journey_patterns@.len() && (d2 > d || (
        d2 == d && k2 > k)) && (d2 < dbound || (d2 == dbound && k2 < kbound)) ==> (
        #[trigger] data[d2].service_journey_patterns@[k2]).id != id
}

/// Last-write-wins for the pattern-to-line table, up to the scan bound.
pub open spec fn last_pattern_line_from_corpus(
    data: Seq<NetexData>,
    id: u64,
    v: u64,
    dbound: int,
    kbound: int,
) -> bool {
    exists|d: int, k: int| #[trigger] last_pattern_line_at(data, d, k, id, v, dbound, kbound)
}

/// The stored assignment is the last corpus record for the looked-up day
/// type among the records before the scan bound.
pub open spec fn last_dta_at(
    data: Seq<NetexData>,
    d: int,
    k: int,
    dt: u64,
    rec: DayTypeAssignment,
    dbound: int,
    kbound: int,
) -> bool {
    &&& dta_record_at(data, d, k, dt, rec)
    &&& forall|d2: int, k2: int|
        0 <= d2 < data.len() && 0 <= k2 < data[d2].day_type_assignments@.len() && (d2 > d || (d2
            == d && k2 > k)) && (d2 < dbound || (d2 == dbound && k2 < kbound)) ==> (
        #[trigger] data[d2].day_type_assignments@[k2]).day_type != dt
}

/// Last-write-wins for the day-type table, up to the scan bound.
pub open spec fn last_dta_from_corpus(
    data: Seq<NetexData>,
    dt: u64,
    rec: DayTypeAssignment,
    dbound: int,
    kbound: int,
) -> bool {
    exists|d: int, k: int| #[trigger] last_dta_at(data, d, k, dt, rec, dbound, kbound)
}

/// The lookup tables that journey-to-edge mapping needs, built once from
/// the whole corpus.
pub struct JourneyTransformer {
    pub authorities: HashMap<u64, Authority>,
    pub day_type_assignments: HashMap<u64, DayTypeAssignment>,
    pub lines: HashMap<u64, Line>,
    pub pattern_ref_to_line_ref: HashMap<u64, u64>,
    pub point_in_journey_to_stop_ref: HashMap<u64, u64>,
    pub period_map: HashMap<u64, usize>,
}

impl JourneyTransformer {
    /// The tables agree with the corpus: a key is present exactly when the
    /// corpus holds such an entity, every stored value comes from such an
    /// entity, and every period index is a real global index for its id.
    pub open spec fn wf(self, data: Seq<NetexData>) -> bool {
        &&& forall|id: u64| #[trigger]
            self.lines@.contains_key(id) <==> data_has_line(data, id)
        &&& forall|id: u64|
            self.lines@.contains_key(id) ==> (#[trigger] self.lines@[id]).id == id
        &&& forall|id: u64|
            self.lines@.contains_key(id) ==> last_line_from_corpus(
                data,
                id,
                #[trigger] self.lines@[id],
                data.len() as int,
                0,
            )
        &&& forall|id: u64| #[trigger]
            self.authorities@.contains_key(id) <==> data_has_authority(data, id)
        &&& forall|id: u64|
            self.authorities@.contains_key(id) ==> (#[trigger] self.authorities@[id]).id == id
        &&& forall|id: u64|
            self.authorities@.contains_key(id) ==> last_authority_from_corpus(
                data,
                id,
                #[trigger] self.authorities@[id],
                data.len() as int,
                0,
            )
        &&& forall|id: u64| #[trigger]
            self.pattern_ref_to_line_ref@.contains_key(id) <==> data_has_pattern(data, id)
        &&& forall|id: u64|
            self.pattern_ref_to_line_ref@.contains_key(id) ==> last_pattern_line_from_corpus(
                data,
                id,
                #[trigger] self.pattern_ref_to_line_ref@[id],
                data.len() as int,
                0,
            )
        &&& forall|dt: u64| #[trigger]
            self.day_type_assignments@.contains_key(dt) <==> data_has_day_type(data, dt)
        &&& forall|dt: u64|
            self.day_type_assignments@.contains_key(dt) ==> (
            #[trigger] self.day_type_assignments@[dt]).day_type == dt
        &&& forall|dt: u64|
            self.day_type_assignments@.contains_key(dt) ==> last_dta_from_corpus(
                data,
                dt,
                #[trigger] self.day_type_assignments@[dt],
                data.len() as int,
                0,
            )
        &&& forall|id: u64| #[trigger]
            self.point_in_journey_to_stop_ref@.contains_key(id) <==> data_has_pattern_stop(
                data,
                id,
            )
        &&& forall|id: u64|
            self.point_in_journey_to_stop_ref@.contains_key(id) ==> first_stop_ref(
                data,
                id,
                #[trigger] self.point_in_journey_to_stop_ref@[id],
            )
        &&& forall|id: u64| #[trigger]
            self.period_map@.contains_key(id) <==> data_has_period(data, id)
        &&& forall|id: u64|
            self.period_map@.contains_key(id) ==> (#[trigger] self.period_map@[id])
                < total_periods(data) && all_periods(data)[self.period_map@[id] as int].id == id
        &&& forall|id: u64|
            self.period_map@.contains_key(id) ==> (forall|k2: int|
                (#[trigger] self.period_map@[id]) < k2 < total_periods(data) ==> (
                #[trigger] all_periods(data)[k2]).id != id)
    }

    /// Builds the six lookup tables from the corpus.
    pub fn from_data(data: &Vec<NetexData>) -> (r: JourneyTransformer)
        requires
            total_periods(data@) <= usize::MAX,
        ensures
            r.wf(data@),
    {
        let mut point_in_journey_to_stop_ref: HashMap<u64, u64> = HashMap::new();
        let mut d: usize = 0;
        while d < data.len()
            invariant
                0 <= d <= data@.len(),
                forall|id: u64| #[trigger]
                    point_in_journey_to_stop_ref@.contains_key(id) <==> (exists|
                        dd: int,
                        p: int,
                        k: int,
                    |
                        0 <= dd < d && 0 <= p < data@[dd].service_journey_patterns@.len() && 0 <= k
                            < data@[dd].service_journey_patterns@[p].stops@.len() && (
                        #[trigger] data@[dd].service_journey_patterns@[p].stops@[k]).id == id),
                forall|id: u64|
                    point_in_journey_to_stop_ref@.contains_key(id) ==> first_stop_ref(
                        data@,
                        id,
                        #[trigger] point_in_journey_to_stop_ref@[id],
                    ),
            decreases data@.len() - d,
        {
            let patterns_len: usize = data[d].service_journey_patterns.len();
            let mut p: usize = 0;
            while p < patterns_len
                invariant
                    0 <= p <= patterns_len,
                    d < data@.len(),
                    patterns_len == data@[d as int].service_journey_patterns@.len(),
                    forall|id: u64| #[trigger]
                        point_in_journey_to_stop_ref@.contains_key(id) <==> (exists|
                            dd: int,
                            pp: int,
                            k: int,
                        |
                            0 <= dd < data@.len() && 0 <= pp
                                < data@[dd].service_journey_patterns@.len() && 0 <= k
                                < data@[dd].service_journey_patterns@[pp].stops@.len() && (dd < d
                                || (dd == d && pp < p)) && (
                            #[trigger] data@[dd].service_journey_patterns@[pp].stops@[k]).id
                                == id),
                    forall|id: u64|
                        point_in_journey_to_stop_ref@.contains_key(id) ==> first_stop_ref(
                            data@,
                            id,
                            #[trigger] point_in_journey_to_stop_ref@[id],
                        ),
                decreases patterns_len - p,
            {
                let stops_len: usize = data[d].service_journey_patterns[p].stops.len();
                let mut k: usize = 0;
                while k < stops_len
                    invariant
                        0 <= k <= stops_len,
                        d < data@.len(),
                        p < data@[d as int].service_journey_patterns@.len(),
                        stops_len == data@[d as int].service_journey_patterns@[p as int].stops@.len(),
                        forall|id: u64| #[trigger]
                            point_in_journey_to_stop_ref@.contains_key(id) <==> (exists|
                                dd: int,
                                pp: int,
                                kk: int,
                            |
                                0 <= dd < data@.len() && 0 <= pp
                                    < data@[dd].service_journey_patterns@.len() && 0 <= kk
                                    < data@[dd].service_journey_patterns@[pp].stops@.len() && (dd
                                    < d || (dd == d && pp < p) || (dd == d && pp == p && kk < k))
                                    && (
                                #[trigger] data@[dd].service_journey_patterns@[pp].stops@[kk]).id
                                    == id),
                        forall|id: u64|
                            point_in_journey_to_stop_ref@.contains_key(id) ==> first_stop_ref(
                                data@,
                                id,
                                #[trigger] point_in_journey_to_stop_ref@[id],
                            ),
                    decreases stops_len - k,
                {
                    let stop = &data[d].service_journey_patterns[p].stops[k];
                    let ghost pre = point_in_journey_to_stop_ref@;
                    if !point_in_journey_to_stop_ref.contains_key(&stop.id) {
                        point_in_journey_to_stop_ref.insert(stop.id, stop.scheduled_stop_point);
                        proof {
                            assert(first_stop_ref_at(
                                data@,
                                d as int,
                                p as int,
                                k as int,
                                stop.id,
                                stop.scheduled_stop_point,
                            ));
                            assert(first_stop_ref(data@, stop.id, stop.scheduled_stop_point));
                        }
                    }
                    proof {
                        assert forall|id: u64| #[trigger]
                            point_in_journey_to_stop_ref@.contains_key(id) <==> (exists|
                                dd: int,
                                pp: int,
                                kk: int,
                            |
                                0 <= dd < data@.len() && 0 <= pp
                                    < data@[dd].service_journey_patterns@.len() && 0 <= kk
                                    < data@[dd].service_journey_patterns@[pp].stops@.len() && (dd
                                    < d || (dd == d && pp < p) || (dd == d && pp == p && kk < k
                                    + 1)) && (
                                #[trigger] data@[dd].service_journey_patterns@[pp].stops@[kk]).id
                                    == id) by {
                            if id == stop.id {
                                assert(point_in_journey_to_stop_ref@.contains_key(id));
                                assert((#[trigger] data@[d as int].service_journey_patterns@[p as int].stops@[k as int]).id
                                    == id);
                            }
                        }
                    }
                    k += 1;
                }
                p += 1;
            }
            d += 1;
        }
        let mut lines: HashMap<u64, Line> = HashMap::new();
        let mut d2: usize = 0;
        while d2 < data.len()
            invariant
                0 <= d2 <= data@.len(),
                forall|id: u64| #[trigger]
                    lines@.contains_key(id) <==> (exists|dd: int, k: int|
                        0 <= dd < d2 && 0 <= k < data@[dd].lines@.len() && (
                        #[trigger] data@[dd].lines@[k]).id == id),
                forall|id: u64| lines@.contains_key(id) ==> (#[trigger] lines@[id]).id == id,
                forall|id: u64|
                    lines@.contains_key(id) ==> last_line_from_corpus(
                        data@,
                        id,
                        #[trigger] lines@[id],
                        d2 as int,
                        0,
                    ),
            decreases data@.len() - d2,
        {
            let lines_len: usize = data[d2].lines.len();
            let mut k: usize = 0;
            while k < lines_len
                invariant
                    0 <= k <= lines_len,
                    d2 < data@.len(),
                    lines_len == data@[d2 as int].lines@.len(),
                    forall|id: u64| #[trigger]
                        lines@.contains_key(id) <==> (exists|dd: int, kk: int|
                            0 <= dd < data@.len() && 0 <= kk < data@[dd].lines@.len() && (dd < d2
                                || (dd == d2 && kk < k)) && (#[trigger] data@[dd].lines@[kk]).id
                                == id),
                    forall|id: u64| lines@.contains_key(id) ==> (#[trigger] lines@[id]).id == id,
                    forall|id: u64|
                        lines@.contains_key(id) ==> last_line_from_corpus(
                            data@,
                            id,
                            #[trigger] lines@[id],
                            d2 as int,
                            k as int,
                        ),
                decreases lines_len - k,
            {
                let line = &data[d2].lines[k];
                let ghost pre = lines@;
                lines.insert(
                    line.id,
                    Line {
                        id: line.id,
                        short_name: line.short_name.clone(),
                        authority: line.authority,
                    },
                );
                proof {
                    assert((#[trigger] data@[d2 as int].lines@[k as int]).id == line.id);
                    assert(line_record_at(data@, d2 as int, k as int, line.id, lines@[line.id]));
                    assert(last_line_at(
                        data@,
                        d2 as int,
                        k as int,
                        line.id,
                        lines@[line.id],
                        d2 as int,
                        k as int + 1,
                    ));
                    assert forall|id: u64| lines@.contains_key(id) implies last_line_from_corpus(
                        data@,
                        id,
                        lines@[id],
                        d2 as int,
                        k as int + 1,
                    ) by {
                        if id == line.id {
                            assert(last_line_at(
                                data@,
                                d2 as int,
                                k as int,
                                id,
                                lines@[id],
                                d2 as int,
                                k as int + 1,
                            ));
                        } else {
                            assert(lines@[id] == pre[id]);
                            let (dw, kw) = choose|dw: int, kw: int| #[trigger]
                                last_line_at(data@, dw, kw, id, pre[id], d2 as int, k as int);
                            assert(last_line_at(
                                data@,
                                dw,
                                kw,
                                id,
                                lines@[id],
                                d2 as int,
                                k as int + 1,
                            )) by {
                                assert forall|dd: int, kk: int|
                                    0 <= dd < data@.len() && 0 <= kk < data@[dd].lines@.len()
                                        && (dd > dw || (dd == dw && kk > kw)) && (dd < d2 as int
                                        || (dd == d2 as int && kk < k as int + 1)) implies (
                                #[trigger] data@[dd].lines@[kk]).id != id by {
                                    if !(dd < d2 as int || (dd == d2 as int && kk < k as int)) {
                                        assert(dd == d2 as int && kk == k as int);
                                    }
                                }
                            }
                        }
                    }
                }
                k += 1;
            }
            proof {
                assert forall|id: u64| lines@.contains_key(id) implies last_line_from_corpus(
                    data@,
                    id,
                    lines@[id],
                    d2 as int + 1,
                    0,
                ) by {
                    let (dw, kw) = choose|dw: int, kw: int| #[trigger]
                        last_line_at(data@, dw, kw, id, lines@[id], d2 as int, lines_len as int);
                    assert(last_line_at(data@, dw, kw, id, lines@[id], d2 as int + 1, 0)) by {
                        assert forall|dd: int, kk: int|
                            0 <= dd < data@.len() && 0 <= kk < data@[dd].lines@.len() && (dd > dw
                                || (dd == dw && kk > kw)) && (dd < d2 as int + 1 || (dd == d2 as int
                                + 1 && kk < 0)) implies (#[trigger] data@[dd].lines@[kk]).id
                            != id by {
                            assert(dd <= d2 as int);
                            if dd == d2 as int {
                                assert(kk < lines_len as int);
                            }
                        }
                    }
                }
            }
            d2 += 1;
        }
        let mut authorities: HashMap<u64, Authority> = HashMap::new();
        let mut d3: usize = 0;
        while d3 < data.len()
            invariant
                0 <= d3 <= data@.len(),
                forall|id: u64| #[trigger]
                    authorities@.contains_key(id) <==> (exists|dd: int, k: int|
                        0 <= dd < d3 && 0 <= k < data@[dd].authorities@.len() && (
                        #[trigger] data@[dd].authorities@[k]).id == id),
                forall|id: u64|
                    authorities@.contains_key(id) ==> (#[trigger] authorities@[id]).id == id,
                forall|id: u64|
                    authorities@.contains_key(id) ==> last_authority_from_corpus(
                        data@,
                        id,
                        #[trigger] authorities@[id],
                        d3 as int,
                        0,
                    ),
            decreases data@.len() - d3,
        {
            let auth_len: usize = data[d3].authorities.len();
            let mut k: usize = 0;
            while k < auth_len
                invariant
                    0 <= k <= auth_len,
                    d3 < data@.len(),
                    auth_len == data@[d3 as int].authorities@.len(),
                    forall|id: u64| #[trigger]
                        authorities@.contains_key(id) <==> (exists|dd: int, kk: int|
                            0 <= dd < data@.len() && 0 <= kk < data@[dd].authorities@.len() && (dd
                                < d3 || (dd == d3 && kk < k)) && (
                            #[trigger] data@[dd].authorities@[kk]).id == id),
                    forall|id: u64|
                        authorities@.contains_key(id) ==> (#[trigger] authorities@[id]).id == id,
                    forall|id: u64|
                        authorities@.contains_key(id) ==> last_authority_from_corpus(
                            data@,
                            id,
                            #[trigger] authorities@[id],
                            d3 as int,
                            k as int,
                        ),
                decreases auth_len - k,
            {
                let auth = &data[d3].authorities[k];
                let ghost pre = authorities@;
                authorities.insert(
                    auth.id,
                    Authority { id: auth.id, short_name: auth.short_name.clone() },
                );
                proof {
                    assert((#[trigger] data@[d3 as int].authorities@[k as int]).id == auth.id);
                    assert(authority_record_at(
                        data@,
                        d3 as int,
                        k as int,
                        auth.id,
                        authorities@[auth.id],
                    ));
                    assert(last_authority_at(
                        data@,
                        d3 as int,
                        k as int,
                        auth.id,
                        authorities@[auth.id],
                        d3 as int,
                        k as int + 1,
                    ));
                    assert forall|id: u64|
                        authorities@.contains_key(id) implies last_authority_from_corpus(
                        data@,
                        id,
                        authorities@[id],
                        d3 as int,
                        k as int + 1,
                    ) by {
                        if id == auth.id {
                            assert(last_authority_at(
                                data@,
                                d3 as int,
                                k as int,
                                id,
                                authorities@[id],
                                d3 as int,
                                k as int + 1,
                            ));
                        } else {
                            assert(authorities@[id] == pre[id]);
                            let (dw, kw) = choose|dw: int, kw: int| #[trigger]
                                last_authority_at(data@, dw, kw, id, pre[id], d3 as int, k as int);
                            assert(last_authority_at(
                                data@,
                                dw,
                                kw,
                                id,
                                authorities@[id],
                                d3 as int,
                                k as int + 1,
                            )) by {
                                assert forall|dd: int, kk: int|
                                    0 <= dd < data@.len() && 0 <= kk
                                        < data@[dd].authorities@.len() && (dd > dw || (dd == dw
                                        && kk > kw)) && (dd < d3 as int || (dd == d3 as int && kk
                                        < k as int + 1)) implies (
                                #[trigger] data@[dd].authorities@[kk]).id != id by {
                                    if !(dd < d3 as int || (dd == d3 as int && kk < k as int)) {
                                        assert(dd == d3 as int && kk == k as int);
                                    }
                                }
                            }
                        }
                    }
                }
                k += 1;
            }
            proof {
                assert forall|id: u64|
                    authorities@.contains_key(id) implies last_authority_from_corpus(
                    data@,
                    id,
                    authorities@[id],
                    d3 as int + 1,
                    0,
                ) by {
                    let (dw, kw) = choose|dw: int, kw: int| #[trigger]
                        last_authority_at(
                            data@,
                            dw,
                            kw,
                            id,
                            authorities@[id],
                            d3 as int,
                            auth_len as int,
                        );
                    assert(last_authority_at(data@, dw, kw, id, authorities@[id], d3 as int + 1, 0))
                        by {
                        assert forall|dd: int, kk: int|
                            0 <= dd < data@.len() && 0 <= kk < data@[dd].authorities@.len() && (dd
                                > dw || (dd == dw && kk > kw)) && (dd < d3 as int + 1 || (dd
                                == d3 as int + 1 && kk < 0)) implies (
                        #[trigger] data@[dd].authorities@[kk]).id != id by {
                            assert(dd <= d3 as int);
                            if dd == d3 as int {
                                assert(kk < auth_len as int);
                            }
                        }
                    }
                }
            }
            d3 += 1;
        }
        let mut pattern_ref_to_line_ref: HashMap<u64, u64> = HashMap::new();
        let mut d4: usize = 0;
        while d4 < data.len()
            invariant
                0 <= d4 <= data@.len(),
                forall|id: u64| #[trigger]
                    pattern_ref_to_line_ref@.contains_key(id) <==> (exists|dd: int, k: int|
                        0 <= dd < d4 && 0 <= k < data@[dd].service_journey_patterns@.len() && (
                        #[trigger] data@[dd].service_journey_patterns@[k]).id == id),
                forall|id: u64|
                    pattern_ref_to_line_ref@.contains_key(id) ==> last_pattern_line_from_corpus(
                        data@,
                        id,
                        #[trigger] pattern_ref_to_line_ref@[id],
                        d4 as int,
                        0,
                    ),
            decreases data@.len() - d4,
        {
            let pat_len: usize = data[d4].service_journey_patterns.len();
            let mut k: usize = 0;
            while k < pat_len
                invariant
                    0 <= k <= pat_len,
                    d4 < data@.len(),
                    pat_len == data@[d4 as int].service_journey_patterns@.len(),
                    forall|id: u64| #[trigger]
                        pattern_ref_to_line_ref@.contains_key(id) <==> (exists|dd: int, kk: int|
                            0 <= dd < data@.len() && 0 <= kk
                                < data@[dd].service_journey_patterns@.len() && (dd < d4 || (dd
                                == d4 && kk < k)) && (
                            #[trigger] data@[dd].service_journey_patterns@[kk]).id == id),
                    forall|id: u64|
                        pattern_ref_to_line_ref@.contains_key(id)
                            ==> last_pattern_line_from_corpus(
                            data@,
                            id,
                            #[trigger] pattern_ref_to_line_ref@[id],
                            d4 as int,
                            k as int,
                        ),
                decreases pat_len - k,
            {
                let pattern = &data[d4].service_journey_patterns[k];
                let ghost pre = pattern_ref_to_line_ref@;
                pattern_ref_to_line_ref.insert(pattern.id, pattern.line);
                proof {
                    assert((#[trigger] data@[d4 as int].service_journey_patterns@[k as int]).id
                        == pattern.id);
                    assert(pattern_line_at(
                        data@,
                        d4 as int,
                        k as int,
                        pattern.id,
                        pattern_ref_to_line_ref@[pattern.id],
                    ));
                    assert(last_pattern_line_at(
                        data@,
                        d4 as int,
                        k as int,
                        pattern.id,
                        pattern_ref_to_line_ref@[pattern.id],
                        d4 as int,
                        k as int + 1,
                    ));
                    assert forall|id: u64|
                        pattern_ref_to_line_ref@.contains_key(id)
                            implies last_pattern_line_from_corpus(
                        data@,
                        id,
                        pattern_ref_to_line_ref@[id],
                        d4 as int,
                        k as int + 1,
                    ) by {
                        if id == pattern.id {
                            assert(last_pattern_line_at(
                                data@,
                                d4 as int,
                                k as int,
                                id,
                                pattern_ref_to_line_ref@[id],
                                d4 as int,
                                k as int + 1,
                            ));
                        } else {
                            assert(pattern_ref_to_line_ref@[id] == pre[id]);
                            let (dw, kw) = choose|dw: int, kw: int| #[trigger]
                                last_pattern_line_at(
                                    data@,
                                    dw,
                                    kw,
                                    id,
                                    pre[id],
                                    d4 as int,
                                    k as int,
                                );
                            assert(last_pattern_line_at(
                                data@,
                                dw,
                                kw,
                                id,
                                pattern_ref_to_line_ref@[id],
                                d4 as int,
                                k as int + 1,
                            )) by {
                                assert forall|dd: int, kk: int|
                                    0 <= dd < data@.len() && 0 <= kk
                                        < data@[dd].service_journey_patterns@.len() && (dd > dw
                                        || (dd == dw && kk > kw)) && (dd < d4 as int || (dd
                                        == d4 as int && kk < k as int + 1)) implies (
                                #[trigger] data@[dd].service_journey_patterns@[kk]).id != id by {
                                    if !(dd < d4 as int || (dd == d4 as int && kk < k as int)) {
                                        assert(dd == d4 as int && kk == k as int);
                                    }
                                }
                            }
                        }
                    }
                }
                k += 1;
            }
            proof {
                assert forall|id: u64|
                    pattern_ref_to_line_ref@.contains_key(id)
                        implies last_pattern_line_from_corpus(
                    data@,
                    id,
                    pattern_ref_to_line_ref@[id],
                    d4 as int + 1,
                    0,
                ) by {
                    let (dw, kw) = choose|dw: int, kw: int| #[trigger]
                        last_pattern_line_at(
                            data@,
                            dw,
                            kw,
                            id,
                            pattern_ref_to_line_ref@[id],
                            d4 as int,
                            pat_len as int,
                        );
                    assert(last_pattern_line_at(
                        data@,
                        dw,
                        kw,
                        id,
                        pattern_ref_to_line_ref@[id],
                        d4 as int + 1,
                        0,
                    )) by {
                        assert forall|dd: int, kk: int|
                            0 <= dd < data@.len() && 0 <= kk
                                < data@[dd].service_journey_patterns@.len() && (dd > dw || (dd
                                == dw && kk > kw)) && (dd < d4 as int + 1 || (dd == d4 as int + 1
                                && kk < 0)) implies (
                        #[trigger] data@[dd].service_journey_patterns@[kk]).id != id by {
                            assert(dd <= d4 as int);
                            if dd == d4 as int {
                                assert(kk < pat_len as int);
                            }
                        }
                    }
                }
            }
            d4 += 1;
        }
        let mut period_map: HashMap<u64, usize> = HashMap::new();
        let mut d5: usize = 0;
        let mut cum: usize = 0;
        while d5 < data.len()
            invariant
                0 <= d5 <= data@.len(),
                cum == all_periods(data@.take(d5 as int)).len(),
                cum <= total_periods(data@),
                total_periods(data@) <= usize::MAX,
                forall|id: u64| #[trigger]
                    period_map@.contains_key(id) <==> (exists|dd: int, k: int|
                        0 <= dd < d5 && 0 <= k < data@[dd].operating_periods@.len() && (
                        #[trigger] data@[dd].operating_periods@[k]).id == id),
                forall|id: u64|
                    period_map@.contains_key(id) ==> (#[trigger] period_map@[id])
                        < total_periods(data@) && all_periods(data@)[period_map@[id] as int].id
                        == id,
                forall|id: u64|
                    period_map@.contains_key(id) ==> (forall|k2: int|
                        (#[trigger] period_map@[id]) < k2 < cum ==> (
                        #[trigger] all_periods(data@)[k2]).id != id),
            decreases data@.len() - d5,
        {
            let per_len: usize = data[d5].operating_periods.len();
            proof {
                lemma_all_periods_prefix(data@, d5 as int + 1);
                assert(data@.take(d5 as int + 1).drop_last() =~= data@.take(d5 as int));
                assert(data@.take(d5 as int + 1).last() == data@[d5 as int]);
                assert(all_periods(data@.take(d5 as int + 1)).len() == cum + per_len);
            }
            let mut k: usize = 0;
            while k < per_len
                invariant
                    0 <= k <= per_len,
                    d5 < data@.len(),
                    per_len == data@[d5 as int].operating_periods@.len(),
                    cum + per_len <= total_periods(data@),
                    total_periods(data@) <= usize::MAX,
                    forall|i: int|
                        0 <= i < per_len ==> all_periods(data@)[cum + i]
                            == data@[d5 as int].operating_periods@[i],
                    forall|id: u64| #[trigger]
                        period_map@.contains_key(id) <==> (exists|dd: int, kk: int|
                            0 <= dd < data@.len() && 0 <= kk < data@[dd].operating_periods@.len()
                                && (dd < d5 || (dd == d5 && kk < k)) && (
                            #[trigger] data@[dd].operating_periods@[kk]).id == id),
                    forall|id: u64|
                        period_map@.contains_key(id) ==> (#[trigger] period_map@[id])
                            < total_periods(data@) && all_periods(
                            data@,
                        )[period_map@[id] as int].id == id,
                    forall|id: u64|
                        period_map@.contains_key(id) ==> (forall|k2: int|
                            (#[trigger] period_map@[id]) < k2 < cum + k ==> (
                            #[trigger] all_periods(data@)[k2]).id != id),
                decreases per_len - k,
            {
                let period = &data[d5].operating_periods[k];
                period_map.insert(period.id, cum + k);
                proof {
                    assert((#[trigger] data@[d5 as int].operating_periods@[k as int]).id
                        == period.id);
                    assert(all_periods(data@)[cum + k] == data@[d5 as int].operating_periods@[k as int]);
                    assert forall|id: u64| period_map@.contains_key(id) implies (forall|k2: int|
                        (#[trigger] period_map@[id]) < k2 < cum + k + 1 ==> (
                        #[trigger] all_periods(data@)[k2]).id != id) by {
                        if id != period.id {
                            assert(all_periods(data@)[cum + k].id == period.id);
                        }
                    }
                }
                k += 1;
            }
            cum = cum + per_len;
            proof {
                assert(cum == all_periods(data@.take(d5 as int + 1)).len());
            }
            d5 += 1;
        }
        let mut day_type_assignments: HashMap<u64, DayTypeAssignment> = HashMap::new();
        let mut d6: usize = 0;
        while d6 < data.len()
            invariant
                0 <= d6 <= data@.len(),
                forall|dt: u64| #[trigger]
                    day_type_assignments@.contains_key(dt) <==> (exists|dd: int, k: int|
                        0 <= dd < d6 && 0 <= k < data@[dd].day_type_assignments@.len() && (
                        #[trigger] data@[dd].day_type_assignments@[k]).day_type == dt),
                forall|dt: u64|
                    day_type_assignments@.contains_key(dt) ==> (
                    #[trigger] day_type_assignments@[dt]).day_type == dt,
                forall|dt: u64|
                    day_type_assignments@.contains_key(dt) ==> last_dta_from_corpus(
                        data@,
                        dt,
                        #[trigger] day_type_assignments@[dt],
                        d6 as int,
                        0,
                    ),
            decreases data@.len() - d6,
        {
            let dta_len: usize = data[d6].day_type_assignments.len();
            let mut k: usize = 0;
            while k < dta_len
                invariant
                    0 <= k <= dta_len,
                    d6 < data@.len(),
                    dta_len == data@[d6 as int].day_type_assignments@.len(),
                    forall|dt: u64| #[trigger]
                        day_type_assignments@.contains_key(dt) <==> (exists|dd: int, kk: int|
                            0 <= dd < data@.len() && 0 <= kk
                                < data@[dd].day_type_assignments@.len() && (dd < d6 || (dd == d6
                                && kk < k)) && (
                            #[trigger] data@[dd].day_type_assignments@[kk]).day_type == dt),
                    forall|dt: u64|
                        day_type_assignments@.contains_key(dt) ==> (
                        #[trigger] day_type_assignments@[dt]).day_type == dt,
                    forall|dt: u64|
                        day_type_assignments@.contains_key(dt) ==> last_dta_from_corpus(
                            data@,
                            dt,
                            #[trigger] day_type_assignments@[dt],
                            d6 as int,
                            k as int,
                        ),
                decreases dta_len - k,
            {
                let dta = &data[d6].day_type_assignments[k];
                let ghost pre = day_type_assignments@;
                day_type_assignments.insert(
                    dta.day_type,
                    DayTypeAssignment {
                        operating_period: dta.operating_period,
                        day_type: dta.day_type,
                        is_available: dta.is_available,
                    },
                );
                proof {
                    assert((#[trigger] data@[d6 as int].day_type_assignments@[k as int]).day_type
                        == dta.day_type);
                    assert(dta_record_at(
                        data@,
                        d6 as int,
                        k as int,
                        dta.day_type,
                        day_type_assignments@[dta.day_type],
                    ));
                    assert(last_dta_at(
                        data@,
                        d6 as int,
                        k as int,
                        dta.day_type,
                        day_type_assignments@[dta.day_type],
                        d6 as int,
                        k as int + 1,
                    ));
                    assert forall|dt: u64|
                        day_type_assignments@.contains_key(dt) implies last_dta_from_corpus(
                        data@,
                        dt,
                        day_type_assignments@[dt],
                        d6 as int,
                        k as int + 1,
                    ) by {
                        if dt == dta.day_type {
                            assert(last_dta_at(
                                data@,
                                d6 as int,
                                k as int,
                                dt,
                                day_type_assignments@[dt],
                                d6 as int,
                                k as int + 1,
                            ));
                        } else {
                            assert(day_type_assignments@[dt] == pre[dt]);
                            let (dw, kw) = choose|dw: int, kw: int| #[trigger]
                                last_dta_at(data@, dw, kw, dt, pre[dt], d6 as int, k as int);
                            assert(last_dta_at(
                                data@,
                                dw,
                                kw,
                                dt,
                                day_type_assignments@[dt],
                                d6 as int,
                                k as int + 1,
                            )) by {
                                assert forall|dd: int, kk: int|
                                    0 <= dd < data@.len() && 0 <= kk
                                        < data@[dd].day_type_assignments@.len() && (dd > dw || (
                                    dd == dw && kk > kw)) && (dd < d6 as int || (dd == d6 as int
                                        && kk < k as int + 1)) implies (
                                #[trigger] data@[dd].day_type_assignments@[kk]).day_type != dt by {
                                    if !(dd < d6 as int || (dd == d6 as int && kk < k as int)) {
                                        assert(dd == d6 as int && kk == k as int);
                                    }
                                }
                            }
                        }
                    }
                }
                k += 1;
            }
            proof {
                assert forall|dt: u64|
                    day_type_assignments@.contains_key(dt) implies last_dta_from_corpus(
                    data@,
                    dt,
                    day_type_assignments@[dt],
                    d6 as int + 1,
                    0,
                ) by {
                    let (dw, kw) = choose|dw: int, kw: int| #[trigger]
                        last_dta_at(
                            data@,
                            dw,
                            kw,
                            dt,
                            day_type_assignments@[dt],
                            d6 as int,
                            dta_len as int,
                        );
                    assert(last_dta_at(data@, dw, kw, dt, day_type_assignments@[dt], d6 as int + 1, 0))
                        by {
                        assert forall|dd: int, kk: int|
                            0 <= dd < data@.len() && 0 <= kk
                                < data@[dd].day_type_assignments@.len() && (dd > dw || (dd == dw
                                && kk > kw)) && (dd < d6 as int + 1 || (dd == d6 as int + 1 && kk
                                < 0)) implies (
                        #[trigger] data@[dd].day_type_assignments@[kk]).day_type != dt by {
                            assert(dd <= d6 as int);
                            if dd == d6 as int {
                                assert(kk < dta_len as int);
                            }
                        }
                    }
                }
            }
            d6 += 1;
        }
        proof {
            assert(data@.take(data@.len() as int) =~= data@);
        }
        JourneyTransformer {
            authorities,
            day_type_assignments,
            lines,
            pattern_ref_to_line_ref,
            point_in_journey_to_stop_ref,
            period_map,
        }
    }

    /// Every reference the journey makes resolves through the tables. A
    /// journey that fails this would stop the whole pipeline, as a missing
    /// required reference must.
    pub open spec fn journey_resolvable(self, j: ServiceJourney) -> bool {
        &&& self.day_type_assignments@.contains_key(j.day_type)
        &&& self.period_map@.contains_key(
            self.day_type_assignments@[j.day_type].operating_period,
        )
        &&& self.pattern_ref_to_line_ref@.contains_key(j.pattern_ref)
        &&& self.lines@.contains_key(self.pattern_ref_to_line_ref@[j.pattern_ref])
        &&& self.authorities@.contains_key(
            self.lines@[self.pattern_ref_to_line_ref@[j.pattern_ref]].authority,
        )
        &&& forall|i: int|
            0 <= i < j.passing_times@.len() ==> self.point_in_journey_to_stop_ref@.contains_key(
                (#[trigger] j.passing_times@[i]).stop_point_in_journey_pattern,
            )
    }

    /// Decides whether the journey's references all resolve, so a caller
    /// can stop the pipeline before mapping an unresolvable journey.
    pub fn check_journey(&self, journey: &ServiceJourney) -> (b: bool)
        ensures
            b == self.journey_resolvable(*journey),
    {
        let dta = match self.day_type_assignments.get(&journey.day_type) {
            Some(dta) => dta,
            None => {
                return false;
            },
        };
        if !self.period_map.contains_key(&dta.operating_period) {
            return false;
        }
        let line_ref = match self.pattern_ref_to_line_ref.get(&journey.pattern_ref) {
            Some(line_ref) => *line_ref,
            None => {
                return false;
            },
        };
        let line = match self.lines.get(&line_ref) {
            Some(line) => line,
            None => {
                return false;
            },
        };
        if !self.authorities.contains_key(&line.authority) {
            return false;
        }
        let mut i: usize = 0;
        while i < journey.passing_times.len()
            invariant
                0 <= i <= journey.passing_times@.len(),
                forall|m: int|
                    0 <= m < i ==> self.point_in_journey_to_stop_ref@.contains_key(
                        (#[trigger] journey.passing_times@[m]).stop_point_in_journey_pattern,
                    ),
                self.day_type_assignments@.contains_key(journey.day_type),
                self.period_map@.contains_key(
                    self.day_type_assignments@[journey.day_type].operating_period,
                ),
                self.pattern_ref_to_line_ref@.contains_key(journey.pattern_ref),
                self.lines@.contains_key(self.pattern_ref_to_line_ref@[journey.pattern_ref]),
                self.authorities@.contains_key(
                    self.lines@[self.pattern_ref_to_line_ref@[journey.pattern_ref]].authority,
                ),
            decreases journey.passing_times@.len() - i,
        {
            if !self.point_in_journey_to_stop_ref.contains_key(
                &journey.passing_times[i].stop_point_in_journey_pattern,
            ) {
                return false;
            }
            i += 1;
        }
        true
    }

    /// Both stops of the adjacent passing-time pair ending at `w` resolve
    /// to graph nodes.
    pub open spec fn pair_resolves(self, nodes: Nodes, j: ServiceJourney, w: int) -> bool {
        &&& nodes.ref_map@.contains_key(
            self.point_in_journey_to_stop_ref@[j.passing_times@[w - 1].stop_point_in_journey_pattern],
        )
        &&& nodes.ref_map@.contains_key(
            self.point_in_journey_to_stop_ref@[j.passing_times@[w].stop_point_in_journey_pattern],
        )
    }

    /// How many adjacent pairs with index below `w` resolve.
    pub open spec fn resolvable_pairs_upto(self, nodes: Nodes, j: ServiceJourney, w: int) -> int
        decreases w,
    {
        if w <= 1 {
            0
        } else {
            self.resolvable_pairs_upto(nodes, j, w - 1) + if self.pair_resolves(
                nodes,
                j,
                w - 1,
            ) {
                1int
            } else {
                0int
            }
        }
    }

    /// The record is exactly what the adjacent pair ending at `w` yields:
    /// its times, the journey's transport mode, the global period index of
    /// the journey's day type, the line and authority names, and the edge
    /// key the two stops resolve to.
    pub open spec fn journey_record_matches(
        self,
        nodes: Nodes,
        j: ServiceJourney,
        w: int,
        rec: Journey,
        start: usize,
        end: usize,
    ) -> bool {
        let pre = j.passing_times@[w - 1];
        let cur = j.passing_times@[w];
        let line_id = self.pattern_ref_to_line_ref@[j.pattern_ref];
        &&& rec.departure == pre.departure
        &&& rec.arrival == cur.arrival
        &&& rec.transport_mode@ == j.transport_mode@
        &&& rec.operating_period == self.period_map@[self.day_type_assignments@[j.day_type].operating_period]
        &&& rec.line@ == self.lines@[line_id].short_name@
        &&& rec.controller@ == self.authorities@[self.lines@[line_id].authority].short_name@
        &&& start == nodes.ref_map@[self.point_in_journey_to_stop_ref@[pre.stop_point_in_journey_pattern]].node
        &&& end == nodes.ref_map@[self.point_in_journey_to_stop_ref@[cur.stop_point_in_journey_pattern]].node
    }

    /// The record is what some resolvable adjacent pair of the journey
    /// yields, on the edge key that pair resolves to.
    pub open spec fn record_from_pair(
        self,
        nodes: Nodes,
        j: ServiceJourney,
        rec: Journey,
        start: usize,
        end: usize,
    ) -> bool {
        exists|w: int|
            1 <= w < j.passing_times@.len() && #[trigger] self.pair_resolves(nodes, j, w)
                && self.journey_record_matches(nodes, j, w, rec, start, end)
    }

    /// The journey's operating-period index came out of the period table.
    pub open spec fn op_from_map(self, op: usize) -> bool {
        exists|p: u64| #[trigger] self.period_map@.contains_key(p) && self.period_map@[p] == op
    }

    /// Maps one journey onto its local edge map: every adjacent pair of
    /// passing times whose two stops resolve to nodes contributes one
    /// journey record to the edge between those nodes. Pairs with an
    /// unresolvable stop are skipped. The result has one edge per key, all
    /// node indices in range, and period indices out of the period table.
    pub fn to_edges(&self, journey: &ServiceJourney, nodes: &Nodes) -> (r: EdgeMap)
        requires
            self.journey_resolvable(*journey),
            nodes.wf(),
        ensures
            r.wf(),
            edge_keys_bounded(r.edges@, nodes.vec@.len() as int),
            forall|i: int, j: int|
                0 <= i < r.edges@.len() && 0 <= j < r.edges@[i].timetable.journeys@.len()
                    ==> self.op_from_map(
                    (#[trigger] r.edges@[i].timetable.journeys@[j]).operating_period,
                ),
            crate::graph::total_journeys(r.edges@) == self.resolvable_pairs_upto(
                *nodes,
                *journey,
                journey.passing_times@.len() as int,
            ),
            forall|i: int|
                0 <= i < r.edges@.len() ==> (#[trigger] r.edges@[i]).walk_seconds == 0xFFFF
                    && r.edges@[i].timetable.periods@.len() == 0,
            forall|w: int|
                1 <= w < journey.passing_times@.len() && self.pair_resolves(*nodes, *journey, w)
                    ==> (exists|i: int, jj: int|
                    0 <= i < r.edges@.len() && 0 <= jj < r.edges@[i].timetable.journeys@.len()
                        && self.journey_record_matches(
                        *nodes,
                        *journey,
                        w,
                        #[trigger] r.edges@[i].timetable.journeys@[jj],
                        r.edges@[i].start_node,
                        r.edges@[i].end_node,
                    )),
            forall|i: int, jj: int|
                0 <= i < r.edges@.len() && 0 <= jj < r.edges@[i].timetable.journeys@.len()
                    ==> self.record_from_pair(
                    *nodes,
                    *journey,
                    #[trigger] r.edges@[i].timetable.journeys@[jj],
                    r.edges@[i].start_node,
                    r.edges@[i].end_node,
                ),
    {
        let mut local_edges = EdgeMap::new();
        if journey.passing_times.len() == 0 {
            return local_edges;
        }
        let mut w: usize = 1;
        while w < journey.passing_times.len()
            invariant
                1 <= w <= journey.passing_times@.len() || journey.passing_times@.len() == 0,
                self.journey_resolvable(*journey),
                nodes.wf(),
                local_edges.wf(),
                edge_keys_bounded(local_edges.edges@, nodes.vec@.len() as int),
                forall|i: int, j: int|
                    0 <= i < local_edges.edges@.len() && 0 <= j
                        < local_edges.edges@[i].timetable.journeys@.len() ==> self.op_from_map(
                        (#[trigger] local_edges.edges@[i].timetable.journeys@[j]).operating_period,
                    ),
                crate::graph::total_journeys(local_edges.edges@) == self.resolvable_pairs_upto(
                    *nodes,
                    *journey,
                    w as int,
                ),
                forall|i: int|
                    0 <= i < local_edges.edges@.len() ==> (#[trigger] local_edges.edges@[i]).walk_seconds
                        == 0xFFFF && local_edges.edges@[i].timetable.periods@.len() == 0,
                forall|w2: int|
                    1 <= w2 < w && self.pair_resolves(*nodes, *journey, w2) ==> (exists|
                        i: int,
                        jj: int,
                    |
                        0 <= i < local_edges.edges@.len() && 0 <= jj
                            < local_edges.edges@[i].timetable.journeys@.len()
                            && self.journey_record_matches(
                            *nodes,
                            *journey,
                            w2,
                            #[trigger] local_edges.edges@[i].timetable.journeys@[jj],
                            local_edges.edges@[i].start_node,
                            local_edges.edges@[i].end_node,
                        )),
                forall|i: int, jj: int|
                    0 <= i < local_edges.edges@.len() && 0 <= jj
                        < local_edges.edges@[i].timetable.journeys@.len()
                        ==> self.record_from_pair(
                        *nodes,
                        *journey,
                        #[trigger] local_edges.edges@[i].timetable.journeys@[jj],
                        local_edges.edges@[i].start_node,
                        local_edges.edges@[i].end_node,
                    ),
            decreases journey.passing_times@.len() - w,
        {
            let pre = &journey.passing_times[w - 1];
            let current = &journey.passing_times[w];
            let pre_stop_ref: u64 = match self.point_in_journey_to_stop_ref.get(
                &pre.stop_point_in_journey_pattern,
            ) {
                Some(v) => *v,
                None => {
                    proof {
                        assert(false);
                    }
                    0
                },
            };
            let cur_stop_ref: u64 = match self.point_in_journey_to_stop_ref.get(
                &current.stop_point_in_journey_pattern,
            ) {
                Some(v) => *v,
                None => {
                    proof {
                        assert(false);
                    }
                    0
                },
            };
            let start_idx: usize = match nodes.index_by_stop_ref(pre_stop_ref) {
                Some(ind) => ind.node,
                None => {
                    proof {
                        assert(!self.pair_resolves(*nodes, *journey, w as int));
                    }
                    w += 1;
                    continue ;
                },
            };
            let end_idx: usize = match nodes.index_by_stop_ref(cur_stop_ref) {
                Some(ind) => ind.node,
                None => {
                    proof {
                        assert(!self.pair_resolves(*nodes, *journey, w as int));
                    }
                    w += 1;
                    continue ;
                },
            };
            let dta = match self.day_type_assignments.get(&journey.day_type) {
                Some(dta) => dta,
                None => {
                    proof {
                        assert(false);
                    }
                    return local_edges;
                },
            };
            let period_idx: usize = match self.period_map.get(&dta.operating_period) {
                Some(v) => *v,
                None => {
                    proof {
                        assert(false);
                    }
                    0
                },
            };
            let line_ref: u64 = match self.pattern_ref_to_line_ref.get(&journey.pattern_ref) {
                Some(v) => *v,
                None => {
                    proof {
                        assert(false);
                    }
                    0
                },
            };
            let line = match self.lines.get(&line_ref) {
                Some(line) => line,
                None => {
                    proof {
                        assert(false);
                    }
                    return local_edges;
                },
            };
            let controller_name: String = match self.authorities.get(&line.authority) {
                Some(auth) => auth.short_name.clone(),
                None => {
                    proof {
                        assert(false);
                    }
                    String::new()
                },
            };
            let record = Journey {
                departure: pre.departure,
                arrival: current.arrival,
                transport_mode: journey.transport_mode.clone(),
                operating_period: period_idx,
                line: line.short_name.clone(),
                controller: controller_name,
            };
            let ghost before = local_edges.edges@;
            proof {
                assert(self.pair_resolves(*nodes, *journey, w as int));
                assert(self.journey_record_matches(
                    *nodes,
                    *journey,
                    w as int,
                    record,
                    start_idx,
                    end_idx,
                ));
                assert(self.record_from_pair(*nodes, *journey, record, start_idx, end_idx));
            }
            local_edges.push_journey(start_idx, end_idx, record);
            proof {
                assert(crate::graph::total_journeys(local_edges.edges@)
                    == self.resolvable_pairs_upto(*nodes, *journey, w as int) + 1);
                assert(self.op_from_map(period_idx)) by {
                    assert(self.period_map@.contains_key(dta.operating_period));
                }
                assert forall|i: int|
                    0 <= i < local_edges.edges@.len() implies (
                #[trigger] local_edges.edges@[i]).walk_seconds == 0xFFFF
                    && local_edges.edges@[i].timetable.periods@.len() == 0 by {
                    if i < before.len() {
                        if !(local_edges.edges@[i] == before[i]) {
                            assert(crate::graph::has_edge_key(before, start_idx, end_idx));
                            let x = choose|x: int|
                                0 <= x < before.len() && #[trigger] before[x].start_node
                                    == start_idx && before[x].end_node == end_idx
                                    && crate::graph::journey_appended(
                                    before[x],
                                    local_edges.edges@[x],
                                    record,
                                );
                            assert(i == x);
                        }
                    }
                }
                assert forall|w2: int|
                    1 <= w2 < w + 1 && self.pair_resolves(*nodes, *journey, w2) implies (exists|
                        i: int,
                        jj: int,
                    |
                        0 <= i < local_edges.edges@.len() && 0 <= jj
                            < local_edges.edges@[i].timetable.journeys@.len()
                            && self.journey_record_matches(
                            *nodes,
                            *journey,
                            w2,
                            #[trigger] local_edges.edges@[i].timetable.journeys@[jj],
                            local_edges.edges@[i].start_node,
                            local_edges.edges@[i].end_node,
                        )) by {
                    if w2 == w as int {
                        if crate::graph::has_edge_key(before, start_idx, end_idx) {
                            let x = choose|x: int|
                                0 <= x < before.len() && #[trigger] before[x].start_node
                                    == start_idx && before[x].end_node == end_idx
                                    && crate::graph::journey_appended(
                                    before[x],
                                    local_edges.edges@[x],
                                    record,
                                );
                            let jj = before[x].timetable.journeys@.len() as int;
                            assert(local_edges.edges@[x].timetable.journeys@[jj] == record);
                            assert(local_edges.edges@[x].start_node == start_idx);
                            assert(local_edges.edges@[x].end_node == end_idx);
                        } else {
                            let i = before.len() as int;
                            assert(local_edges.edges@[i].timetable.journeys@[0] == record);
                            assert(local_edges.edges@[i].start_node == start_idx);
                            assert(local_edges.edges@[i].end_node == end_idx);
                        }
                    } else {
                        let (i0, jj0) = choose|i0: int, jj0: int|
                            0 <= i0 < before.len() && 0 <= jj0
                                < before[i0].timetable.journeys@.len()
                                && self.journey_record_matches(
                                *nodes,
                                *journey,
                                w2,
                                #[trigger] before[i0].timetable.journeys@[jj0],
                                before[i0].start_node,
                                before[i0].end_node,
                            );
                        if crate::graph::has_edge_key(before, start_idx, end_idx) {
                            let x = choose|x: int|
                                0 <= x < before.len() && #[trigger] before[x].start_node
                                    == start_idx && before[x].end_node == end_idx
                                    && crate::graph::journey_appended(
                                    before[x],
                                    local_edges.edges@[x],
                                    record,
                                ) && (forall|y: int|
                                    0 <= y < before.len() && y != x ==> local_edges.edges@[y]
                                        == before[y]);
                            if i0 == x {
                                assert(local_edges.edges@[i0].timetable.journeys@[jj0]
                                    == before[i0].timetable.journeys@[jj0]);
                            } else {
                                assert(local_edges.edges@[i0] == before[i0]);
                            }
                        } else {
                            assert(local_edges.edges@[i0] == before[i0]);
                        }
                        assert(local_edges.edges@[i0].start_node == before[i0].start_node);
                        assert(local_edges.edges@[i0].end_node == before[i0].end_node);
                    }
                }
                assert forall|i: int, jj: int|
                    0 <= i < local_edges.edges@.len() && 0 <= jj
                        < local_edges.edges@[i].timetable.journeys@.len()
                        implies self.record_from_pair(
                    *nodes,
                    *journey,
                    #[trigger] local_edges.edges@[i].timetable.journeys@[jj],
                    local_edges.edges@[i].start_node,
                    local_edges.edges@[i].end_node,
                ) by {
                    if crate::graph::has_edge_key(before, start_idx, end_idx) {
                        let x = choose|x: int|
                            0 <= x < before.len() && #[trigger] before[x].start_node == start_idx
                                && before[x].end_node == end_idx
                                && crate::graph::journey_appended(
                                before[x],
                                local_edges.edges@[x],
                                record,
                            ) && (forall|y: int|
                                0 <= y < before.len() && y != x ==> local_edges.edges@[y]
                                    == before[y]);
                        if i == x {
                            if jj < before[x].timetable.journeys@.len() {
                                assert(local_edges.edges@[i].timetable.journeys@[jj]
                                    == before[x].timetable.journeys@[jj]);
                            } else {
                                assert(local_edges.edges@[i].timetable.journeys@[jj] == record);
                                assert(local_edges.edges@[i].start_node == start_idx);
                                assert(local_edges.edges@[i].end_node == end_idx);
                            }
                        } else {
                            assert(local_edges.edges@[i] == before[i]);
                        }
                    } else {
                        if i < before.len() {
                            assert(local_edges.edges@[i] == before[i]);
                        } else {
                            assert(local_edges.edges@[i].timetable.journeys@ == seq![record]);
                            assert(local_edges.edges@[i].start_node == start_idx);
                            assert(local_edges.edges@[i].end_node == end_idx);
                        }
                    }
                }
                assert forall|i: int, j: int|
                    0 <= i < local_edges.edges@.len() && 0 <= j
                        < local_edges.edges@[i].timetable.journeys@.len() implies self.op_from_map(
                    (#[trigger] local_edges.edges@[i].timetable.journeys@[j]).operating_period,
                ) by {
                    if crate::graph::has_edge_key(before, start_idx, end_idx) {
                        let x = choose|x: int|
                            0 <= x < before.len() && #[trigger] before[x].start_node == start_idx
                                && before[x].end_node == end_idx
                                && crate::graph::journey_appended(
                                before[x],
                                local_edges.edges@[x],
                                record,
                            ) && (forall|y: int|
                                0 <= y < before.len() && y != x ==> local_edges.edges@[y]
                                    == before[y]);
                        if i == x {
                            if j < before[x].timetable.journeys@.len() {
                                assert(local_edges.edges@[i].timetable.journeys@[j]
                                    == before[x].timetable.journeys@[j]);
                            } else {
                                assert(local_edges.edges@[i].timetable.journeys@[j] == record);
                            }
                        } else {
                            assert(local_edges.edges@[i] == before[i]);
                        }
                    } else {
                        if i < before.len() {
                            assert(local_edges.edges@[i] == before[i]);
                        } else {
                            assert(local_edges.edges@[i].timetable.journeys@ == seq![record]);
                        }
                    }
                }
                assert(edge_keys_bounded(local_edges.edges@, nodes.vec@.len() as int)) by {
                    assert forall|i: int|
                        0 <= i < local_edges.edges@.len() implies (
                    #[trigger] local_edges.edges@[i]).start_node < nodes.vec@.len()
                        && local_edges.edges@[i].end_node < nodes.vec@.len() by {
                        if i < before.len() {
                            if !(local_edges.edges@[i] == before[i]) {
                                assert(local_edges.edges@[i].start_node == before[i].start_node);
                                assert(local_edges.edges@[i].end_node == before[i].end_node);
                            }
                        }
                    }
                }
            }
            w += 1;
        }
        local_edges
    }
}

/// How many resolvable adjacent pairs the journeys of one document hold.
pub open spec fn doc_pairs(t: JourneyTransformer, nodes: Nodes, js: Seq<ServiceJourney>) -> int
    decreases js.len(),
{
    if js.len() == 0 {
        0
    } else {
        doc_pairs(t, nodes, js.drop_last()) + t.resolvable_pairs_upto(
            nodes,
            js.last(),
            js.last().passing_times@.len() as int,
        )
    }
}

/// How many resolvable adjacent pairs the whole corpus holds: exactly the
/// journey records the edge map must carry.
pub open spec fn corpus_pairs(t: JourneyTransformer, nodes: Nodes, data: Seq<NetexData>) -> int
    decreases data.len(),
{
    if data.len() == 0 {
        0
    } else {
        corpus_pairs(t, nodes, data.drop_last()) + doc_pairs(
            t,
            nodes,
            data.last().service_journeys@,
        )
    }
}

/// The record is what some resolvable pair of some corpus journey yields,
/// on the edge key that pair resolves to.
pub open spec fn record_from_corpus(
    t: JourneyTransformer,
    nodes: Nodes,
    data: Seq<NetexData>,
    rec: crate::graph::Journey,
    start: usize,
    end: usize,
) -> bool {
    exists|d: int, j: int|
        0 <= d < data.len() && 0 <= j < data[d].service_journeys@.len()
            && #[trigger] t.record_from_pair(nodes, data[d].service_journeys@[j], rec, start, end)
}

/// The resolvable pair ending at `w` of journey `j` has a matching record
/// somewhere in the edge list, on its own resolved key.
pub open spec fn pair_recorded(
    t: JourneyTransformer,
    nodes: Nodes,
    j: ServiceJourney,
    w: int,
    edges: Seq<crate::graph::Edge>,
) -> bool {
    exists|i: int, jj: int|
        0 <= i < edges.len() && 0 <= jj < edges[i].timetable.journeys@.len()
            && #[trigger] t.journey_record_matches(
            nodes,
            j,
            w,
            edges[i].timetable.journeys@[jj],
            edges[i].start_node,
            edges[i].end_node,
        )
}

/// Every service journey of the corpus resolves through the tables. The
/// pipeline stops on a corpus that fails this, as a missing required
/// reference must stop it.
pub open spec fn all_journeys_resolvable(t: JourneyTransformer, data: Seq<NetexData>) -> bool {
    forall|d: int, j: int|
        0 <= d < data.len() && 0 <= j < data[d].service_journeys@.len()
            ==> t.journey_resolvable(#[trigger] data[d].service_journeys@[j])
}

impl JourneyTransformer {
    /// Decides whether every journey of the corpus resolves, so a caller
    /// can stop the pipeline before mapping any journey.
    pub fn check_corpus(&self, data: &Vec<NetexData>) -> (b: bool)
        ensures
            b == all_journeys_resolvable(*self, data@),
    {
        let mut d: usize = 0;
        while d < data.len()
            invariant
                0 <= d <= data@.len(),
                forall|dd: int, j: int|
                    0 <= dd < d && 0 <= j < data@[dd].service_journeys@.len()
                        ==> self.journey_resolvable(#[trigger] data@[dd].service_journeys@[j]),
            decreases data@.len() - d,
        {
            let journeys_len: usize = data[d].service_journeys.len();
            let mut j: usize = 0;
            while j < journeys_len
                invariant
                    0 <= j <= journeys_len,
                    d < data@.len(),
                    journeys_len == data@[d as int].service_journeys@.len(),
                    forall|dd: int, jj: int|
                        0 <= dd < d && 0 <= jj < data@[dd].service_journeys@.len()
                            ==> self.journey_resolvable(
                            #[trigger] data@[dd].service_journeys@[jj],
                        ),
                    forall|jj: int|
                        0 <= jj < j ==> self.journey_resolvable(
                            #[trigger] data@[d as int].service_journeys@[jj],
                        ),
                decreases journeys_len - j,
            {
                if !self.check_journey(&data[d].service_journeys[j]) {
                    return false;
                }
                j += 1;
            }
            d += 1;
        }
        true
    }
}

} // verus!
