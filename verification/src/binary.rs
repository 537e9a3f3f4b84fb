//! The binary form of the graph: strictly little-endian, length-prefixed.
//! The encoder's contract pins every byte; the decoding functions state
//! that a reader of the same layout recovers the graph.

use vstd::prelude::*;

verus! {

use vstd::bytes::spec_u16_to_le_bytes;
use vstd::bytes::spec_u32_to_le_bytes;
use vstd::bytes::spec_u64_to_le_bytes;
use vstd::bytes::u16_to_le_bytes;
use vstd::bytes::u32_to_le_bytes;
use vstd::bytes::u64_to_le_bytes;
use vstd::utf8::encode_utf8;
use crate::graph::Edge;
use crate::graph::Graph;
use crate::graph::Journey;
use crate::graph::OperatingPeriod;
use crate::graph::StopNode;

/// The UTF-8 bytes of a node's name.
pub open spec fn name_bytes(n: StopNode) -> Seq<u8> {
    encode_utf8(n.short_name@)
}

/// One node record: id, then the machine form of latitude and longitude as
/// the caller supplies it (one 32-bit word each), then the length-prefixed
/// name bytes.
pub open spec fn spec_node_bytes(n: StopNode, bits: (u32, u32)) -> Seq<u8> {
    spec_u64_to_le_bytes(n.id) + spec_u32_to_le_bytes(bits.0) + spec_u32_to_le_bytes(bits.1)
        + spec_u32_to_le_bytes(name_bytes(n).len() as u32) + name_bytes(n)
}

/// All node records, in order.
pub open spec fn spec_nodes_bytes(ns: Seq<StopNode>, bits: Seq<(u32, u32)>) -> Seq<u8>
    decreases ns.len(),
{
    if ns.len() == 0 {
        Seq::empty()
    } else {
        spec_nodes_bytes(ns.drop_last(), bits.drop_last()) + spec_node_bytes(
            ns.last(),
            bits.last(),
        )
    }
}

/// One journey record: arrival, departure, and the local period index
/// truncated to sixteen bits.
pub open spec fn spec_journey_bytes(j: Journey) -> Seq<u8> {
    spec_u16_to_le_bytes(j.arrival) + spec_u16_to_le_bytes(j.departure) + spec_u16_to_le_bytes(
        j.operating_period as u16,
    )
}

/// All journey records of one edge, in order.
pub open spec fn spec_journeys_bytes(js: Seq<Journey>) -> Seq<u8>
    decreases js.len(),
{
    if js.len() == 0 {
        Seq::empty()
    } else {
        spec_journeys_bytes(js.drop_last()) + spec_journey_bytes(js.last())
    }
}

/// One period record: the span dates and the length-prefixed day flags.
pub open spec fn spec_period_bytes(p: OperatingPeriod) -> Seq<u8> {
    spec_u32_to_le_bytes(p.from) + spec_u32_to_le_bytes(p.to) + spec_u32_to_le_bytes(
        p.valid_day@.len() as u32,
    ) + p.valid_day@
}

/// All period records of one edge, in order.
pub open spec fn spec_periods_bytes(ps: Seq<OperatingPeriod>) -> Seq<u8>
    decreases ps.len(),
{
    if ps.len() == 0 {
        Seq::empty()
    } else {
        spec_periods_bytes(ps.drop_last()) + spec_period_bytes(ps.last())
    }
}

/// One edge record: endpoints, walking seconds, the journey section sized
/// in bytes (six per journey), and the sized period section.
pub open spec fn spec_edge_bytes(e: Edge) -> Seq<u8> {
    spec_u32_to_le_bytes(e.start_node as u32) + spec_u32_to_le_bytes(e.end_node as u32)
        + spec_u16_to_le_bytes(e.walk_seconds) + spec_u32_to_le_bytes(
        (e.timetable.journeys@.len() * 6) as u32,
    ) + spec_journeys_bytes(e.timetable.journeys@) + spec_u32_to_le_bytes(
        spec_periods_bytes(e.timetable.periods@).len() as u32,
    ) + spec_periods_bytes(e.timetable.periods@)
}

/// All edge records, in order.
pub open spec fn spec_edges_bytes(es: Seq<Edge>) -> Seq<u8>
    decreases es.len(),
{
    if es.len() == 0 {
        Seq::empty()
    } else {
        spec_edges_bytes(es.drop_last()) + spec_edge_bytes(es.last())
    }
}

/// The whole file: the counted node records, then the counted edge
/// records.
pub open spec fn spec_graph_bytes(g: Graph, bits: Seq<(u32, u32)>) -> Seq<u8> {
    spec_u32_to_le_bytes(g.nodes@.len() as u32) + spec_nodes_bytes(g.nodes@, bits)
        + spec_u32_to_le_bytes(g.edges@.len() as u32) + spec_edges_bytes(g.edges@)
}

/// Every count and section of the graph fits its 32-bit length field.
pub open spec fn encodable(g: Graph) -> bool {
    &&& g.nodes@.len() < 0x100000000
    &&& g.edges@.len() < 0x100000000
    &&& forall|i: int|
        0 <= i < g.nodes@.len() ==> name_bytes(#[trigger] g.nodes@[i]).len() < 0x100000000
    &&& forall|i: int|
        0 <= i < g.edges@.len() ==> (#[trigger] g.edges@[i]).timetable.journeys@.len() * 6
            < 0x100000000 && spec_periods_bytes(g.edges@[i].timetable.periods@).len()
            < 0x100000000 && (forall|m: int|
            0 <= m < g.edges@[i].timetable.periods@.len() ==> (
            #[trigger] g.edges@[i].timetable.periods@[m]).valid_day@.len() < 0x100000000)
}

/// Appends the whole of `add` to `out`.
fn append_bytes(out: &mut Vec<u8>, add: &[u8])
    ensures
        final(out)@ == old(out)@ + add@,
{
    let mut i: usize = 0;
    while i < add.len()
        invariant
            0 <= i <= add@.len(),
            out@ == old(out)@ + add@.take(i as int),
        decreases add@.len() - i,
    {
        out.push(add[i]);
        proof {
            assert(old(out)@ + add@.take(i as int + 1) =~= (old(out)@ + add@.take(i as int)).push(
                add@[i as int],
            ));
        }
        i += 1;
    }
    proof {
        assert(add@.take(add@.len() as int) =~= add@);
        assert(final(out)@ == old(out)@ + add@);
    }
}

/// Appends the little-endian bytes of a 16-bit word.
fn put16(out: &mut Vec<u8>, x: u16)
    ensures
        final(out)@ == old(out)@ + spec_u16_to_le_bytes(x),
{
    let b = u16_to_le_bytes(x);
    append_bytes(out, b.as_slice());
}

/// Appends the little-endian bytes of a 32-bit word.
fn put32(out: &mut Vec<u8>, x: u32)
    ensures
        final(out)@ == old(out)@ + spec_u32_to_le_bytes(x),
{
    let b = u32_to_le_bytes(x);
    append_bytes(out, b.as_slice());
}

/// Appends the little-endian bytes of a 64-bit word.
fn put64(out: &mut Vec<u8>, x: u64)
    ensures
        final(out)@ == old(out)@ + spec_u64_to_le_bytes(x),
{
    let b = u64_to_le_bytes(x);
    append_bytes(out, b.as_slice());
}

/// Encodes the graph in the little-endian, length-prefixed layout. The
/// node coordinates are written as the 32-bit machine words the caller
/// derived from the centroids, latitude first.
#[verifier::rlimit(80)]
pub fn dump_binary(graph: &Graph, coord_bits: &Vec<(u32, u32)>) -> (r: Vec<u8>)
    requires
        encodable(*graph),
        coord_bits@.len() == graph.nodes@.len(),
    ensures
        r@ == spec_graph_bytes(*graph, coord_bits@),
{
    let mut out: Vec<u8> = Vec::new();
    put32(&mut out, graph.nodes.len() as u32);
    let mut i: usize = 0;
    while i < graph.nodes.len()
        invariant
            0 <= i <= graph.nodes@.len(),
            coord_bits@.len() == graph.nodes@.len(),
            encodable(*graph),
            out@ == spec_u32_to_le_bytes(graph.nodes@.len() as u32) + spec_nodes_bytes(
                graph.nodes@.take(i as int),
                coord_bits@.take(i as int),
            ),
        decreases graph.nodes@.len() - i,
    {
        let node = &graph.nodes[i];
        put64(&mut out, node.id);
        put32(&mut out, coord_bits[i].0);
        put32(&mut out, coord_bits[i].1);
        let nb: &[u8] = node.short_name.as_str().as_bytes();
        put32(&mut out, nb.len() as u32);
        append_bytes(&mut out, nb);
        proof {
            assert(graph.nodes@.take(i as int + 1).drop_last() =~= graph.nodes@.take(i as int));
            assert(coord_bits@.take(i as int + 1).drop_last() =~= coord_bits@.take(i as int));
            assert(graph.nodes@.take(i as int + 1).last() == graph.nodes@[i as int]);
            assert(coord_bits@.take(i as int + 1).last() == coord_bits@[i as int]);
            assert(nb@ == name_bytes(graph.nodes@[i as int]));
            assert(out@ =~= spec_u32_to_le_bytes(graph.nodes@.len() as u32) + spec_nodes_bytes(
                graph.nodes@.take(i as int + 1),
                coord_bits@.take(i as int + 1),
            ));
        }
        i += 1;
    }
    proof {
        assert(graph.nodes@.take(graph.nodes@.len() as int) =~= graph.nodes@);
        assert(coord_bits@.take(coord_bits@.len() as int) =~= coord_bits@);
    }
    put32(&mut out, graph.edges.len() as u32);
    let ghost nodes_part = spec_u32_to_le_bytes(graph.nodes@.len() as u32) + spec_nodes_bytes(
        graph.nodes@,
        coord_bits@,
    ) + spec_u32_to_le_bytes(graph.edges@.len() as u32);
    let mut e: usize = 0;
    while e < graph.edges.len()
        invariant
            0 <= e <= graph.edges@.len(),
            encodable(*graph),
            out@ == nodes_part + spec_edges_bytes(graph.edges@.take(e as int)),
        decreases graph.edges@.len() - e,
    {
        let edge = &graph.edges[e];
        put32(&mut out, edge.start_node as u32);
        put32(&mut out, edge.end_node as u32);
        put16(&mut out, edge.walk_seconds);
        put32(&mut out, (edge.timetable.journeys.len() * 6) as u32);
        let ghost journeys = edge.timetable.journeys@;
        let ghost head = out@;
        let mut j: usize = 0;
        while j < edge.timetable.journeys.len()
            invariant
                0 <= j <= journeys.len(),
                e < graph.edges@.len(),
                edge == graph.edges@[e as int],
                journeys == edge.timetable.journeys@,
                out@ == head + spec_journeys_bytes(journeys.take(j as int)),
            decreases journeys.len() - j,
        {
            let jr = &edge.timetable.journeys[j];
            put16(&mut out, jr.arrival);
            put16(&mut out, jr.departure);
            put16(&mut out, jr.operating_period as u16);
            proof {
                assert(journeys.take(j as int + 1).drop_last() =~= journeys.take(j as int));
                assert(journeys.take(j as int + 1).last() == journeys[j as int]);
                assert(out@ =~= head + spec_journeys_bytes(journeys.take(j as int + 1)));
            }
            j += 1;
        }
        proof {
            assert(journeys.take(journeys.len() as int) =~= journeys);
        }
        // the period section, sized first
        let ghost periods = edge.timetable.periods@;
        let mut psec: Vec<u8> = Vec::new();
        let mut m: usize = 0;
        while m < edge.timetable.periods.len()
            invariant
                0 <= m <= periods.len(),
                e < graph.edges@.len(),
                edge == graph.edges@[e as int],
                periods == edge.timetable.periods@,
                encodable(*graph),
                psec@ == spec_periods_bytes(periods.take(m as int)),
            decreases periods.len() - m,
        {
            let p = &edge.timetable.periods[m];
            put32(&mut psec, p.from);
            put32(&mut psec, p.to);
            proof {
                assert(periods[m as int].valid_day@.len() < 0x100000000);
            }
            put32(&mut psec, p.valid_day.len() as u32);
            append_bytes(&mut psec, p.valid_day.as_slice());
            proof {
                assert(periods.take(m as int + 1).drop_last() =~= periods.take(m as int));
                assert(periods.take(m as int + 1).last() == periods[m as int]);
                assert(psec@ =~= spec_periods_bytes(periods.take(m as int + 1)));
            }
            m += 1;
        }
        proof {
            assert(periods.take(periods.len() as int) =~= periods);
        }
        put32(&mut out, psec.len() as u32);
        append_bytes(&mut out, psec.as_slice());
        proof {
            assert(graph.edges@.take(e as int + 1).drop_last() =~= graph.edges@.take(e as int));
            assert(graph.edges@.take(e as int + 1).last() == graph.edges@[e as int]);
            assert(out@ =~= nodes_part + spec_edges_bytes(graph.edges@.take(e as int + 1)));
        }
        e += 1;
    }
    proof {
        assert(graph.edges@.take(graph.edges@.len() as int) =~= graph.edges@);
    }
    out
}

// ---- the reader: what a consumer of this layout reconstructs ----

use vstd::bytes::spec_u16_from_le_bytes;
use vstd::bytes::spec_u32_from_le_bytes;
use vstd::bytes::spec_u64_from_le_bytes;
use vstd::bytes::lemma_auto_spec_u16_to_from_le_bytes;
use vstd::bytes::lemma_auto_spec_u32_to_from_le_bytes;
use vstd::bytes::lemma_auto_spec_u64_to_from_le_bytes;

/// Reads one 16-bit word off the front.
pub open spec fn spec_take_u16(b: Seq<u8>) -> Option<(u16, Seq<u8>)> {
    if b.len() >= 2 {
        Some((spec_u16_from_le_bytes(b.take(2)), b.skip(2)))
    } else {
        None
    }
}

/// Reads one 32-bit word off the front.
pub open spec fn spec_take_u32(b: Seq<u8>) -> Option<(u32, Seq<u8>)> {
    if b.len() >= 4 {
        Some((spec_u32_from_le_bytes(b.take(4)), b.skip(4)))
    } else {
        None
    }
}

/// Reads one 64-bit word off the front.
pub open spec fn spec_take_u64(b: Seq<u8>) -> Option<(u64, Seq<u8>)> {
    if b.len() >= 8 {
        Some((spec_u64_from_le_bytes(b.take(8)), b.skip(8)))
    } else {
        None
    }
}

/// Reads `n` raw bytes off the front.
pub open spec fn spec_take_bytes(b: Seq<u8>, n: int) -> Option<(Seq<u8>, Seq<u8>)> {
    if 0 <= n <= b.len() {
        Some((b.take(n), b.skip(n)))
    } else {
        None
    }
}

/// What the reader keeps of a node: id, the two coordinate words, and the
/// name bytes.
pub open spec fn node_abs(n: StopNode, bits: (u32, u32)) -> (u64, u32, u32, Seq<u8>) {
    (n.id, bits.0, bits.1, name_bytes(n))
}

/// What the reader keeps of a journey.
pub open spec fn journey_abs(j: Journey) -> (u16, u16, u16) {
    (j.arrival, j.departure, j.operating_period as u16)
}

/// What the reader keeps of a period.
pub open spec fn period_abs(p: OperatingPeriod) -> (u32, u32, Seq<u8>) {
    (p.from, p.to, p.valid_day@)
}

/// What the reader keeps of an edge.
pub open spec fn edge_abs(e: Edge) -> (u32, u32, u16, Seq<(u16, u16, u16)>, Seq<(u32, u32, Seq<u8>)>) {
    (
        e.start_node as u32,
        e.end_node as u32,
        e.walk_seconds,
        e.timetable.journeys@.map_values(|j: Journey| journey_abs(j)),
        e.timetable.periods@.map_values(|p: OperatingPeriod| period_abs(p)),
    )
}

/// Reads one node record.
pub open spec fn spec_read_node(b: Seq<u8>) -> Option<((u64, u32, u32, Seq<u8>), Seq<u8>)> {
    match spec_take_u64(b) {
        None => None,
        Some((id, b1)) => match spec_take_u32(b1) {
            None => None,
            Some((lat, b2)) => match spec_take_u32(b2) {
                None => None,
                Some((long, b3)) => match spec_take_u32(b3) {
                    None => None,
                    Some((nlen, b4)) => match spec_take_bytes(b4, nlen as int) {
                        None => None,
                        Some((name, b5)) => Some(((id, lat, long, name), b5)),
                    },
                },
            },
        },
    }
}

/// Reads `n` node records.
pub open spec fn spec_read_nodes(b: Seq<u8>, n: int) -> Option<
    (Seq<(u64, u32, u32, Seq<u8>)>, Seq<u8>),
>
    decreases n,
{
    if n <= 0 {
        Some((Seq::empty(), b))
    } else {
        match spec_read_node(b) {
            None => None,
            Some((node, rest)) => match spec_read_nodes(rest, n - 1) {
                None => None,
                Some((nodes, rest2)) => Some((seq![node] + nodes, rest2)),
            },
        }
    }
}

/// Reads one journey record.
pub open spec fn spec_read_journey(b: Seq<u8>) -> Option<((u16, u16, u16), Seq<u8>)> {
    match spec_take_u16(b) {
        None => None,
        Some((arrival, b1)) => match spec_take_u16(b1) {
            None => None,
            Some((departure, b2)) => match spec_take_u16(b2) {
                None => None,
                Some((op, b3)) => Some(((arrival, departure, op), b3)),
            },
        },
    }
}

/// Reads `n` journey records.
pub open spec fn spec_read_journeys(b: Seq<u8>, n: int) -> Option<(Seq<(u16, u16, u16)>, Seq<u8>)>
    decreases n,
{
    if n <= 0 {
        Some((Seq::empty(), b))
    } else {
        match spec_read_journey(b) {
            None => None,
            Some((j, rest)) => match spec_read_journeys(rest, n - 1) {
                None => None,
                Some((js, rest2)) => Some((seq![j] + js, rest2)),
            },
        }
    }
}

/// Reads one period record.
pub open spec fn spec_read_period(b: Seq<u8>) -> Option<((u32, u32, Seq<u8>), Seq<u8>)> {
    match spec_take_u32(b) {
        None => None,
        Some((from, b1)) => match spec_take_u32(b1) {
            None => None,
            Some((to, b2)) => match spec_take_u32(b2) {
                None => None,
                Some((vlen, b3)) => match spec_take_bytes(b3, vlen as int) {
                    None => None,
                    Some((valid, b4)) => Some(((from, to, valid), b4)),
                },
            },
        },
    }
}

/// Reads period records until the section is used up.
pub open spec fn spec_read_periods(b: Seq<u8>) -> Option<Seq<(u32, u32, Seq<u8>)>>
    decreases b.len(),
{
    if b.len() == 0 {
        Some(Seq::empty())
    } else {
        match spec_read_period(b) {
            None => None,
            Some((p, rest)) => if rest.len() < b.len() {
                match spec_read_periods(rest) {
                    None => None,
                    Some(ps) => Some(seq![p] + ps),
                }
            } else {
                None
            },
        }
    }
}

/// Reads one edge record: the journey section length must be six bytes per
/// journey, and the period section is read to its end.
pub open spec fn spec_read_edge(b: Seq<u8>) -> Option<
    ((u32, u32, u16, Seq<(u16, u16, u16)>, Seq<(u32, u32, Seq<u8>)>), Seq<u8>),
> {
    match spec_take_u32(b) {
        None => None,
        Some((start, b1)) => match spec_take_u32(b1) {
            None => None,
            Some((end, b2)) => match spec_take_u16(b2) {
                None => None,
                Some((walk, b3)) => match spec_take_u32(b3) {
                    None => None,
                    Some((jlen, b4)) => if jlen as int % 6 == 0 {
                        match spec_read_journeys(b4, jlen as int / 6) {
                            None => None,
                            Some((js, b5)) => match spec_take_u32(b5) {
                                None => None,
                                Some((plen, b6)) => match spec_take_bytes(b6, plen as int) {
                                    None => None,
                                    Some((section, b7)) => match spec_read_periods(section) {
                                        None => None,
                                        Some(ps) => Some(((start, end, walk, js, ps), b7)),
                                    },
                                },
                            },
                        }
                    } else {
                        None
                    },
                },
            },
        },
    }
}

/// Reads `n` edge records.
pub open spec fn spec_read_edges(b: Seq<u8>, n: int) -> Option<
    (Seq<(u32, u32, u16, Seq<(u16, u16, u16)>, Seq<(u32, u32, Seq<u8>)>)>, Seq<u8>),
>
    decreases n,
{
    if n <= 0 {
        Some((Seq::empty(), b))
    } else {
        match spec_read_edge(b) {
            None => None,
            Some((e, rest)) => match spec_read_edges(rest, n - 1) {
                None => None,
                Some((es, rest2)) => Some((seq![e] + es, rest2)),
            },
        }
    }
}

/// Reads a whole file: counted nodes, counted edges, nothing left over.
pub open spec fn spec_read_graph(b: Seq<u8>) -> Option<
    (Seq<(u64, u32, u32, Seq<u8>)>, Seq<(u32, u32, u16, Seq<(u16, u16, u16)>, Seq<(u32, u32, Seq<u8>)>)>),
> {
    match spec_take_u32(b) {
        None => None,
        Some((ncount, b1)) => match spec_read_nodes(b1, ncount as int) {
            None => None,
            Some((nodes, b2)) => match spec_take_u32(b2) {
                None => None,
                Some((ecount, b3)) => match spec_read_edges(b3, ecount as int) {
                    None => None,
                    Some((edges, b4)) => if b4.len() == 0 {
                        Some((nodes, edges))
                    } else {
                        None
                    },
                },
            },
        },
    }
}

// ---- round-trip lemmas ----

/// Splitting a concatenation at the left part's length gives the parts back.
proof fn lemma_split_at(s: Seq<u8>, rest: Seq<u8>)
    ensures
        (s + rest).take(s.len() as int) == s,
        (s + rest).skip(s.len() as int) == rest,
{
    assert((s + rest).take(s.len() as int) =~= s);
    assert((s + rest).skip(s.len() as int) =~= rest);
}

proof fn lemma_read_u16(x: u16, rest: Seq<u8>)
    ensures
        spec_take_u16(spec_u16_to_le_bytes(x) + rest) == Some((x, rest)),
{
    lemma_auto_spec_u16_to_from_le_bytes();
    let b = spec_u16_to_le_bytes(x) + rest;
    assert(b.take(2) =~= spec_u16_to_le_bytes(x));
    assert(b.skip(2) =~= rest);
}

proof fn lemma_read_u32(x: u32, rest: Seq<u8>)
    ensures
        spec_take_u32(spec_u32_to_le_bytes(x) + rest) == Some((x, rest)),
{
    lemma_auto_spec_u32_to_from_le_bytes();
    let b = spec_u32_to_le_bytes(x) + rest;
    assert(b.take(4) =~= spec_u32_to_le_bytes(x));
    assert(b.skip(4) =~= rest);
}

proof fn lemma_read_u64(x: u64, rest: Seq<u8>)
    ensures
        spec_take_u64(spec_u64_to_le_bytes(x) + rest) == Some((x, rest)),
{
    lemma_auto_spec_u64_to_from_le_bytes();
    let b = spec_u64_to_le_bytes(x) + rest;
    assert(b.take(8) =~= spec_u64_to_le_bytes(x));
    assert(b.skip(8) =~= rest);
}

proof fn lemma_read_bytes(s: Seq<u8>, rest: Seq<u8>)
    ensures
        spec_take_bytes(s + rest, s.len() as int) == Some((s, rest)),
{
    lemma_split_at(s, rest);
}

/// A node record reads back as written.
proof fn lemma_read_node(n: StopNode, bits: (u32, u32), rest: Seq<u8>)
    requires
        name_bytes(n).len() < 0x100000000,
    ensures
        spec_read_node(spec_node_bytes(n, bits) + rest) == Some((node_abs(n, bits), rest)),
{
    lemma_auto_spec_u32_to_from_le_bytes();
    let nb = name_bytes(n);
    let t4 = nb + rest;
    let t3 = spec_u32_to_le_bytes(nb.len() as u32) + t4;
    let t2 = spec_u32_to_le_bytes(bits.1) + t3;
    let t1 = spec_u32_to_le_bytes(bits.0) + t2;
    let b = spec_u64_to_le_bytes(n.id) + t1;
    assert(spec_node_bytes(n, bits) + rest =~= b);
    lemma_read_u64(n.id, t1);
    lemma_read_u32(bits.0, t2);
    lemma_read_u32(bits.1, t3);
    lemma_read_u32(nb.len() as u32, t4);
    lemma_read_bytes(nb, rest);
}

/// A journey record reads back as written.
proof fn lemma_read_journey(j: Journey, rest: Seq<u8>)
    ensures
        spec_read_journey(spec_journey_bytes(j) + rest) == Some((journey_abs(j), rest)),
{
    let t2 = spec_u16_to_le_bytes(j.operating_period as u16) + rest;
    let t1 = spec_u16_to_le_bytes(j.departure) + t2;
    let b = spec_u16_to_le_bytes(j.arrival) + t1;
    assert(spec_journey_bytes(j) + rest =~= b);
    lemma_read_u16(j.arrival, t1);
    lemma_read_u16(j.departure, t2);
    lemma_read_u16(j.operating_period as u16, rest);
}

/// A period record reads back as written.
proof fn lemma_read_period(p: OperatingPeriod, rest: Seq<u8>)
    requires
        p.valid_day@.len() < 0x100000000,
    ensures
        spec_read_period(spec_period_bytes(p) + rest) == Some((period_abs(p), rest)),
{
    lemma_auto_spec_u32_to_from_le_bytes();
    let vd = p.valid_day@;
    let t3 = vd + rest;
    let t2 = spec_u32_to_le_bytes(vd.len() as u32) + t3;
    let t1 = spec_u32_to_le_bytes(p.to) + t2;
    let b = spec_u32_to_le_bytes(p.from) + t1;
    assert(spec_period_bytes(p) + rest =~= b);
    lemma_read_u32(p.from, t1);
    lemma_read_u32(p.to, t2);
    lemma_read_u32(vd.len() as u32, t3);
    lemma_read_bytes(vd, rest);
}

/// The concatenated node records also concatenate from the front.
proof fn lemma_nodes_bytes_first(ns: Seq<StopNode>, bits: Seq<(u32, u32)>)
    requires
        ns.len() > 0,
        bits.len() == ns.len(),
    ensures
        spec_nodes_bytes(ns, bits) == spec_node_bytes(ns[0], bits[0]) + spec_nodes_bytes(
            ns.drop_first(),
            bits.drop_first(),
        ),
    decreases ns.len(),
{
    if ns.len() == 1 {
        assert(ns.drop_last() =~= Seq::<StopNode>::empty());
        assert(bits.drop_last() =~= Seq::<(u32, u32)>::empty());
        assert(ns.drop_first() =~= Seq::<StopNode>::empty());
        assert(bits.drop_first() =~= Seq::<(u32, u32)>::empty());
        assert(spec_nodes_bytes(ns, bits) =~= spec_node_bytes(ns[0], bits[0])
            + spec_nodes_bytes(ns.drop_first(), bits.drop_first()));
    } else {
        lemma_nodes_bytes_first(ns.drop_last(), bits.drop_last());
        assert(ns.drop_last()[0] == ns[0]);
        assert(bits.drop_last()[0] == bits[0]);
        assert(ns.drop_last().drop_first() =~= ns.drop_first().drop_last());
        assert(bits.drop_last().drop_first() =~= bits.drop_first().drop_last());
        assert(ns.drop_first().last() == ns.last());
        assert(bits.drop_first().last() == bits.last());
        assert(spec_nodes_bytes(ns, bits) =~= spec_node_bytes(ns[0], bits[0])
            + spec_nodes_bytes(ns.drop_first(), bits.drop_first()));
    }
}

/// The concatenated journey records also concatenate from the front.
proof fn lemma_journeys_bytes_first(js: Seq<Journey>)
    requires
        js.len() > 0,
    ensures
        spec_journeys_bytes(js) == spec_journey_bytes(js[0]) + spec_journeys_bytes(
            js.drop_first(),
        ),
    decreases js.len(),
{
    if js.len() == 1 {
        assert(js.drop_last() =~= Seq::<Journey>::empty());
        assert(js.drop_first() =~= Seq::<Journey>::empty());
        assert(spec_journeys_bytes(js) =~= spec_journey_bytes(js[0]) + spec_journeys_bytes(
            js.drop_first(),
        ));
    } else {
        lemma_journeys_bytes_first(js.drop_last());
        assert(js.drop_last()[0] == js[0]);
        assert(js.drop_last().drop_first() =~= js.drop_first().drop_last());
        assert(js.drop_first().last() == js.last());
        assert(spec_journeys_bytes(js) =~= spec_journey_bytes(js[0]) + spec_journeys_bytes(
            js.drop_first(),
        ));
    }
}

/// The concatenated period records also concatenate from the front.
proof fn lemma_periods_bytes_first(ps: Seq<OperatingPeriod>)
    requires
        ps.len() > 0,
    ensures
        spec_periods_bytes(ps) == spec_period_bytes(ps[0]) + spec_periods_bytes(ps.drop_first()),
    decreases ps.len(),
{
    if ps.len() == 1 {
        assert(ps.drop_last() =~= Seq::<OperatingPeriod>::empty());
        assert(ps.drop_first() =~= Seq::<OperatingPeriod>::empty());
        assert(spec_periods_bytes(ps) =~= spec_period_bytes(ps[0]) + spec_periods_bytes(
            ps.drop_first(),
        ));
    } else {
        lemma_periods_bytes_first(ps.drop_last());
        assert(ps.drop_last()[0] == ps[0]);
        assert(ps.drop_last().drop_first() =~= ps.drop_first().drop_last());
        assert(ps.drop_first().last() == ps.last());
        assert(spec_periods_bytes(ps) =~= spec_period_bytes(ps[0]) + spec_periods_bytes(
            ps.drop_first(),
        ));
    }
}

/// The concatenated edge records also concatenate from the front.
proof fn lemma_edges_bytes_first(es: Seq<Edge>)
    requires
        es.len() > 0,
    ensures
        spec_edges_bytes(es) == spec_edge_bytes(es[0]) + spec_edges_bytes(es.drop_first()),
    decreases es.len(),
{
    if es.len() == 1 {
        assert(es.drop_last() =~= Seq::<Edge>::empty());
        assert(es.drop_first() =~= Seq::<Edge>::empty());
        assert(spec_edges_bytes(es) =~= spec_edge_bytes(es[0]) + spec_edges_bytes(
            es.drop_first(),
        ));
    } else {
        lemma_edges_bytes_first(es.drop_last());
        assert(es.drop_last()[0] == es[0]);
        assert(es.drop_last().drop_first() =~= es.drop_first().drop_last());
        assert(es.drop_first().last() == es.last());
        assert(spec_edges_bytes(es) =~= spec_edge_bytes(es[0]) + spec_edges_bytes(
            es.drop_first(),
        ));
    }
}

/// A run of node records reads back as written.
proof fn lemma_read_nodes(ns: Seq<StopNode>, bits: Seq<(u32, u32)>, rest: Seq<u8>)
    requires
        bits.len() == ns.len(),
        forall|i: int| 0 <= i < ns.len() ==> name_bytes(#[trigger] ns[i]).len() < 0x100000000,
    ensures
        spec_read_nodes(spec_nodes_bytes(ns, bits) + rest, ns.len() as int) == Some(
            (Seq::new(ns.len(), |i: int| node_abs(ns[i], bits[i])), rest),
        ),
    decreases ns.len(),
{
    if ns.len() == 0 {
        assert(spec_nodes_bytes(ns, bits) + rest =~= rest);
        assert(Seq::new(ns.len(), |i: int| node_abs(ns[i], bits[i]))
            =~= Seq::<(u64, u32, u32, Seq<u8>)>::empty());
    } else {
        lemma_nodes_bytes_first(ns, bits);
        let tail = spec_nodes_bytes(ns.drop_first(), bits.drop_first()) + rest;
        assert(spec_nodes_bytes(ns, bits) + rest =~= spec_node_bytes(ns[0], bits[0]) + tail);
        lemma_read_node(ns[0], bits[0], tail);
        assert(forall|i: int|
            0 <= i < ns.drop_first().len() ==> name_bytes(#[trigger] ns.drop_first()[i]).len()
                < 0x100000000);
        lemma_read_nodes(ns.drop_first(), bits.drop_first(), rest);
        assert(seq![node_abs(ns[0], bits[0])] + Seq::new(
            ns.drop_first().len(),
            |i: int| node_abs(ns.drop_first()[i], bits.drop_first()[i]),
        ) =~= Seq::new(ns.len(), |i: int| node_abs(ns[i], bits[i])));
    }
}

/// A run of journey records reads back as written.
proof fn lemma_read_journeys(js: Seq<Journey>, rest: Seq<u8>)
    ensures
        spec_read_journeys(spec_journeys_bytes(js) + rest, js.len() as int) == Some(
            (js.map_values(|j: Journey| journey_abs(j)), rest),
        ),
    decreases js.len(),
{
    if js.len() == 0 {
        assert(spec_journeys_bytes(js) + rest =~= rest);
        assert(js.map_values(|j: Journey| journey_abs(j)) =~= Seq::<(u16, u16, u16)>::empty());
    } else {
        lemma_journeys_bytes_first(js);
        let tail = spec_journeys_bytes(js.drop_first()) + rest;
        assert(spec_journeys_bytes(js) + rest =~= spec_journey_bytes(js[0]) + tail);
        lemma_read_journey(js[0], tail);
        lemma_read_journeys(js.drop_first(), rest);
        assert(seq![journey_abs(js[0])] + js.drop_first().map_values(
            |j: Journey| journey_abs(j),
        ) =~= js.map_values(|j: Journey| journey_abs(j)));
    }
}

/// A full period section reads back as written.
proof fn lemma_read_periods(ps: Seq<OperatingPeriod>)
    requires
        forall|m: int| 0 <= m < ps.len() ==> (#[trigger] ps[m]).valid_day@.len() < 0x100000000,
    ensures
        spec_read_periods(spec_periods_bytes(ps)) == Some(
            ps.map_values(|p: OperatingPeriod| period_abs(p)),
        ),
    decreases ps.len(),
{
    if ps.len() == 0 {
        assert(ps.map_values(|p: OperatingPeriod| period_abs(p))
            =~= Seq::<(u32, u32, Seq<u8>)>::empty());
    } else {
        lemma_periods_bytes_first(ps);
        let tail = spec_periods_bytes(ps.drop_first());
        let b = spec_periods_bytes(ps);
        assert(b =~= spec_period_bytes(ps[0]) + tail);
        lemma_read_period(ps[0], tail);
        assert(spec_period_bytes(ps[0]).len() >= 12);
        assert(b.len() > 0);
        assert(tail.len() < b.len());
        lemma_read_periods(ps.drop_first());
        assert(seq![period_abs(ps[0])] + ps.drop_first().map_values(
            |p: OperatingPeriod| period_abs(p),
        ) =~= ps.map_values(|p: OperatingPeriod| period_abs(p)));
    }
}

/// An edge record reads back as written.
#[verifier::rlimit(80)]
proof fn lemma_read_edge(e: Edge, rest: Seq<u8>)
    requires
        e.timetable.journeys@.len() * 6 < 0x100000000,
        spec_periods_bytes(e.timetable.periods@).len() < 0x100000000,
        forall|m: int|
            0 <= m < e.timetable.periods@.len() ==> (
            #[trigger] e.timetable.periods@[m]).valid_day@.len() < 0x100000000,
    ensures
        spec_read_edge(spec_edge_bytes(e) + rest) == Some((edge_abs(e), rest)),
{
    let js = e.timetable.journeys@;
    let ps = e.timetable.periods@;
    let psec = spec_periods_bytes(ps);
    let t5 = psec + rest;
    let t4 = spec_u32_to_le_bytes(psec.len() as u32) + t5;
    let t3 = spec_journeys_bytes(js) + t4;
    let t2 = spec_u32_to_le_bytes((js.len() * 6) as u32) + t3;
    let t1 = spec_u16_to_le_bytes(e.walk_seconds) + t2;
    let t0 = spec_u32_to_le_bytes(e.end_node as u32) + t1;
    let b = spec_u32_to_le_bytes(e.start_node as u32) + t0;
    assert(spec_edge_bytes(e) + rest =~= b);
    lemma_read_u32(e.start_node as u32, t0);
    lemma_read_u32(e.end_node as u32, t1);
    lemma_read_u16(e.walk_seconds, t2);
    lemma_read_u32((js.len() * 6) as u32, t3);
    assert(((js.len() * 6) as u32) as int % 6 == 0 && ((js.len() * 6) as u32) as int / 6
        == js.len() as int) by {
        assert(js.len() * 6 < 0x100000000);
        assert(((js.len() * 6) as u32) as int == js.len() * 6);
        assert((js.len() * 6) as int % 6 == 0 && (js.len() * 6) as int / 6 == js.len() as int)
            by (nonlinear_arith);
    }
    lemma_read_journeys(js, t4);
    lemma_read_u32(psec.len() as u32, t5);
    lemma_read_bytes(psec, rest);
    lemma_read_periods(ps);
}

/// A run of edge records reads back as written.
proof fn lemma_read_edges(es: Seq<Edge>, rest: Seq<u8>)
    requires
        forall|i: int|
            0 <= i < es.len() ==> (#[trigger] es[i]).timetable.journeys@.len() * 6 < 0x100000000
                && spec_periods_bytes(es[i].timetable.periods@).len() < 0x100000000 && (forall|
                m: int,
            |
                0 <= m < es[i].timetable.periods@.len() ==> (
                #[trigger] es[i].timetable.periods@[m]).valid_day@.len() < 0x100000000),
    ensures
        spec_read_edges(spec_edges_bytes(es) + rest, es.len() as int) == Some(
            (es.map_values(|e: Edge| edge_abs(e)), rest),
        ),
    decreases es.len(),
{
    if es.len() == 0 {
        assert(spec_edges_bytes(es) + rest =~= rest);
        assert(es.map_values(|e: Edge| edge_abs(e)) =~= Seq::<
            (u32, u32, u16, Seq<(u16, u16, u16)>, Seq<(u32, u32, Seq<u8>)>),
        >::empty());
    } else {
        lemma_edges_bytes_first(es);
        let tail = spec_edges_bytes(es.drop_first()) + rest;
        assert(spec_edges_bytes(es) + rest =~= spec_edge_bytes(es[0]) + tail);
        lemma_read_edge(es[0], tail);
        lemma_read_edges(es.drop_first(), rest);
        assert(seq![edge_abs(es[0])] + es.drop_first().map_values(|e: Edge| edge_abs(e))
            =~= es.map_values(|e: Edge| edge_abs(e)));
    }
}

/// Binary round trip: a reader that consumes this layout reconstructs the
/// same nodes and edges from the encoder's bytes — the ids, coordinate
/// words and name bytes of every node, and the endpoints, walking seconds,
/// journeys and periods of every edge, in order.
pub proof fn lemma_binary_round_trip(g: Graph, bits: Seq<(u32, u32)>)
    requires
        encodable(g),
        bits.len() == g.nodes@.len(),
    ensures
        spec_read_graph(spec_graph_bytes(g, bits)) == Some(
            (
                Seq::new(g.nodes@.len(), |i: int| node_abs(g.nodes@[i], bits[i])),
                g.edges@.map_values(|e: Edge| edge_abs(e)),
            ),
        ),
{
    let nsec = spec_nodes_bytes(g.nodes@, bits);
    let esec = spec_edges_bytes(g.edges@);
    let t2 = esec;
    let t1 = spec_u32_to_le_bytes(g.edges@.len() as u32) + t2;
    let t0 = nsec + t1;
    let b = spec_u32_to_le_bytes(g.nodes@.len() as u32) + t0;
    assert(spec_graph_bytes(g, bits) =~= b);
    lemma_read_u32(g.nodes@.len() as u32, t0);
    lemma_read_nodes(g.nodes@, bits, t1);
    lemma_read_u32(g.edges@.len() as u32, t2);
    lemma_read_edges(g.edges@, Seq::empty());
    assert(esec + Seq::<u8>::empty() =~= esec);
}

} // verus!
