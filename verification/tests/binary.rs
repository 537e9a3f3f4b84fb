use netex_graph::binary;
use netex_graph::graph::Edge;
use netex_graph::graph::Graph;
use netex_graph::graph::Journey;
use netex_graph::graph::OperatingPeriod;
use netex_graph::graph::StopNode;
use netex_graph::graph::Timetable;

fn small_graph() -> Graph {
    Graph {
        nodes: vec![StopNode {
            id: 5,
            short_name: String::from("AB"),
            long: 8_000_000,
            lat: 50_000_000,
        }],
        edges: vec![Edge {
            start_node: 0,
            end_node: 0,
            timetable: Timetable {
                journeys: vec![Journey {
                    departure: 1,
                    arrival: 2,
                    transport_mode: String::from("bus"),
                    operating_period: 3,
                    line: String::from("L"),
                    controller: String::from("C"),
                }],
                periods: vec![OperatingPeriod {
                    from: 9,
                    to: 10,
                    valid_day_bits: String::from("AQI="),
                    valid_day: vec![1, 2],
                }],
            },
            walk_seconds: 7,
        }],
    }
}

#[test]
fn binary_layout_is_byte_exact() {
    let graph = small_graph();
    let lat_bits = 50.0f32.to_bits();
    let long_bits = 8.0f32.to_bits();
    let bytes = binary::dump_binary(&graph, &vec![(lat_bits, long_bits)]);
    let mut expected: Vec<u8> = Vec::new();
    expected.extend_from_slice(&1u32.to_le_bytes()); // node count
    expected.extend_from_slice(&5u64.to_le_bytes()); // node id
    expected.extend_from_slice(&50.0f32.to_le_bytes()); // latitude
    expected.extend_from_slice(&8.0f32.to_le_bytes()); // longitude
    expected.extend_from_slice(&2u32.to_le_bytes()); // name length
    expected.extend_from_slice(b"AB");
    expected.extend_from_slice(&1u32.to_le_bytes()); // edge count
    expected.extend_from_slice(&0u32.to_le_bytes()); // start node
    expected.extend_from_slice(&0u32.to_le_bytes()); // end node
    expected.extend_from_slice(&7u16.to_le_bytes()); // walk seconds
    expected.extend_from_slice(&6u32.to_le_bytes()); // journey section length
    expected.extend_from_slice(&2u16.to_le_bytes()); // arrival
    expected.extend_from_slice(&1u16.to_le_bytes()); // departure
    expected.extend_from_slice(&3u16.to_le_bytes()); // operating period
    expected.extend_from_slice(&14u32.to_le_bytes()); // period section length
    expected.extend_from_slice(&9u32.to_le_bytes()); // from
    expected.extend_from_slice(&10u32.to_le_bytes()); // to
    expected.extend_from_slice(&2u32.to_le_bytes()); // day-flag length
    expected.extend_from_slice(&[1u8, 2u8]);
    assert_eq!(bytes, expected);
}

struct Reader<'a> {
    bytes: &'a [u8],
    pos: usize,
}

impl<'a> Reader<'a> {
    fn u16(&mut self) -> u16 {
        let v = u16::from_le_bytes([self.bytes[self.pos], self.bytes[self.pos + 1]]);
        self.pos += 2;
        v
    }

    fn u32(&mut self) -> u32 {
        let mut b = [0u8; 4];
        b.copy_from_slice(&self.bytes[self.pos..self.pos + 4]);
        self.pos += 4;
        u32::from_le_bytes(b)
    }

    fn u64(&mut self) -> u64 {
        let mut b = [0u8; 8];
        b.copy_from_slice(&self.bytes[self.pos..self.pos + 8]);
        self.pos += 8;
        u64::from_le_bytes(b)
    }

    fn raw(&mut self, n: usize) -> Vec<u8> {
        let v = self.bytes[self.pos..self.pos + n].to_vec();
        self.pos += n;
        v
    }
}

#[test]
fn binary_round_trips_through_a_reader() {
    let graph = small_graph();
    let lat_bits = 50.0f32.to_bits();
    let long_bits = 8.0f32.to_bits();
    let bytes = binary::dump_binary(&graph, &vec![(lat_bits, long_bits)]);
    let mut r = Reader { bytes: &bytes, pos: 0 };
    let node_count = r.u32();
    assert_eq!(node_count, 1);
    assert_eq!(r.u64(), 5);
    assert_eq!(f32::from_bits(r.u32()), 50.0);
    assert_eq!(f32::from_bits(r.u32()), 8.0);
    let name_len = r.u32() as usize;
    assert_eq!(r.raw(name_len), b"AB");
    let edge_count = r.u32();
    assert_eq!(edge_count, 1);
    assert_eq!(r.u32(), 0);
    assert_eq!(r.u32(), 0);
    assert_eq!(r.u16(), 7);
    let jlen = r.u32();
    assert_eq!(jlen, 6);
    let mut journeys: Vec<(u16, u16, u16)> = Vec::new();
    for _ in 0..jlen / 6 {
        journeys.push((r.u16(), r.u16(), r.u16()));
    }
    assert_eq!(journeys, vec![(2, 1, 3)]);
    let plen = r.u32() as usize;
    let section_end = r.pos + plen;
    let mut periods: Vec<(u32, u32, Vec<u8>)> = Vec::new();
    while r.pos < section_end {
        let from = r.u32();
        let to = r.u32();
        let vlen = r.u32() as usize;
        periods.push((from, to, r.raw(vlen)));
    }
    assert_eq!(periods, vec![(9, 10, vec![1, 2])]);
    assert_eq!(r.pos, bytes.len());
}
