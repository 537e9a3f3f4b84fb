use netex_graph::cluster::Nodes;
use netex_graph::graph::Graph;
use netex_graph::parser::NetexData;
use netex_graph::transform::JourneyTransformer;

fn single_journey_doc() -> String {
    String::from(
        "<PublicationDelivery>\
         <ScheduledStopPoint id=\"s1\"><ShortName>First</ShortName>\
         <Longitude>8.0</Longitude><Latitude>50.0</Latitude></ScheduledStopPoint>\
         <ScheduledStopPoint id=\"s2\"><ShortName>Second</ShortName>\
         <Longitude>8.0</Longitude><Latitude>50.018</Latitude></ScheduledStopPoint>\
         <ServiceJourneyPattern id=\"pat1\"><LineRef ref=\"l1\"/>\
         <StopPointInJourneyPattern id=\"ps1\"><ScheduledStopPointRef ref=\"s1\"/>\
         </StopPointInJourneyPattern>\
         <StopPointInJourneyPattern id=\"ps2\"><ScheduledStopPointRef ref=\"s2\"/>\
         </StopPointInJourneyPattern></ServiceJourneyPattern>\
         <ServiceJourney><DayTypeRef ref=\"dt1\"/><TransportMode>bus</TransportMode>\
         <ServiceJourneyPatternRef ref=\"pat1\"/><passingTimes>\
         <TimetabledPassingTime><StopPointInJourneyPatternRef ref=\"ps1\"/>\
         <ArrivalTime>08:00:00</ArrivalTime><DepartureTime>08:00:00</DepartureTime>\
         </TimetabledPassingTime>\
         <TimetabledPassingTime><StopPointInJourneyPatternRef ref=\"ps2\"/>\
         <ArrivalTime>08:05:00</ArrivalTime><DepartureTime>08:05:00</DepartureTime>\
         </TimetabledPassingTime></passingTimes></ServiceJourney>\
         <UicOperatingPeriod id=\"p1\"><FromDate>2022-06-13T00:00:00</FromDate>\
         <ToDate>2022-12-10T00:00:00</ToDate><ValidDayBits>1111111</ValidDayBits>\
         </UicOperatingPeriod>\
         <DayTypeAssignment><OperatingPeriodRef ref=\"p1\"/><DayTypeRef ref=\"dt1\"/>\
         <isAvailable>true</isAvailable></DayTypeAssignment>\
         <Line id=\"l1\"><ShortName>S9</ShortName><AuthorityRef ref=\"a1\"/></Line>\
         <Authority id=\"a1\"><ShortName>City</ShortName></Authority>\
         </PublicationDelivery>",
    )
}

fn full_boxes(buckets: &Vec<netex_graph::cluster::Bucket>) -> Vec<Vec<Vec<bool>>> {
    buckets
        .iter()
        .map(|b| {
            let n = b.members.len();
            vec![vec![true; n]; n]
        })
        .collect()
}

#[test]
fn single_journey_two_stops() {
    let doc = single_journey_doc();
    let data = vec![NetexData::from_xml(&doc).unwrap()];
    let buckets = netex_graph::cluster::bucket_stops(&data);
    let boxes = full_boxes(&buckets);
    let nodes = Nodes::from_data(&data, &buckets, &boxes);
    assert_eq!(nodes.vec.len(), 2);
    let transformer = JourneyTransformer::from_data(&data);
    assert!(transformer.check_corpus(&data));
    let edges = Graph::collect_edges(&data, &transformer, &nodes);
    assert_eq!(edges.edges.len(), 1);
    // roughly 2 km between the two stops
    let dists: Vec<u64> = vec![2_000_000];
    let graph = Graph::from_parts(nodes, edges, &data, &dists);
    assert_eq!(graph.nodes.len(), 2);
    assert_eq!(graph.edges.len(), 1);
    let edge = &graph.edges[0];
    assert!(edge.start_node < 2 && edge.end_node < 2);
    assert_ne!(edge.start_node, edge.end_node);
    assert_eq!(graph.nodes[edge.start_node].short_name, "First");
    assert_eq!(graph.nodes[edge.end_node].short_name, "Second");
    assert_eq!(edge.walk_seconds, 0xFFFF);
    assert_eq!(edge.timetable.journeys.len(), 1);
    let j = &edge.timetable.journeys[0];
    assert_eq!(j.departure, 480);
    assert_eq!(j.arrival, 485);
    assert_eq!(j.operating_period, 0);
    assert_eq!(j.transport_mode, "bus");
    assert_eq!(j.line, "S9");
    assert_eq!(j.controller, "City");
    assert_eq!(edge.timetable.periods.len(), 1);
    assert_eq!(edge.timetable.periods[0].from, 220613);
    assert_eq!(edge.timetable.periods[0].to, 221210);
}

#[test]
fn duplicate_stops_collapse_to_centroid() {
    let doc = "<PublicationDelivery>\
         <ScheduledStopPoint id=\"s1\"><ShortName>Same</ShortName>\
         <Longitude>8.0</Longitude><Latitude>50.0</Latitude></ScheduledStopPoint>\
         <ScheduledStopPoint id=\"s2\"><ShortName>Same</ShortName>\
         <Longitude>8.0</Longitude><Latitude>50.0009</Latitude></ScheduledStopPoint>\
         </PublicationDelivery>";
    let data = vec![NetexData::from_xml(doc).unwrap()];
    let buckets = netex_graph::cluster::bucket_stops(&data);
    assert_eq!(buckets.len(), 1);
    assert_eq!(buckets[0].members.len(), 2);
    let boxes = full_boxes(&buckets);
    let nodes = Nodes::from_data(&data, &buckets, &boxes);
    assert_eq!(nodes.vec.len(), 1);
    // the centroid is the arithmetic mean of the member coordinates
    assert_eq!(nodes.vec[0].long, 8_000_000);
    assert_eq!(nodes.vec[0].lat, 50_000_450);
    // the node id is the XOR of the distinct member stop ids
    let h1 = xxhash_rust::xxh3::xxh3_64(b"s1");
    let h2 = xxhash_rust::xxh3::xxh3_64(b"s2");
    assert_eq!(nodes.vec[0].id, h1 ^ h2);
    // both original ids resolve to the same node index
    assert_eq!(nodes.ref_map.get(&h1).unwrap().node, 0);
    assert_eq!(nodes.ref_map.get(&h2).unwrap().node, 0);
    assert_eq!(*nodes.id_map.get(&(h1 ^ h2)).unwrap(), 0);
}

#[test]
fn shuffled_documents_give_the_same_node_ids() {
    let doc_a = "<PublicationDelivery>\
         <ScheduledStopPoint id=\"s1\"><ShortName>Same</ShortName>\
         <Longitude>8.0</Longitude><Latitude>50.0</Latitude></ScheduledStopPoint>\
         </PublicationDelivery>";
    let doc_b = "<PublicationDelivery>\
         <ScheduledStopPoint id=\"s2\"><ShortName>Same</ShortName>\
         <Longitude>8.0</Longitude><Latitude>50.0009</Latitude></ScheduledStopPoint>\
         </PublicationDelivery>";
    let data1 = vec![NetexData::from_xml(doc_a).unwrap(), NetexData::from_xml(doc_b).unwrap()];
    let data2 = vec![NetexData::from_xml(doc_b).unwrap(), NetexData::from_xml(doc_a).unwrap()];
    let b1 = netex_graph::cluster::bucket_stops(&data1);
    let b2 = netex_graph::cluster::bucket_stops(&data2);
    let n1 = Nodes::from_data(&data1, &b1, &full_boxes(&b1));
    let n2 = Nodes::from_data(&data2, &b2, &full_boxes(&b2));
    assert_eq!(n1.vec.len(), 1);
    assert_eq!(n2.vec.len(), 1);
    assert_eq!(n1.vec[0].id, n2.vec[0].id);
}

#[test]
fn unresolvable_stop_pairs_are_skipped() {
    // the pattern references a stop that no document defines, so the
    // journey contributes no edge, but the pipeline goes on
    let doc = "<PublicationDelivery>\
         <ScheduledStopPoint id=\"s1\"><ShortName>Only</ShortName>\
         <Longitude>8.0</Longitude><Latitude>50.0</Latitude></ScheduledStopPoint>\
         <ServiceJourneyPattern id=\"pat1\"><LineRef ref=\"l1\"/>\
         <StopPointInJourneyPattern id=\"ps1\"><ScheduledStopPointRef ref=\"s1\"/>\
         </StopPointInJourneyPattern>\
         <StopPointInJourneyPattern id=\"ps2\"><ScheduledStopPointRef ref=\"ghost\"/>\
         </StopPointInJourneyPattern></ServiceJourneyPattern>\
         <ServiceJourney><DayTypeRef ref=\"dt1\"/><TransportMode>bus</TransportMode>\
         <ServiceJourneyPatternRef ref=\"pat1\"/><passingTimes>\
         <TimetabledPassingTime><StopPointInJourneyPatternRef ref=\"ps1\"/>\
         <ArrivalTime>08:00</ArrivalTime><DepartureTime>08:00</DepartureTime>\
         </TimetabledPassingTime>\
         <TimetabledPassingTime><StopPointInJourneyPatternRef ref=\"ps2\"/>\
         <ArrivalTime>08:05</ArrivalTime><DepartureTime>08:05</DepartureTime>\
         </TimetabledPassingTime></passingTimes></ServiceJourney>\
         <UicOperatingPeriod id=\"p1\"><FromDate>2022-06-13T00:00:00</FromDate>\
         <ToDate>2022-12-10T00:00:00</ToDate><ValidDayBits>1</ValidDayBits>\
         </UicOperatingPeriod>\
         <DayTypeAssignment><OperatingPeriodRef ref=\"p1\"/><DayTypeRef ref=\"dt1\"/>\
         <isAvailable>true</isAvailable></DayTypeAssignment>\
         <Line id=\"l1\"><ShortName>S9</ShortName><AuthorityRef ref=\"a1\"/></Line>\
         <Authority id=\"a1\"><ShortName>City</ShortName></Authority>\
         </PublicationDelivery>";
    let data = vec![NetexData::from_xml(doc).unwrap()];
    let buckets = netex_graph::cluster::bucket_stops(&data);
    let boxes = full_boxes(&buckets);
    let nodes = Nodes::from_data(&data, &buckets, &boxes);
    let transformer = JourneyTransformer::from_data(&data);
    assert!(transformer.check_corpus(&data));
    let edges = Graph::collect_edges(&data, &transformer, &nodes);
    assert_eq!(edges.edges.len(), 0);
}

#[test]
fn bounding_box_filter_drops_outside_stops() {
    let doc = "<PublicationDelivery>\
         <ScheduledStopPoint id=\"s1\"><ShortName>In</ShortName>\
         <Longitude>8.0</Longitude><Latitude>50.0</Latitude></ScheduledStopPoint>\
         <ScheduledStopPoint id=\"s2\"><ShortName>Out</ShortName>\
         <Longitude>2.0</Longitude><Latitude>50.0</Latitude></ScheduledStopPoint>\
         </PublicationDelivery>";
    let mut data = vec![NetexData::from_xml(doc).unwrap()];
    netex_graph::parser::retain_stops_in_box(
        &mut data,
        5_500_000,
        15_500_000,
        47_000_000,
        55_500_000,
    );
    assert_eq!(data[0].scheduled_stop_points.len(), 1);
    assert_eq!(data[0].scheduled_stop_points[0].short_name, "In");
}

#[test]
fn corpus_with_dangling_day_type_is_refused() {
    // the journey's day type has no assignment, a missing required
    // reference that must stop the pipeline
    let doc = "<PublicationDelivery>\
         <ServiceJourney><DayTypeRef ref=\"ghost\"/><TransportMode>bus</TransportMode>\
         <ServiceJourneyPatternRef ref=\"pat1\"/><passingTimes/></ServiceJourney>\
         <ServiceJourneyPattern id=\"pat1\"><LineRef ref=\"l1\"/></ServiceJourneyPattern>\
         <Line id=\"l1\"><ShortName>S9</ShortName><AuthorityRef ref=\"a1\"/></Line>\
         <Authority id=\"a1\"><ShortName>City</ShortName></Authority>\
         </PublicationDelivery>";
    let data = vec![NetexData::from_xml(doc).unwrap()];
    let transformer = JourneyTransformer::from_data(&data);
    assert!(!transformer.check_corpus(&data));
}

#[test]
fn corpus_with_assignment_but_no_period_is_refused() {
    // the day type resolves but its operating period does not exist
    let doc = "<PublicationDelivery>\
         <ServiceJourney><DayTypeRef ref=\"dt1\"/><TransportMode>bus</TransportMode>\
         <ServiceJourneyPatternRef ref=\"pat1\"/><passingTimes/></ServiceJourney>\
         <ServiceJourneyPattern id=\"pat1\"><LineRef ref=\"l1\"/></ServiceJourneyPattern>\
         <DayTypeAssignment><OperatingPeriodRef ref=\"ghost\"/><DayTypeRef ref=\"dt1\"/>\
         <isAvailable>true</isAvailable></DayTypeAssignment>\
         <Line id=\"l1\"><ShortName>S9</ShortName><AuthorityRef ref=\"a1\"/></Line>\
         <Authority id=\"a1\"><ShortName>City</ShortName></Authority>\
         </PublicationDelivery>";
    let data = vec![NetexData::from_xml(doc).unwrap()];
    let transformer = JourneyTransformer::from_data(&data);
    assert!(!transformer.check_corpus(&data));
}

#[test]
fn from_data_runs_the_whole_pipeline() {
    let doc = single_journey_doc();
    let data = vec![NetexData::from_xml(&doc).unwrap()];
    let buckets = netex_graph::cluster::bucket_stops(&data);
    let boxes = full_boxes(&buckets);
    let nodes = Nodes::from_data(&data, &buckets, &boxes);
    let transformer = JourneyTransformer::from_data(&data);
    assert!(transformer.check_corpus(&data));
    let walks: Vec<netex_graph::graph::WalkEdge> = vec![];
    let graph = Graph::from_data(&data, &transformer, nodes, &walks, |_a, _b| 2_000_000u64);
    assert_eq!(graph.nodes.len(), 2);
    assert_eq!(graph.edges.len(), 1);
    let edge = &graph.edges[0];
    assert!(edge.start_node < 2 && edge.end_node < 2);
    assert_eq!(edge.timetable.journeys.len(), 1);
    assert_eq!(edge.timetable.journeys[0].departure, 480);
    assert_eq!(edge.timetable.journeys[0].arrival, 485);
    assert_eq!(edge.timetable.periods.len(), 1);
}
