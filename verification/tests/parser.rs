use netex_graph::ids;
use netex_graph::parser::NetexData;
use netex_graph::parser::ParseError;

fn stop_doc(extra: &str) -> String {
    format!(
        "<PublicationDelivery>{}</PublicationDelivery>",
        extra
    )
}

#[test]
fn from_xml_reads_one_stop() {
    let doc = stop_doc(
        "<ScheduledStopPoint id=\"sp1\"><ShortName>Main \"Station\"</ShortName>\
         <Longitude>13.405</Longitude><Latitude>52.52</Latitude></ScheduledStopPoint>",
    );
    let data = NetexData::from_xml(&doc).unwrap();
    assert_eq!(data.scheduled_stop_points.len(), 1);
    let stop = &data.scheduled_stop_points[0];
    assert_eq!(stop.id, xxhash_rust::xxh3::xxh3_64(b"sp1"));
    assert_eq!(stop.short_name, "Main Station");
    assert_eq!(stop.long, 13_405_000);
    assert_eq!(stop.lat, 52_520_000);
}

#[test]
fn from_xml_clamps_out_of_range_coordinates() {
    let doc = stop_doc(
        "<ScheduledStopPoint id=\"sp1\"><Name>X</Name>\
         <Longitude>500</Longitude><Latitude>-95</Latitude></ScheduledStopPoint>",
    );
    let data = NetexData::from_xml(&doc).unwrap();
    assert_eq!(data.scheduled_stop_points[0].long, 180_000_000);
    assert_eq!(data.scheduled_stop_points[0].lat, -90_000_000);
}

#[test]
fn from_xml_reads_period_line_authority_assignment() {
    let doc = stop_doc(
        "<UicOperatingPeriod id=\"p1\"><FromDate>2022-06-13T00:00:00</FromDate>\
         <ToDate>2022-12-10T00:00:00</ToDate><ValidDayBits>1111111011</ValidDayBits>\
         </UicOperatingPeriod>\
         <DayTypeAssignment><OperatingPeriodRef ref=\"p1\"/><DayTypeRef ref=\"dt1\"/>\
         <isAvailable>true</isAvailable></DayTypeAssignment>\
         <Line id=\"l1\"><ShortName>S1</ShortName><AuthorityRef ref=\"a1\"/></Line>\
         <Authority id=\"a1\"><ShortName>City</ShortName></Authority>",
    );
    let data = NetexData::from_xml(&doc).unwrap();
    assert_eq!(data.operating_periods.len(), 1);
    assert_eq!(data.operating_periods[0].from, 220613);
    assert_eq!(data.operating_periods[0].to, 221210);
    assert_eq!(data.operating_periods[0].valid_day_bits, vec![127, 3]);
    assert_eq!(data.day_type_assignments.len(), 1);
    assert!(data.day_type_assignments[0].is_available);
    assert_eq!(data.day_type_assignments[0].day_type, xxhash_rust::xxh3::xxh3_64(b"dt1"));
    assert_eq!(data.lines.len(), 1);
    assert_eq!(data.lines[0].short_name, "S1");
    assert_eq!(data.lines[0].authority, xxhash_rust::xxh3::xxh3_64(b"a1"));
    assert_eq!(data.authorities.len(), 1);
    assert_eq!(data.authorities[0].short_name, "City");
}

#[test]
fn from_xml_rejects_malformed_xml() {
    assert_eq!(NetexData::from_xml("<not closed").err(), Some(ParseError::Xml));
}

#[test]
fn from_xml_rejects_bad_coordinate() {
    let doc = stop_doc(
        "<ScheduledStopPoint id=\"s\"><Longitude>abc</Longitude></ScheduledStopPoint>",
    );
    assert_eq!(NetexData::from_xml(&doc).err(), Some(ParseError::Coordinate));
}

#[test]
fn from_xml_rejects_bad_boolean() {
    let doc = stop_doc(
        "<DayTypeAssignment><isAvailable>maybe</isAvailable></DayTypeAssignment>",
    );
    assert_eq!(NetexData::from_xml(&doc).err(), Some(ParseError::Boolean));
}

#[test]
fn from_xml_rejects_bad_time() {
    let doc = stop_doc(
        "<ServiceJourney><DayTypeRef ref=\"d\"/><TransportMode>bus</TransportMode>\
         <ServiceJourneyPatternRef ref=\"p\"/><passingTimes><TimetabledPassingTime>\
         <ArrivalTime>ab:cd</ArrivalTime></TimetabledPassingTime></passingTimes>\
         </ServiceJourney>",
    );
    assert_eq!(NetexData::from_xml(&doc).err(), Some(ParseError::Time));
}

#[test]
fn from_xml_rejects_bad_date() {
    let doc = stop_doc(
        "<UicOperatingPeriod id=\"p\"><FromDate>soon</FromDate></UicOperatingPeriod>",
    );
    assert_eq!(NetexData::from_xml(&doc).err(), Some(ParseError::Date));
}

#[test]
fn from_xml_rejects_bad_day_bits() {
    let doc = stop_doc(
        "<UicOperatingPeriod id=\"p\"><ValidDayBits>12</ValidDayBits></UicOperatingPeriod>",
    );
    assert_eq!(NetexData::from_xml(&doc).err(), Some(ParseError::DayBits));
}

#[test]
fn from_xml_rejects_journey_without_day_type() {
    let doc = stop_doc(
        "<ServiceJourney><TransportMode>bus</TransportMode>\
         <ServiceJourneyPatternRef ref=\"p\"/><passingTimes/></ServiceJourney>",
    );
    assert_eq!(NetexData::from_xml(&doc).err(), Some(ParseError::MissingField));
}

#[test]
fn handle_of_matches_the_hash() {
    assert_eq!(ids::handle_of("abc"), xxhash_rust::xxh3::xxh3_64(b"abc"));
    assert_eq!(ids::handle_of(""), xxhash_rust::xxh3::xxh3_64(b""));
}

#[test]
fn pattern_takes_the_first_line_reference() {
    let doc = stop_doc(
        "<ServiceJourneyPattern id=\"pat1\"><LineRef ref=\"first\"/>\
         <LineRef ref=\"second\"/>\
         <StopPointInJourneyPattern id=\"ps1\"><ScheduledStopPointRef ref=\"s1\"/>\
         </StopPointInJourneyPattern></ServiceJourneyPattern>",
    );
    let data = NetexData::from_xml(&doc).unwrap();
    assert_eq!(data.service_journey_patterns.len(), 1);
    let pattern = &data.service_journey_patterns[0];
    assert_eq!(pattern.line, xxhash_rust::xxh3::xxh3_64(b"first"));
    assert_eq!(pattern.stops.len(), 1);
    assert_eq!(pattern.stops[0].id, xxhash_rust::xxh3::xxh3_64(b"ps1"));
    assert_eq!(pattern.stops[0].scheduled_stop_point, xxhash_rust::xxh3::xxh3_64(b"s1"));
}

#[test]
fn repeated_fields_keep_the_last_value() {
    // repeated name and coordinate children: the later one wins
    let doc = stop_doc(
        "<ScheduledStopPoint id=\"sp\"><ShortName>Old</ShortName><Name>New</Name>\
         <Longitude>1.0</Longitude><Longitude>2.0</Longitude>\
         <Latitude>3.0</Latitude></ScheduledStopPoint>",
    );
    let data = NetexData::from_xml(&doc).unwrap();
    assert_eq!(data.scheduled_stop_points[0].short_name, "New");
    assert_eq!(data.scheduled_stop_points[0].long, 2_000_000);
    assert_eq!(data.scheduled_stop_points[0].lat, 3_000_000);
}
