//! The NeTEx extractor: walks one parsed document and collects the seven
//! entity kinds the graph needs, coercing id strings into 64-bit handles,
//! times into minutes of day, dates into packed `YYMMDD` integers,
//! coordinates into clamped micro-degrees and day flags into packed bytes.
//! Every record is tied, field by field, to the document model of `xml`.

use vstd::prelude::*;

verus! {

use vstd::utf8::encode_utf8;
use crate::codec;
use crate::ids;
use crate::strutil;
use crate::xml;

/// An operator of lines.
pub struct Authority {
    pub id: u64,
    pub short_name: String,
}

/// A named line run by an authority.
pub struct Line {
    pub id: u64,
    pub short_name: String,
    pub authority: u64,
}

/// Joins a day type to the operating period in which it is available.
pub struct DayTypeAssignment {
    pub operating_period: u64,
    pub day_type: u64,
    pub is_available: bool,
}

/// A calendar span with one validity flag per day, bit-packed.
pub struct UicOperatingPeriod {
    pub id: u64,
    pub from: u32,
    pub to: u32,
    pub valid_day_bits: Vec<u8>,
}

/// A stop location. Coordinates are micro-degrees, clamped at parse time to
/// the valid geographic ranges.
pub struct ScheduledStopPoint {
    pub id: u64,
    pub short_name: String,
    pub long: i64,
    pub lat: i64,
}

/// One stop position inside a journey pattern.
pub struct StopPointInJourneyPattern {
    pub id: u64,
    pub scheduled_stop_point: u64,
}

/// An ordered template of stops belonging to a line.
pub struct ServiceJourneyPattern {
    pub stops: Vec<StopPointInJourneyPattern>,
    pub line: u64,
    pub id: u64,
}

/// Arrival and departure minute at one pattern stop.
pub struct TimetabledPassingTime {
    pub stop_point_in_journey_pattern: u64,
    pub arrival: u16,
    pub departure: u16,
}

/// One concrete scheduled run over a pattern.
pub struct ServiceJourney {
    pub passing_times: Vec<TimetabledPassingTime>,
    pub day_type: u64,
    pub transport_mode: String,
    pub pattern_ref: u64,
}

/// Everything one document contributes to the graph.
pub struct NetexData {
    pub scheduled_stop_points: Vec<ScheduledStopPoint>,
    pub service_journey_patterns: Vec<ServiceJourneyPattern>,
    pub service_journeys: Vec<ServiceJourney>,
    pub operating_periods: Vec<UicOperatingPeriod>,
    pub day_type_assignments: Vec<DayTypeAssignment>,
    pub lines: Vec<Line>,
    pub authorities: Vec<Authority>,
}

/// Why a document was rejected. A malformed document is dropped with a
/// diagnostic; the pipeline goes on with the others.
#[derive(Clone, Copy, Debug, PartialEq, Eq, Structural)]
pub enum ParseError {
    /// The text is not well-formed XML.
    Xml,
    /// A longitude or latitude is not a plain decimal number.
    Coordinate,
    /// An availability flag is neither `true` nor `false`.
    Boolean,
    /// A time has no digits where the minute codec reads them.
    Time,
    /// A date has no digits where the date codec reads them.
    Date,
    /// A day-bits string holds something besides `0` and `1`.
    DayBits,
    /// A service journey misses a required reference.
    MissingField,
}

/// The stop's coordinates lie in the valid geographic ranges
/// (micro-degrees).
pub open spec fn stop_wf(s: ScheduledStopPoint) -> bool {
    &&& -180000000 <= s.long <= 180000000
    &&& -90000000 <= s.lat <= 90000000
}

/// Every stop of the record has clamped coordinates.
pub open spec fn data_wf(d: NetexData) -> bool {
    forall|i: int|
        0 <= i < d.scheduled_stop_points@.len() ==> stop_wf(#[trigger] d.scheduled_stop_points@[i])
}

impl core::default::Default for NetexData {
    /// An empty record: what a document that cannot be read contributes.
    fn default() -> (r: NetexData)
        ensures
            r.scheduled_stop_points@.len() == 0,
            r.service_journey_patterns@.len() == 0,
            r.service_journeys@.len() == 0,
            r.operating_periods@.len() == 0,
            r.day_type_assignments@.len() == 0,
            r.lines@.len() == 0,
            r.authorities@.len() == 0,
            data_wf(r),
    {
        NetexData {
            scheduled_stop_points: Vec::new(),
            service_journey_patterns: Vec::new(),
            service_journeys: Vec::new(),
            operating_periods: Vec::new(),
            day_type_assignments: Vec::new(),
            lines: Vec::new(),
            authorities: Vec::new(),
        }
    }
}

// ---- the document model, as the extractor's contracts read it ----

/// The handle of an id text: the hash of its UTF-8 bytes.
pub open spec fn hash_of(s: Seq<char>) -> u64 {
    ids::id_hash(encode_utf8(s))
}

/// The named attribute's value at a position, or empty when absent.
pub open spec fn attr_model(src: Seq<char>, i: int, name: Seq<char>) -> Seq<char> {
    match xml::attr_at(src, i, name) {
        Some(v) => v,
        None => Seq::empty(),
    }
}

/// The element text at a position, or empty when absent.
pub open spec fn text_model(src: Seq<char>, i: int) -> Seq<char> {
    match xml::text_at(src, i) {
        Some(v) => v,
        None => Seq::empty(),
    }
}

/// The UTF-8 bytes of the element text at a position.
pub open spec fn text_bytes(src: Seq<char>, i: int) -> Seq<u8> {
    encode_utf8(text_model(src, i))
}

/// The first position in `[lo, hi)` carrying the tag, if any.
pub open spec fn first_tagged(src: Seq<char>, lo: int, hi: int, tag: Seq<char>) -> Option<int>
    decreases hi - lo,
{
    if hi <= lo {
        None
    } else if xml::tag_at(src, lo) == tag {
        Some(lo)
    } else {
        first_tagged(src, lo + 1, hi, tag)
    }
}

/// The last position in `[lo, hi)` carrying the tag, if any.
pub open spec fn last_tagged(src: Seq<char>, lo: int, hi: int, tag: Seq<char>) -> Option<int>
    decreases hi - lo,
{
    if hi <= lo {
        None
    } else if xml::tag_at(src, hi - 1) == tag {
        Some(hi - 1)
    } else {
        last_tagged(src, lo, hi - 1, tag)
    }
}

/// A tag that carries a stop's display name.
pub open spec fn is_name_tag(t: Seq<char>) -> bool {
    t == "ShortName"@ || t == "Name"@
}

/// The last position in `[lo, hi)` carrying a name tag, if any.
pub open spec fn last_name_tagged(src: Seq<char>, lo: int, hi: int) -> Option<int>
    decreases hi - lo,
{
    if hi <= lo {
        None
    } else if is_name_tag(xml::tag_at(src, hi - 1)) {
        Some(hi - 1)
    } else {
        last_name_tagged(src, lo, hi - 1)
    }
}

/// All positions in `[lo, hi)` carrying the tag, in document order.
pub open spec fn positions_tagged(src: Seq<char>, lo: int, hi: int, tag: Seq<char>) -> Seq<int>
    decreases hi - lo,
{
    if hi <= lo {
        Seq::empty()
    } else {
        positions_tagged(src, lo, hi - 1, tag) + if xml::tag_at(src, hi - 1) == tag {
            seq![hi - 1]
        } else {
            Seq::empty()
        }
    }
}

/// A forward scan that saw no earlier hit pins `first_tagged`.
proof fn lemma_first_tagged_found(src: Seq<char>, lo: int, hi: int, tag: Seq<char>, k: int)
    requires
        lo <= k < hi,
        xml::tag_at(src, k) == tag,
        forall|j: int| lo <= j < k ==> #[trigger] xml::tag_at(src, j) != tag,
    ensures
        first_tagged(src, lo, hi, tag) == Some(k),
    decreases k - lo,
{
    if k > lo {
        lemma_first_tagged_found(src, lo + 1, hi, tag, k);
    }
}

/// A scan without any hit pins `first_tagged` to none.
proof fn lemma_first_tagged_none(src: Seq<char>, lo: int, hi: int, tag: Seq<char>)
    requires
        forall|j: int| lo <= j < hi ==> #[trigger] xml::tag_at(src, j) != tag,
    ensures
        first_tagged(src, lo, hi, tag) is None,
    decreases hi - lo,
{
    if hi > lo {
        lemma_first_tagged_none(src, lo + 1, hi, tag);
    }
}

/// Every tagged position appears in the position list.
proof fn lemma_positions_tagged_complete(src: Seq<char>, lo: int, hi: int, tag: Seq<char>, q: int)
    requires
        lo <= q < hi,
        xml::tag_at(src, q) == tag,
    ensures
        exists|m: int|
            0 <= m < positions_tagged(src, lo, hi, tag).len() && #[trigger] positions_tagged(
                src,
                lo,
                hi,
                tag,
            )[m] == q,
    decreases hi - lo,
{
    if q == hi - 1 {
        let ps = positions_tagged(src, lo, hi, tag);
        assert(ps[ps.len() - 1] == q);
    } else {
        lemma_positions_tagged_complete(src, lo, hi - 1, tag, q);
        let prev = positions_tagged(src, lo, hi - 1, tag);
        let m = choose|m: int| 0 <= m < prev.len() && #[trigger] prev[m] == q;
        assert(positions_tagged(src, lo, hi, tag)[m] == q);
    }
}

/// The tags the stop extractor tells apart are pairwise distinct.
proof fn lemma_stop_tags_distinct()
    ensures
        "ShortName"@ != "Longitude"@,
        "ShortName"@ != "Latitude"@,
        "Name"@ != "Longitude"@,
        "Name"@ != "Latitude"@,
        "Longitude"@ != "Latitude"@,
{
    reveal_strlit("ShortName");
    reveal_strlit("Name");
    reveal_strlit("Longitude");
    reveal_strlit("Latitude");
    assert("ShortName"@.len() == 9);
    assert("Name"@.len() == 4);
    assert("Longitude"@.len() == 9);
    assert("Latitude"@.len() == 8);
    assert("ShortName"@[0] == 'S');
    assert("Longitude"@[0] == 'L');
}

/// The tags a passing-time entry tells apart are pairwise distinct.
proof fn lemma_entry_tags_distinct()
    ensures
        "StopPointInJourneyPatternRef"@ != "ArrivalTime"@,
        "StopPointInJourneyPatternRef"@ != "DepartureTime"@,
        "ArrivalTime"@ != "DepartureTime"@,
{
    reveal_strlit("StopPointInJourneyPatternRef");
    reveal_strlit("ArrivalTime");
    reveal_strlit("DepartureTime");
    assert("StopPointInJourneyPatternRef"@.len() == 28);
    assert("ArrivalTime"@.len() == 11);
    assert("DepartureTime"@.len() == 13);
}

/// The tags the period extractor tells apart are pairwise distinct.
proof fn lemma_period_tags_distinct()
    ensures
        "FromDate"@ != "ToDate"@,
        "FromDate"@ != "ValidDayBits"@,
        "ToDate"@ != "ValidDayBits"@,
{
    reveal_strlit("FromDate");
    reveal_strlit("ToDate");
    reveal_strlit("ValidDayBits");
    assert("FromDate"@.len() == 8);
    assert("ToDate"@.len() == 6);
    assert("ValidDayBits"@.len() == 12);
}

/// The tags the assignment extractor tells apart are pairwise distinct,
/// and so are the two boolean spellings.
proof fn lemma_dta_tags_distinct()
    ensures
        "OperatingPeriodRef"@ != "DayTypeRef"@,
        "OperatingPeriodRef"@ != "isAvailable"@,
        "DayTypeRef"@ != "isAvailable"@,
        "true"@ != "false"@,
{
    reveal_strlit("OperatingPeriodRef");
    reveal_strlit("DayTypeRef");
    reveal_strlit("isAvailable");
    reveal_strlit("true");
    reveal_strlit("false");
    assert("OperatingPeriodRef"@.len() == 18);
    assert("DayTypeRef"@.len() == 10);
    assert("isAvailable"@.len() == 11);
    assert("true"@.len() == 4);
    assert("false"@.len() == 5);
}

/// The tags the line extractor tells apart are distinct.
proof fn lemma_line_tags_distinct()
    ensures
        "ShortName"@ != "AuthorityRef"@,
{
    reveal_strlit("ShortName");
    reveal_strlit("AuthorityRef");
    assert("ShortName"@.len() == 9);
    assert("AuthorityRef"@.len() == 12);
}

// ---- what each extracted record is, over the model ----

/// The fields of an extracted stop: hashed id attribute, the quote-stripped
/// text of the last name-tagged descendant, and the clamped micro-degree
/// value of the last longitude and latitude texts.
pub open spec fn stop_fields_ok(src: Seq<char>, p: int, rec: ScheduledStopPoint) -> bool {
    let hi = xml::subtree_end(src, p);
    &&& rec.id == hash_of(attr_model(src, p, "id"@))
    &&& rec.short_name@ == (match last_name_tagged(src, p, hi) {
        Some(q) => strutil::strip_quotes_model(text_model(src, q)),
        None => Seq::<char>::empty(),
    })
    &&& rec.long == (match last_tagged(src, p, hi, "Longitude"@) {
        Some(q) => codec::clamp_value(codec::decimal_micro_value(text_bytes(src, q)), 180000000),
        None => 0int,
    })
    &&& rec.lat == (match last_tagged(src, p, hi, "Latitude"@) {
        Some(q) => codec::clamp_value(codec::decimal_micro_value(text_bytes(src, q)), 90000000),
        None => 0int,
    })
}

/// Every coordinate text under the stop is a plain decimal.
pub open spec fn stop_parse_ok(src: Seq<char>, p: int) -> bool {
    forall|q: int|
        p <= q < xml::subtree_end(src, p) && ((#[trigger] xml::tag_at(src, q)) == "Longitude"@
            || xml::tag_at(src, q) == "Latitude"@) ==> codec::valid_decimal(text_bytes(src, q))
}

/// The fields of an extracted line: hashed id, the last short-name text,
/// the hashed reference of the last authority reference.
pub open spec fn line_fields_ok(src: Seq<char>, p: int, rec: Line) -> bool {
    let hi = xml::subtree_end(src, p);
    &&& rec.id == hash_of(attr_model(src, p, "id"@))
    &&& rec.short_name@ == (match last_tagged(src, p, hi, "ShortName"@) {
        Some(q) => text_model(src, q),
        None => Seq::<char>::empty(),
    })
    &&& rec.authority == (match last_tagged(src, p, hi, "AuthorityRef"@) {
        Some(q) => hash_of(attr_model(src, q, "ref"@)),
        None => 0u64,
    })
}

/// The fields of an extracted authority: hashed id and the last short-name
/// text.
pub open spec fn authority_fields_ok(src: Seq<char>, p: int, rec: Authority) -> bool {
    let hi = xml::subtree_end(src, p);
    &&& rec.id == hash_of(attr_model(src, p, "id"@))
    &&& rec.short_name@ == (match last_tagged(src, p, hi, "ShortName"@) {
        Some(q) => text_model(src, q),
        None => Seq::<char>::empty(),
    })
}

/// The fields of an extracted assignment: the hashed references of the last
/// period and day-type references, and the availability flag of the last
/// `isAvailable` text.
pub open spec fn dta_fields_ok(src: Seq<char>, p: int, rec: DayTypeAssignment) -> bool {
    let hi = xml::subtree_end(src, p);
    &&& rec.operating_period == (match last_tagged(src, p, hi, "OperatingPeriodRef"@) {
        Some(q) => hash_of(attr_model(src, q, "ref"@)),
        None => 0u64,
    })
    &&& rec.day_type == (match last_tagged(src, p, hi, "DayTypeRef"@) {
        Some(q) => hash_of(attr_model(src, q, "ref"@)),
        None => 0u64,
    })
    &&& rec.is_available == (match last_tagged(src, p, hi, "isAvailable"@) {
        Some(q) => text_model(src, q) == "true"@,
        None => false,
    })
}

/// Every availability text under the assignment is `true` or `false`.
pub open spec fn dta_parse_ok(src: Seq<char>, p: int) -> bool {
    forall|q: int|
        p <= q < xml::subtree_end(src, p) && (#[trigger] xml::tag_at(src, q)) == "isAvailable"@
            ==> (text_model(src, q) == "true"@ || text_model(src, q) == "false"@)
}

/// The fields of an extracted period: hashed id, the packed dates of the
/// last from/to texts, and the packed bits of the last day-bits text.
pub open spec fn period_fields_ok(src: Seq<char>, p: int, rec: UicOperatingPeriod) -> bool {
    let hi = xml::subtree_end(src, p);
    &&& rec.id == hash_of(attr_model(src, p, "id"@))
    &&& rec.from == (match last_tagged(src, p, hi, "FromDate"@) {
        Some(q) => codec::date_value(text_bytes(src, q)),
        None => 0int,
    })
    &&& rec.to == (match last_tagged(src, p, hi, "ToDate"@) {
        Some(q) => codec::date_value(text_bytes(src, q)),
        None => 0int,
    })
    &&& rec.valid_day_bits@ == (match last_tagged(src, p, hi, "ValidDayBits"@) {
        Some(q) => codec::day_bits_value(text_bytes(src, q)),
        None => Seq::<u8>::empty(),
    })
}

/// Every date text under the period has digits where the date codec reads
/// them, and every day-bits text is an ASCII bit string a machine can pad.
pub open spec fn period_parse_ok(src: Seq<char>, p: int) -> bool {
    let hi = xml::subtree_end(src, p);
    &&& forall|q: int|
        p <= q < hi && ((#[trigger] xml::tag_at(src, q)) == "FromDate"@ || xml::tag_at(src, q)
            == "ToDate"@) ==> codec::date_digits_ok(text_bytes(src, q))
    &&& forall|q: int|
        p <= q < hi && (#[trigger] xml::tag_at(src, q)) == "ValidDayBits"@ ==> (
        codec::all_ascii_bits(text_bytes(src, q)) && text_bytes(src, q).len() + 8 <= usize::MAX)
}

/// The fields of an extracted pattern: hashed id, the hashed reference of
/// the first line reference, and one entry per pattern-stop descendant in
/// document order, each carrying its hashed id and the hashed reference of
/// the first stop reference under it.
pub open spec fn pattern_fields_ok(src: Seq<char>, p: int, rec: ServiceJourneyPattern) -> bool {
    let hi = xml::subtree_end(src, p);
    let ps = positions_tagged(src, p, hi, "StopPointInJourneyPattern"@);
    &&& rec.id == hash_of(attr_model(src, p, "id"@))
    &&& rec.line == (match first_tagged(src, p, hi, "LineRef"@) {
        Some(q) => hash_of(attr_model(src, q, "ref"@)),
        None => 0u64,
    })
    &&& rec.stops@.len() == ps.len()
    &&& forall|k: int|
        0 <= k < ps.len() ==> (#[trigger] rec.stops@[k]).id == hash_of(
            attr_model(src, ps[k], "id"@),
        ) && rec.stops@[k].scheduled_stop_point == hash_of(
            match first_tagged(src, ps[k], xml::subtree_end(src, ps[k]), "ScheduledStopPointRef"@) {
                Some(q2) => attr_model(src, q2, "ref"@),
                None => Seq::<char>::empty(),
            },
        )
}

/// The journey misses a required reference: no day type, transport mode,
/// pattern reference or passing-times list under it.
pub open spec fn journey_missing(src: Seq<char>, p: int) -> bool {
    let hi = xml::subtree_end(src, p);
    ||| first_tagged(src, p, hi, "DayTypeRef"@) is None
    ||| first_tagged(src, p, hi, "TransportMode"@) is None
    ||| first_tagged(src, p, hi, "ServiceJourneyPatternRef"@) is None
    ||| first_tagged(src, p, hi, "passingTimes"@) is None
}

/// Every arrival and departure text under the passing-time entry has digits
/// where the minute codec reads them.
pub open spec fn entry_times_ok(src: Seq<char>, e: int) -> bool {
    forall|q: int|
        e <= q < xml::subtree_end(src, e) && ((#[trigger] xml::tag_at(src, q)) == "ArrivalTime"@
            || xml::tag_at(src, q) == "DepartureTime"@) ==> codec::time_digits_ok(
            text_bytes(src, q),
        )
}

/// All passing-time entries of the journey carry well-formed times.
pub open spec fn journey_times_ok(src: Seq<char>, p: int) -> bool {
    match first_tagged(src, p, xml::subtree_end(src, p), "passingTimes"@) {
        None => true,
        Some(pt) => {
            let entries = positions_tagged(
                src,
                pt,
                xml::subtree_end(src, pt),
                "TimetabledPassingTime"@,
            );
            forall|k: int| 0 <= k < entries.len() ==> entry_times_ok(src, #[trigger] entries[k])
        },
    }
}

/// The fields of one passing-time entry: the hashed reference of the last
/// pattern-stop reference and the minute values of the last arrival and
/// departure texts.
pub open spec fn entry_fields_ok(src: Seq<char>, e: int, rec: TimetabledPassingTime) -> bool {
    let ehi = xml::subtree_end(src, e);
    &&& rec.stop_point_in_journey_pattern == (match last_tagged(
        src,
        e,
        ehi,
        "StopPointInJourneyPatternRef"@,
    ) {
        Some(q) => hash_of(attr_model(src, q, "ref"@)),
        None => 0u64,
    })
    &&& rec.arrival == (match last_tagged(src, e, ehi, "ArrivalTime"@) {
        Some(q) => codec::minutes_value(text_bytes(src, q)),
        None => 0int,
    })
    &&& rec.departure == (match last_tagged(src, e, ehi, "DepartureTime"@) {
        Some(q) => codec::minutes_value(text_bytes(src, q)),
        None => 0int,
    })
}

/// The fields of an extracted journey: the hashed references and text of
/// the first day-type, transport-mode and pattern references, and one entry
/// per passing-time descendant of the first passing-times list.
pub open spec fn journey_fields_ok(src: Seq<char>, p: int, rec: ServiceJourney) -> bool {
    let hi = xml::subtree_end(src, p);
    &&& (match first_tagged(src, p, hi, "DayTypeRef"@) {
        Some(q) => rec.day_type == hash_of(attr_model(src, q, "ref"@)),
        None => false,
    })
    &&& (match first_tagged(src, p, hi, "TransportMode"@) {
        Some(q) => rec.transport_mode@ == text_model(src, q),
        None => false,
    })
    &&& (match first_tagged(src, p, hi, "ServiceJourneyPatternRef"@) {
        Some(q) => rec.pattern_ref == hash_of(attr_model(src, q, "ref"@)),
        None => false,
    })
    &&& (match first_tagged(src, p, hi, "passingTimes"@) {
        Some(pt) => {
            let entries = positions_tagged(
                src,
                pt,
                xml::subtree_end(src, pt),
                "TimetabledPassingTime"@,
            );
            rec.passing_times@.len() == entries.len() && forall|k: int|
                0 <= k < entries.len() ==> entry_fields_ok(
                    src,
                    entries[k],
                    #[trigger] rec.passing_times@[k],
                )
        },
        None => false,
    })
}

/// A bad time in one passing-time entry breaks the journey's times.
proof fn lemma_bad_entry_breaks_times(src: Seq<char>, p: int, pt: int, e: int)
    requires
        first_tagged(src, p, xml::subtree_end(src, p), "passingTimes"@) == Some(pt),
        xml::tag_at(src, e) == "TimetabledPassingTime"@,
        pt <= e < xml::subtree_end(src, pt),
        !entry_times_ok(src, e),
    ensures
        !journey_times_ok(src, p),
{
    let pthi = xml::subtree_end(src, pt);
    let entries = positions_tagged(src, pt, pthi, "TimetabledPassingTime"@);
    lemma_positions_tagged_complete(src, pt, pthi, "TimetabledPassingTime"@, e);
    let m = choose|m: int| 0 <= m < entries.len() && #[trigger] entries[m] == e;
    if journey_times_ok(src, p) {
        let ptb = first_tagged(src, p, xml::subtree_end(src, p), "passingTimes"@)->Some_0;
        assert(ptb == pt);
        assert(forall|k: int|
            0 <= k < positions_tagged(
                src,
                ptb,
                xml::subtree_end(src, ptb),
                "TimetabledPassingTime"@,
            ).len() ==> entry_times_ok(
                src,
                #[trigger] positions_tagged(
                    src,
                    ptb,
                    xml::subtree_end(src, ptb),
                    "TimetabledPassingTime"@,
                )[k],
            ));
        assert(entry_times_ok(src, entries[m]));
        assert(false);
    }
}

// ---- helpers over the wrappers ----

/// The element's local tag name equals `name`.
fn tag_is(node: &roxmltree::Node<'_, '_>, name: &str) -> (r: bool)
    ensures
        r == (xml::tag_at(xml::node_src(*node), xml::node_pos(*node)) == name@),
{
    strutil::str_eq(xml::node_tag_name(node), name)
}

/// The attribute's value, or the empty string when the element lacks it.
fn attr_or_empty(node: &roxmltree::Node<'_, '_>, name: &str) -> (r: String)
    ensures
        r@ == attr_model(xml::node_src(*node), xml::node_pos(*node), name@),
{
    match xml::node_attribute(node, name) {
        Some(v) => v.to_owned(),
        None => String::new(),
    }
}

/// The element's text, or the empty string when it has none.
fn text_or_empty(node: &roxmltree::Node<'_, '_>) -> (r: String)
    ensures
        r@ == text_model(xml::node_src(*node), xml::node_pos(*node)),
{
    match xml::node_text(node) {
        Some(v) => v.to_owned(),
        None => String::new(),
    }
}

/// Index of the first node carrying the tag, if any.
fn find_tag(nodes: &Vec<roxmltree::Node<'_, '_>>, name: &str) -> (r: Option<usize>)
    ensures
        match r {
            Some(k) => k < nodes@.len() && xml::tag_at(
                xml::node_src(nodes@[k as int]),
                xml::node_pos(nodes@[k as int]),
            ) == name@ && (forall|j: int|
                0 <= j < k ==> xml::tag_at(
                    xml::node_src(#[trigger] nodes@[j]),
                    xml::node_pos(nodes@[j]),
                ) != name@),
            None => forall|j: int|
                0 <= j < nodes@.len() ==> xml::tag_at(
                    xml::node_src(#[trigger] nodes@[j]),
                    xml::node_pos(nodes@[j]),
                ) != name@,
        },
{
    let mut k: usize = 0;
    while k < nodes.len()
        invariant
            0 <= k <= nodes@.len(),
            forall|j: int|
                0 <= j < k ==> xml::tag_at(
                    xml::node_src(#[trigger] nodes@[j]),
                    xml::node_pos(nodes@[j]),
                ) != name@,
        decreases nodes@.len() - k,
    {
        if tag_is(&nodes[k], name) {
            return Some(k);
        }
        k += 1;
    }
    None
}

impl NetexData {
    /// Extracts one stop element: hashed id, quote-stripped name, clamped
    /// micro-degree coordinates, each from the model of the node's subtree.
    /// Succeeds exactly when every coordinate text is a plain decimal.
    #[verifier::rlimit(100)]
    fn parse_scheduled_stop_point(node: &roxmltree::Node<'_, '_>) -> (r: Result<
        ScheduledStopPoint,
        ParseError,
    >)
        ensures
            r is Ok <==> stop_parse_ok(xml::node_src(*node), xml::node_pos(*node)),
            r is Ok ==> stop_fields_ok(xml::node_src(*node), xml::node_pos(*node), r->Ok_0)
                && stop_wf(r->Ok_0),
            r is Err ==> r == Err::<ScheduledStopPoint, ParseError>(ParseError::Coordinate),
    {
        let ghost src = xml::node_src(*node);
        let ghost p = xml::node_pos(*node);
        let ghost hi = xml::subtree_end(src, p);
        let id: u64 = ids::handle_of(attr_or_empty(node, "id").as_str());
        let mut short_name: String = String::new();
        let mut long: i64 = 0;
        let mut lat: i64 = 0;
        let subs = xml::node_descendants(node);
        let mut k: usize = 0;
        while k < subs.len()
            invariant
                0 <= k <= subs@.len(),
                src == xml::node_src(*node),
                p == xml::node_pos(*node),
                hi == xml::subtree_end(src, p),
                subs@.len() == hi - p,
                forall|k2: int|
                    0 <= k2 < subs@.len() ==> xml::node_src(#[trigger] subs@[k2]) == src
                        && xml::node_pos(subs@[k2]) == p + k2,
                short_name@ == (match last_name_tagged(src, p, p + k) {
                    Some(q) => strutil::strip_quotes_model(text_model(src, q)),
                    None => Seq::<char>::empty(),
                }),
                long == (match last_tagged(src, p, p + k, "Longitude"@) {
                    Some(q) => codec::clamp_value(
                        codec::decimal_micro_value(text_bytes(src, q)),
                        180000000,
                    ),
                    None => 0int,
                }),
                lat == (match last_tagged(src, p, p + k, "Latitude"@) {
                    Some(q) => codec::clamp_value(
                        codec::decimal_micro_value(text_bytes(src, q)),
                        90000000,
                    ),
                    None => 0int,
                }),
                forall|q: int|
                    p <= q < p + k && ((#[trigger] xml::tag_at(src, q)) == "Longitude"@
                        || xml::tag_at(src, q) == "Latitude"@) ==> codec::valid_decimal(
                        text_bytes(src, q),
                    ),
                -180000000 <= long <= 180000000,
                -90000000 <= lat <= 90000000,
            decreases subs@.len() - k,
        {
            let child = &subs[k];
            let ghost q = p + k;
            proof {
                lemma_stop_tags_distinct();
            }
            if tag_is(child, "ShortName") || tag_is(child, "Name") {
                short_name = strutil::strip_quotes(text_or_empty(child).as_str());
                proof {
                    assert(is_name_tag(xml::tag_at(src, q)));
                }
            } else if tag_is(child, "Longitude") {
                let t = text_or_empty(child);
                let tb: &[u8] = t.as_str().as_bytes();
                proof {
                    assert(tb@ == text_bytes(src, q));
                }
                match codec::parse_decimal_micro(tb, 180000000) {
                    Some(v) => {
                        long = v;
                        proof {
                            let cv = codec::clamp_value(
                                codec::decimal_micro_value(text_bytes(src, q)),
                                180000000,
                            );
                            assert(-180000000 <= cv <= 180000000);
                            assert(long == cv);
                        }
                    },
                    None => {
                        proof {
                            assert(!codec::valid_decimal(text_bytes(src, q)));
                            assert(!stop_parse_ok(src, p));
                        }
                        return Err(ParseError::Coordinate);
                    },
                }
            } else if tag_is(child, "Latitude") {
                let t = text_or_empty(child);
                let tb: &[u8] = t.as_str().as_bytes();
                proof {
                    assert(tb@ == text_bytes(src, q));
                }
                match codec::parse_decimal_micro(tb, 90000000) {
                    Some(v) => {
                        lat = v;
                        proof {
                            let cv = codec::clamp_value(
                                codec::decimal_micro_value(text_bytes(src, q)),
                                90000000,
                            );
                            assert(-90000000 <= cv <= 90000000);
                            assert(lat == cv);
                        }
                    },
                    None => {
                        proof {
                            assert(!codec::valid_decimal(text_bytes(src, q)));
                            assert(!stop_parse_ok(src, p));
                        }
                        return Err(ParseError::Coordinate);
                    },
                }
            }
            proof {
                reveal_strlit("ShortName");
                reveal_strlit("Name");
                reveal_strlit("Longitude");
                reveal_strlit("Latitude");
                assert(q + 1 == p + (k + 1));
                assert(last_name_tagged(src, p, q + 1) == (if is_name_tag(xml::tag_at(src, q)) {
                    Some(q)
                } else {
                    last_name_tagged(src, p, q)
                }));
                assert(last_tagged(src, p, q + 1, "Longitude"@) == (if xml::tag_at(src, q)
                    == "Longitude"@ {
                    Some(q)
                } else {
                    last_tagged(src, p, q, "Longitude"@)
                }));
                assert(last_tagged(src, p, q + 1, "Latitude"@) == (if xml::tag_at(src, q)
                    == "Latitude"@ {
                    Some(q)
                } else {
                    last_tagged(src, p, q, "Latitude"@)
                }));
                assert(short_name@ == (match last_name_tagged(src, p, q + 1) {
                    Some(q2) => strutil::strip_quotes_model(text_model(src, q2)),
                    None => Seq::<char>::empty(),
                }));
                assert(long == (match last_tagged(src, p, q + 1, "Longitude"@) {
                    Some(q2) => codec::clamp_value(
                        codec::decimal_micro_value(text_bytes(src, q2)),
                        180000000,
                    ),
                    None => 0int,
                })) by {
                    if xml::tag_at(src, q) == "Longitude"@ {
                        assert(last_tagged(src, p, q + 1, "Longitude"@) == Some(q));
                        assert(!(xml::tag_at(src, q) == "ShortName"@ || xml::tag_at(src, q)
                            == "Name"@));
                        assert(codec::valid_decimal(text_bytes(src, q)));
                        assert(long == codec::clamp_value(
                            codec::decimal_micro_value(text_bytes(src, q)),
                            180000000,
                        ));
                    } else {
                        assert(last_tagged(src, p, q + 1, "Longitude"@) == last_tagged(
                            src,
                            p,
                            q,
                            "Longitude"@,
                        ));
                    }
                }
                assert(lat == (match last_tagged(src, p, q + 1, "Latitude"@) {
                    Some(q2) => codec::clamp_value(
                        codec::decimal_micro_value(text_bytes(src, q2)),
                        90000000,
                    ),
                    None => 0int,
                }));
                assert forall|q2: int|
                    p <= q2 < q + 1 && ((#[trigger] xml::tag_at(src, q2)) == "Longitude"@
                        || xml::tag_at(src, q2) == "Latitude"@) implies codec::valid_decimal(
                    text_bytes(src, q2),
                ) by {}
            }
            k += 1;
        }
        Ok(ScheduledStopPoint { id, short_name, long, lat })
    }

    /// Extracts one journey pattern: the first line reference and one
    /// pattern stop per descendant of that tag, in document order.
    fn parse_service_journey_pattern(node: &roxmltree::Node<'_, '_>) -> (r: ServiceJourneyPattern)
        ensures
            pattern_fields_ok(xml::node_src(*node), xml::node_pos(*node), r),
    {
        let ghost src = xml::node_src(*node);
        let ghost p = xml::node_pos(*node);
        let ghost hi = xml::subtree_end(src, p);
        let id: u64 = ids::handle_of(attr_or_empty(node, "id").as_str());
        let subs = xml::node_descendants(node);
        let line: u64 = match find_tag(&subs, "LineRef") {
            Some(i) => {
                proof {
                    assert forall|j: int| p <= j < p + i implies #[trigger] xml::tag_at(src, j) != "LineRef"@ by {
                        assert(xml::node_src(subs@[j - p]) == src && xml::node_pos(subs@[j - p]) == j);
                    }
                    assert(xml::node_src(subs@[i as int]) == src && xml::node_pos(subs@[i as int]) == p + i);
                    lemma_first_tagged_found(src, p, hi, "LineRef"@, p + i);
                }
                ids::handle_of(attr_or_empty(&subs[i], "ref").as_str())
            },
            None => {
                proof {
                    assert forall|j: int| p <= j < hi implies #[trigger] xml::tag_at(src, j) != "LineRef"@ by {
                        assert(xml::node_src(subs@[j - p]) == src && xml::node_pos(subs@[j - p]) == j);
                    }
                    lemma_first_tagged_none(src, p, hi, "LineRef"@);
                }
                0
            },
        };
        let mut stops: Vec<StopPointInJourneyPattern> = Vec::new();
        let mut k: usize = 0;
        while k < subs.len()
            invariant
                0 <= k <= subs@.len(),
                src == xml::node_src(*node),
                p == xml::node_pos(*node),
                hi == xml::subtree_end(src, p),
                subs@.len() == hi - p,
                forall|k2: int|
                    0 <= k2 < subs@.len() ==> xml::node_src(#[trigger] subs@[k2]) == src
                        && xml::node_pos(subs@[k2]) == p + k2,
                stops@.len() == positions_tagged(src, p, p + k, "StopPointInJourneyPattern"@).len(),
                forall|m: int|
                    0 <= m < stops@.len() ==> {
                        let q = positions_tagged(src, p, p + k, "StopPointInJourneyPattern"@)[m];
                        (#[trigger] stops@[m]).id == hash_of(attr_model(src, q, "id"@))
                            && stops@[m].scheduled_stop_point == hash_of(
                            match first_tagged(
                                src,
                                q,
                                xml::subtree_end(src, q),
                                "ScheduledStopPointRef"@,
                            ) {
                                Some(q2) => attr_model(src, q2, "ref"@),
                                None => Seq::<char>::empty(),
                            },
                        )
                    },
            decreases subs@.len() - k,
        {
            let child = &subs[k];
            let ghost q = p + k;
            if tag_is(child, "StopPointInJourneyPattern") {
                let stop_id: u64 = ids::handle_of(attr_or_empty(child, "id").as_str());
                let inner = xml::node_descendants(child);
                let ghost qhi = xml::subtree_end(src, q);
                let scheduled: u64 = match find_tag(&inner, "ScheduledStopPointRef") {
                    Some(idx) => {
                        proof {
                            assert forall|j: int| q <= j < q + idx implies #[trigger] xml::tag_at(
                                src,
                                j,
                            ) != "ScheduledStopPointRef"@ by {
                                assert(xml::node_src(inner@[j - q]) == src && xml::node_pos(
                                    inner@[j - q],
                                ) == j);
                            }
                            assert(xml::node_src(inner@[idx as int]) == src && xml::node_pos(
                                inner@[idx as int],
                            ) == q + idx);
                            lemma_first_tagged_found(src, q, qhi, "ScheduledStopPointRef"@, q + idx);
                        }
                        ids::handle_of(attr_or_empty(&inner[idx], "ref").as_str())
                    },
                    None => {
                        proof {
                            assert forall|j: int| q <= j < qhi implies #[trigger] xml::tag_at(
                                src,
                                j,
                            ) != "ScheduledStopPointRef"@ by {
                                assert(xml::node_src(inner@[j - q]) == src && xml::node_pos(
                                    inner@[j - q],
                                ) == j);
                            }
                            lemma_first_tagged_none(src, q, qhi, "ScheduledStopPointRef"@);
                            reveal_strlit("");
                            assert(""@ =~= Seq::<char>::empty());
                        }
                        ids::handle_of("")
                    },
                };
                stops.push(
                    StopPointInJourneyPattern { id: stop_id, scheduled_stop_point: scheduled },
                );
            }
            k += 1;
        }
        proof {
            assert(p + subs@.len() == hi);
        }
        ServiceJourneyPattern { stops, line, id }
    }

    /// Extracts one service journey: the first day-type, transport-mode and
    /// pattern references and one entry per passing-time descendant of the
    /// first passing-times list. Fails with the missing-field error exactly
    /// when one of the four is absent, and with the time error exactly when
    /// they are present but some arrival or departure text is malformed.
    fn parse_service_journey(node: &roxmltree::Node<'_, '_>) -> (r: Result<
        ServiceJourney,
        ParseError,
    >)
        ensures
            r is Ok <==> (!journey_missing(xml::node_src(*node), xml::node_pos(*node))
                && journey_times_ok(xml::node_src(*node), xml::node_pos(*node))),
            r is Ok ==> journey_fields_ok(xml::node_src(*node), xml::node_pos(*node), r->Ok_0),
            r == Err::<ServiceJourney, ParseError>(ParseError::MissingField) <==> journey_missing(
                xml::node_src(*node),
                xml::node_pos(*node),
            ),
            r is Err ==> (r == Err::<ServiceJourney, ParseError>(ParseError::MissingField) || r
                == Err::<ServiceJourney, ParseError>(ParseError::Time)),
    {
        let ghost src = xml::node_src(*node);
        let ghost p = xml::node_pos(*node);
        let ghost hi = xml::subtree_end(src, p);
        let subs = xml::node_descendants(node);
        let day_type: u64 = match find_tag(&subs, "DayTypeRef") {
            Some(idx) => {
                proof {
                    assert forall|j: int| p <= j < p + idx implies #[trigger] xml::tag_at(src, j) != "DayTypeRef"@ by {
                        assert(xml::node_src(subs@[j - p]) == src && xml::node_pos(subs@[j - p]) == j);
                    }
                    assert(xml::node_src(subs@[idx as int]) == src && xml::node_pos(subs@[idx as int]) == p + idx);
                    lemma_first_tagged_found(src, p, hi, "DayTypeRef"@, p + idx);
                }
                ids::handle_of(attr_or_empty(&subs[idx], "ref").as_str())
            },
            None => {
                proof {
                    assert forall|j: int| p <= j < hi implies #[trigger] xml::tag_at(src, j) != "DayTypeRef"@ by {
                        assert(xml::node_src(subs@[j - p]) == src && xml::node_pos(subs@[j - p]) == j);
                    }
                    lemma_first_tagged_none(src, p, hi, "DayTypeRef"@);
                }
                return Err(ParseError::MissingField);
            },
        };
        let transport_mode: String = match find_tag(&subs, "TransportMode") {
            Some(idx) => {
                proof {
                    assert forall|j: int| p <= j < p + idx implies #[trigger] xml::tag_at(src, j) != "TransportMode"@ by {
                        assert(xml::node_src(subs@[j - p]) == src && xml::node_pos(subs@[j - p]) == j);
                    }
                    assert(xml::node_src(subs@[idx as int]) == src && xml::node_pos(subs@[idx as int]) == p + idx);
                    lemma_first_tagged_found(src, p, hi, "TransportMode"@, p + idx);
                }
                text_or_empty(&subs[idx])
            },
            None => {
                proof {
                    assert forall|j: int| p <= j < hi implies #[trigger] xml::tag_at(src, j) != "TransportMode"@ by {
                        assert(xml::node_src(subs@[j - p]) == src && xml::node_pos(subs@[j - p]) == j);
                    }
                    lemma_first_tagged_none(src, p, hi, "TransportMode"@);
                }
                return Err(ParseError::MissingField);
            },
        };
        let pattern_ref: u64 = match find_tag(&subs, "ServiceJourneyPatternRef") {
            Some(idx) => {
                proof {
                    assert forall|j: int| p <= j < p + idx implies #[trigger] xml::tag_at(src, j) != "ServiceJourneyPatternRef"@ by {
                        assert(xml::node_src(subs@[j - p]) == src && xml::node_pos(subs@[j - p]) == j);
                    }
                    assert(xml::node_src(subs@[idx as int]) == src && xml::node_pos(subs@[idx as int]) == p + idx);
                    lemma_first_tagged_found(src, p, hi, "ServiceJourneyPatternRef"@, p + idx);
                }
                ids::handle_of(attr_or_empty(&subs[idx], "ref").as_str())
            },
            None => {
                proof {
                    assert forall|j: int| p <= j < hi implies #[trigger] xml::tag_at(src, j) != "ServiceJourneyPatternRef"@ by {
                        assert(xml::node_src(subs@[j - p]) == src && xml::node_pos(subs@[j - p]) == j);
                    }
                    lemma_first_tagged_none(src, p, hi, "ServiceJourneyPatternRef"@);
                }
                return Err(ParseError::MissingField);
            },
        };
        let ghost mut pt = 0int;
        let times_list = match find_tag(&subs, "passingTimes") {
            Some(idx) => {
                proof {
                    assert forall|j: int| p <= j < p + idx implies #[trigger] xml::tag_at(src, j) != "passingTimes"@ by {
                        assert(xml::node_src(subs@[j - p]) == src && xml::node_pos(subs@[j - p]) == j);
                    }
                    assert(xml::node_src(subs@[idx as int]) == src && xml::node_pos(subs@[idx as int]) == p + idx);
                    lemma_first_tagged_found(src, p, hi, "passingTimes"@, p + idx);
                    pt = p + idx;
                }
                xml::node_descendants(&subs[idx])
            },
            None => {
                proof {
                    assert forall|j: int| p <= j < hi implies #[trigger] xml::tag_at(src, j) != "passingTimes"@ by {
                        assert(xml::node_src(subs@[j - p]) == src && xml::node_pos(subs@[j - p]) == j);
                    }
                    lemma_first_tagged_none(src, p, hi, "passingTimes"@);
                }
                return Err(ParseError::MissingField);
            },
        };
        let ghost pthi = xml::subtree_end(src, pt);
        let mut passing_times: Vec<TimetabledPassingTime> = Vec::new();
        let mut k: usize = 0;
        while k < times_list.len()
            invariant
                0 <= k <= times_list@.len(),
                src == xml::node_src(*node),
                p == xml::node_pos(*node),
                hi == xml::subtree_end(src, p),
                !journey_missing(src, p),
                first_tagged(src, p, hi, "passingTimes"@) == Some(pt),
                pthi == xml::subtree_end(src, pt),
                times_list@.len() == pthi - pt,
                forall|k2: int|
                    0 <= k2 < times_list@.len() ==> xml::node_src(#[trigger] times_list@[k2])
                        == src && xml::node_pos(times_list@[k2]) == pt + k2,
                passing_times@.len() == positions_tagged(
                    src,
                    pt,
                    pt + k,
                    "TimetabledPassingTime"@,
                ).len(),
                forall|m: int|
                    0 <= m < passing_times@.len() ==> entry_fields_ok(
                        src,
                        positions_tagged(src, pt, pt + k, "TimetabledPassingTime"@)[m],
                        #[trigger] passing_times@[m],
                    ),
                forall|m: int|
                    0 <= m < passing_times@.len() ==> entry_times_ok(
                        src,
                        #[trigger] positions_tagged(src, pt, pt + k, "TimetabledPassingTime"@)[m],
                    ),
            decreases times_list@.len() - k,
        {
            let child = &times_list[k];
            let ghost e = pt + k;
            if tag_is(child, "TimetabledPassingTime") {
                let inner = xml::node_descendants(child);
                let ghost ehi = xml::subtree_end(src, e);
                let mut stop_ref: u64 = 0;
                let mut arrival: u16 = 0;
                let mut departure: u16 = 0;
                let mut m: usize = 0;
                while m < inner.len()
                    invariant
                        0 <= m <= inner@.len(),
                        src == xml::node_src(*node),
                        p == xml::node_pos(*node),
                        hi == xml::subtree_end(src, p),
                        !journey_missing(src, p),
                        first_tagged(src, p, hi, "passingTimes"@) == Some(pt),
                        pthi == xml::subtree_end(src, pt),
                        pt <= e < pthi,
                        xml::tag_at(src, e) == "TimetabledPassingTime"@,
                        ehi == xml::subtree_end(src, e),
                        inner@.len() == ehi - e,
                        forall|m2: int|
                            0 <= m2 < inner@.len() ==> xml::node_src(#[trigger] inner@[m2]) == src
                                && xml::node_pos(inner@[m2]) == e + m2,
                        stop_ref == (match last_tagged(
                            src,
                            e,
                            e + m,
                            "StopPointInJourneyPatternRef"@,
                        ) {
                            Some(q) => hash_of(attr_model(src, q, "ref"@)),
                            None => 0u64,
                        }),
                        arrival == (match last_tagged(src, e, e + m, "ArrivalTime"@) {
                            Some(q) => codec::minutes_value(text_bytes(src, q)),
                            None => 0int,
                        }),
                        departure == (match last_tagged(src, e, e + m, "DepartureTime"@) {
                            Some(q) => codec::minutes_value(text_bytes(src, q)),
                            None => 0int,
                        }),
                        forall|q: int|
                            e <= q < e + m && ((#[trigger] xml::tag_at(src, q)) == "ArrivalTime"@
                                || xml::tag_at(src, q) == "DepartureTime"@)
                                ==> codec::time_digits_ok(text_bytes(src, q)),
                    decreases inner@.len() - m,
                {
                    let sub = &inner[m];
                    let ghost q = e + m;
                    proof {
                        lemma_entry_tags_distinct();
                    }
                    if tag_is(sub, "StopPointInJourneyPatternRef") {
                        stop_ref = ids::handle_of(attr_or_empty(sub, "ref").as_str());
                    } else if tag_is(sub, "ArrivalTime") {
                        let t = text_or_empty(sub);
                        let tb: &[u8] = t.as_str().as_bytes();
                        proof {
                            assert(tb@ == text_bytes(src, q));
                        }
                        if !codec::check_time_digits(tb) {
                            proof {
                                assert(!entry_times_ok(src, e));
                                lemma_bad_entry_breaks_times(src, p, pt, e);
                            }
                            return Err(ParseError::Time);
                        }
                        arrival = codec::parse_minutes(tb);
                    } else if tag_is(sub, "DepartureTime") {
                        let t = text_or_empty(sub);
                        let tb: &[u8] = t.as_str().as_bytes();
                        proof {
                            assert(tb@ == text_bytes(src, q));
                        }
                        if !codec::check_time_digits(tb) {
                            proof {
                                assert(!entry_times_ok(src, e));
                                lemma_bad_entry_breaks_times(src, p, pt, e);
                            }
                            return Err(ParseError::Time);
                        }
                        departure = codec::parse_minutes(tb);
                    }
                    proof {
                        reveal_strlit("StopPointInJourneyPatternRef");
                        reveal_strlit("ArrivalTime");
                        reveal_strlit("DepartureTime");
                        assert(last_tagged(src, e, q + 1, "StopPointInJourneyPatternRef"@) == (
                        if xml::tag_at(src, q) == "StopPointInJourneyPatternRef"@ {
                            Some(q)
                        } else {
                            last_tagged(src, e, q, "StopPointInJourneyPatternRef"@)
                        }));
                        assert(last_tagged(src, e, q + 1, "ArrivalTime"@) == (if xml::tag_at(
                            src,
                            q,
                        ) == "ArrivalTime"@ {
                            Some(q)
                        } else {
                            last_tagged(src, e, q, "ArrivalTime"@)
                        }));
                        assert(last_tagged(src, e, q + 1, "DepartureTime"@) == (if xml::tag_at(
                            src,
                            q,
                        ) == "DepartureTime"@ {
                            Some(q)
                        } else {
                            last_tagged(src, e, q, "DepartureTime"@)
                        }));
                        assert(stop_ref == (match last_tagged(
                            src,
                            e,
                            q + 1,
                            "StopPointInJourneyPatternRef"@,
                        ) {
                            Some(q2) => hash_of(attr_model(src, q2, "ref"@)),
                            None => 0u64,
                        }));
                        assert(arrival == (match last_tagged(src, e, q + 1, "ArrivalTime"@) {
                            Some(q2) => codec::minutes_value(text_bytes(src, q2)),
                            None => 0int,
                        }));
                        assert(departure == (match last_tagged(src, e, q + 1, "DepartureTime"@) {
                            Some(q2) => codec::minutes_value(text_bytes(src, q2)),
                            None => 0int,
                        }));
                        assert forall|q2: int|
                            e <= q2 < q + 1 && ((#[trigger] xml::tag_at(src, q2))
                                == "ArrivalTime"@ || xml::tag_at(src, q2) == "DepartureTime"@)
                            implies codec::time_digits_ok(text_bytes(src, q2)) by {}
                    }
                    m += 1;
                }
                proof {
                    assert(e + inner@.len() == ehi);
                }
                passing_times.push(
                    TimetabledPassingTime {
                        stop_point_in_journey_pattern: stop_ref,
                        arrival,
                        departure,
                    },
                );
            }
            k += 1;
        }
        proof {
            assert(pt + times_list@.len() == pthi);
        }
        Ok(ServiceJourney { passing_times, day_type, transport_mode, pattern_ref })
    }

    /// Extracts one operating period from the model of its subtree; fails
    /// exactly when a date or day-bits text is malformed.
    fn parse_operating_period(node: &roxmltree::Node<'_, '_>) -> (r: Result<
        UicOperatingPeriod,
        ParseError,
    >)
        ensures
            r is Ok <==> period_parse_ok(xml::node_src(*node), xml::node_pos(*node)),
            r is Ok ==> period_fields_ok(xml::node_src(*node), xml::node_pos(*node), r->Ok_0),
            r is Err ==> (r == Err::<UicOperatingPeriod, ParseError>(ParseError::Date) || r
                == Err::<UicOperatingPeriod, ParseError>(ParseError::DayBits)),
    {
        let ghost src = xml::node_src(*node);
        let ghost p = xml::node_pos(*node);
        let ghost hi = xml::subtree_end(src, p);
        let id: u64 = ids::handle_of(attr_or_empty(node, "id").as_str());
        let mut from: u32 = 0;
        let mut to: u32 = 0;
        let mut valid_day_bits: Vec<u8> = Vec::new();
        let subs = xml::node_descendants(node);
        let mut k: usize = 0;
        while k < subs.len()
            invariant
                0 <= k <= subs@.len(),
                src == xml::node_src(*node),
                p == xml::node_pos(*node),
                hi == xml::subtree_end(src, p),
                subs@.len() == hi - p,
                forall|k2: int|
                    0 <= k2 < subs@.len() ==> xml::node_src(#[trigger] subs@[k2]) == src
                        && xml::node_pos(subs@[k2]) == p + k2,
                from == (match last_tagged(src, p, p + k, "FromDate"@) {
                    Some(q) => codec::date_value(text_bytes(src, q)),
                    None => 0int,
                }),
                to == (match last_tagged(src, p, p + k, "ToDate"@) {
                    Some(q) => codec::date_value(text_bytes(src, q)),
                    None => 0int,
                }),
                valid_day_bits@ == (match last_tagged(src, p, p + k, "ValidDayBits"@) {
                    Some(q) => codec::day_bits_value(text_bytes(src, q)),
                    None => Seq::<u8>::empty(),
                }),
                forall|q: int|
                    p <= q < p + k && ((#[trigger] xml::tag_at(src, q)) == "FromDate"@
                        || xml::tag_at(src, q) == "ToDate"@) ==> codec::date_digits_ok(
                        text_bytes(src, q),
                    ),
                forall|q: int|
                    p <= q < p + k && (#[trigger] xml::tag_at(src, q)) == "ValidDayBits"@ ==> (
                    codec::all_ascii_bits(text_bytes(src, q)) && text_bytes(src, q).len() + 8
                        <= usize::MAX),
            decreases subs@.len() - k,
        {
            let child = &subs[k];
            let ghost q = p + k;
            proof {
                lemma_period_tags_distinct();
            }
            if tag_is(child, "FromDate") {
                let t = text_or_empty(child);
                let tb: &[u8] = t.as_str().as_bytes();
                proof {
                    assert(tb@ == text_bytes(src, q));
                }
                if !codec::check_date_digits(tb) {
                    proof {
                        assert(!period_parse_ok(src, p));
                    }
                    return Err(ParseError::Date);
                }
                from = codec::parse_date(tb);
            } else if tag_is(child, "ToDate") {
                let t = text_or_empty(child);
                let tb: &[u8] = t.as_str().as_bytes();
                proof {
                    assert(tb@ == text_bytes(src, q));
                }
                if !codec::check_date_digits(tb) {
                    proof {
                        assert(!period_parse_ok(src, p));
                    }
                    return Err(ParseError::Date);
                }
                to = codec::parse_date(tb);
            } else if tag_is(child, "ValidDayBits") {
                let t = text_or_empty(child);
                let bytes = t.as_str().as_bytes();
                proof {
                    assert(bytes@ == text_bytes(src, q));
                }
                if !codec::check_all_bits(bytes) {
                    proof {
                        assert(!period_parse_ok(src, p));
                    }
                    return Err(ParseError::DayBits);
                }
                if bytes.len() > usize::MAX - 8 {
                    proof {
                        assert(!period_parse_ok(src, p));
                    }
                    return Err(ParseError::DayBits);
                }
                valid_day_bits = codec::parse_day_bits(bytes);
            }
            proof {
                reveal_strlit("FromDate");
                reveal_strlit("ToDate");
                reveal_strlit("ValidDayBits");
                assert(last_tagged(src, p, q + 1, "FromDate"@) == (if xml::tag_at(src, q)
                    == "FromDate"@ {
                    Some(q)
                } else {
                    last_tagged(src, p, q, "FromDate"@)
                }));
                assert(last_tagged(src, p, q + 1, "ToDate"@) == (if xml::tag_at(src, q)
                    == "ToDate"@ {
                    Some(q)
                } else {
                    last_tagged(src, p, q, "ToDate"@)
                }));
                assert(last_tagged(src, p, q + 1, "ValidDayBits"@) == (if xml::tag_at(src, q)
                    == "ValidDayBits"@ {
                    Some(q)
                } else {
                    last_tagged(src, p, q, "ValidDayBits"@)
                }));
                assert(from == (match last_tagged(src, p, q + 1, "FromDate"@) {
                    Some(q2) => codec::date_value(text_bytes(src, q2)),
                    None => 0int,
                }));
                assert(to == (match last_tagged(src, p, q + 1, "ToDate"@) {
                    Some(q2) => codec::date_value(text_bytes(src, q2)),
                    None => 0int,
                }));
                assert(valid_day_bits@ == (match last_tagged(src, p, q + 1, "ValidDayBits"@) {
                    Some(q2) => codec::day_bits_value(text_bytes(src, q2)),
                    None => Seq::<u8>::empty(),
                }));
                assert forall|q2: int|
                    p <= q2 < q + 1 && ((#[trigger] xml::tag_at(src, q2)) == "FromDate"@
                        || xml::tag_at(src, q2) == "ToDate"@) implies codec::date_digits_ok(
                    text_bytes(src, q2),
                ) by {}
                assert forall|q2: int|
                    p <= q2 < q + 1 && (#[trigger] xml::tag_at(src, q2)) == "ValidDayBits"@
                    implies (codec::all_ascii_bits(text_bytes(src, q2)) && text_bytes(
                    src,
                    q2,
                ).len() + 8 <= usize::MAX) by {}
            }
            k += 1;
        }
        Ok(UicOperatingPeriod { id, from, to, valid_day_bits })
    }

    /// Extracts one day-type assignment from the model of its subtree;
    /// fails exactly when an availability text is neither `true` nor
    /// `false`.
    fn parse_day_type_assignment(node: &roxmltree::Node<'_, '_>) -> (r: Result<
        DayTypeAssignment,
        ParseError,
    >)
        ensures
            r is Ok <==> dta_parse_ok(xml::node_src(*node), xml::node_pos(*node)),
            r is Ok ==> dta_fields_ok(xml::node_src(*node), xml::node_pos(*node), r->Ok_0),
            r is Err ==> r == Err::<DayTypeAssignment, ParseError>(ParseError::Boolean),
    {
        let ghost src = xml::node_src(*node);
        let ghost p = xml::node_pos(*node);
        let ghost hi = xml::subtree_end(src, p);
        let mut operating_period: u64 = 0;
        let mut day_type: u64 = 0;
        let mut is_available: bool = false;
        let subs = xml::node_descendants(node);
        let mut k: usize = 0;
        while k < subs.len()
            invariant
                0 <= k <= subs@.len(),
                src == xml::node_src(*node),
                p == xml::node_pos(*node),
                hi == xml::subtree_end(src, p),
                subs@.len() == hi - p,
                forall|k2: int|
                    0 <= k2 < subs@.len() ==> xml::node_src(#[trigger] subs@[k2]) == src
                        && xml::node_pos(subs@[k2]) == p + k2,
                operating_period == (match last_tagged(src, p, p + k, "OperatingPeriodRef"@) {
                    Some(q) => hash_of(attr_model(src, q, "ref"@)),
                    None => 0u64,
                }),
                day_type == (match last_tagged(src, p, p + k, "DayTypeRef"@) {
                    Some(q) => hash_of(attr_model(src, q, "ref"@)),
                    None => 0u64,
                }),
                is_available == (match last_tagged(src, p, p + k, "isAvailable"@) {
                    Some(q) => text_model(src, q) == "true"@,
                    None => false,
                }),
                forall|q: int|
                    p <= q < p + k && (#[trigger] xml::tag_at(src, q)) == "isAvailable"@ ==> (
                    text_model(src, q) == "true"@ || text_model(src, q) == "false"@),
            decreases subs@.len() - k,
        {
            let child = &subs[k];
            let ghost q = p + k;
            proof {
                lemma_dta_tags_distinct();
            }
            if tag_is(child, "OperatingPeriodRef") {
                operating_period = ids::handle_of(attr_or_empty(child, "ref").as_str());
            } else if tag_is(child, "DayTypeRef") {
                day_type = ids::handle_of(attr_or_empty(child, "ref").as_str());
            } else if tag_is(child, "isAvailable") {
                let t = text_or_empty(child);
                if strutil::str_eq(t.as_str(), "true") {
                    is_available = true;
                } else if strutil::str_eq(t.as_str(), "false") {
                    is_available = false;
                } else {
                    proof {
                        assert(!dta_parse_ok(src, p));
                    }
                    return Err(ParseError::Boolean);
                }
            }
            proof {
                reveal_strlit("OperatingPeriodRef");
                reveal_strlit("DayTypeRef");
                reveal_strlit("isAvailable");
                assert(last_tagged(src, p, q + 1, "OperatingPeriodRef"@) == (if xml::tag_at(
                    src,
                    q,
                ) == "OperatingPeriodRef"@ {
                    Some(q)
                } else {
                    last_tagged(src, p, q, "OperatingPeriodRef"@)
                }));
                assert(last_tagged(src, p, q + 1, "DayTypeRef"@) == (if xml::tag_at(src, q)
                    == "DayTypeRef"@ {
                    Some(q)
                } else {
                    last_tagged(src, p, q, "DayTypeRef"@)
                }));
                assert(last_tagged(src, p, q + 1, "isAvailable"@) == (if xml::tag_at(src, q)
                    == "isAvailable"@ {
                    Some(q)
                } else {
                    last_tagged(src, p, q, "isAvailable"@)
                }));
                assert(operating_period == (match last_tagged(src, p, q + 1, "OperatingPeriodRef"@) {
                    Some(q2) => hash_of(attr_model(src, q2, "ref"@)),
                    None => 0u64,
                }));
                assert(day_type == (match last_tagged(src, p, q + 1, "DayTypeRef"@) {
                    Some(q2) => hash_of(attr_model(src, q2, "ref"@)),
                    None => 0u64,
                }));
                assert(is_available == (match last_tagged(src, p, q + 1, "isAvailable"@) {
                    Some(q2) => text_model(src, q2) == "true"@,
                    None => false,
                }));
                assert forall|q2: int|
                    p <= q2 < q + 1 && (#[trigger] xml::tag_at(src, q2)) == "isAvailable"@
                    implies (text_model(src, q2) == "true"@ || text_model(src, q2) == "false"@)
                    by {}
            }
            k += 1;
        }
        Ok(DayTypeAssignment { operating_period, day_type, is_available })
    }

    /// Extracts one line from the model of its subtree.
    fn parse_line(node: &roxmltree::Node<'_, '_>) -> (r: Line)
        ensures
            line_fields_ok(xml::node_src(*node), xml::node_pos(*node), r),
    {
        let ghost src = xml::node_src(*node);
        let ghost p = xml::node_pos(*node);
        let ghost hi = xml::subtree_end(src, p);
        let id: u64 = ids::handle_of(attr_or_empty(node, "id").as_str());
        let mut short_name: String = String::new();
        let mut authority: u64 = 0;
        let subs = xml::node_descendants(node);
        let mut k: usize = 0;
        while k < subs.len()
            invariant
                0 <= k <= subs@.len(),
                src == xml::node_src(*node),
                p == xml::node_pos(*node),
                hi == xml::subtree_end(src, p),
                subs@.len() == hi - p,
                forall|k2: int|
                    0 <= k2 < subs@.len() ==> xml::node_src(#[trigger] subs@[k2]) == src
                        && xml::node_pos(subs@[k2]) == p + k2,
                short_name@ == (match last_tagged(src, p, p + k, "ShortName"@) {
                    Some(q) => text_model(src, q),
                    None => Seq::<char>::empty(),
                }),
                authority == (match last_tagged(src, p, p + k, "AuthorityRef"@) {
                    Some(q) => hash_of(attr_model(src, q, "ref"@)),
                    None => 0u64,
                }),
            decreases subs@.len() - k,
        {
            let child = &subs[k];
            let ghost q = p + k;
            proof {
                lemma_line_tags_distinct();
            }
            if tag_is(child, "ShortName") {
                short_name = text_or_empty(child);
            } else if tag_is(child, "AuthorityRef") {
                authority = ids::handle_of(attr_or_empty(child, "ref").as_str());
            }
            proof {
                reveal_strlit("ShortName");
                reveal_strlit("AuthorityRef");
                assert(last_tagged(src, p, q + 1, "ShortName"@) == (if xml::tag_at(src, q)
                    == "ShortName"@ {
                    Some(q)
                } else {
                    last_tagged(src, p, q, "ShortName"@)
                }));
                assert(last_tagged(src, p, q + 1, "AuthorityRef"@) == (if xml::tag_at(src, q)
                    == "AuthorityRef"@ {
                    Some(q)
                } else {
                    last_tagged(src, p, q, "AuthorityRef"@)
                }));
                assert(short_name@ == (match last_tagged(src, p, q + 1, "ShortName"@) {
                    Some(q2) => text_model(src, q2),
                    None => Seq::<char>::empty(),
                }));
                assert(authority == (match last_tagged(src, p, q + 1, "AuthorityRef"@) {
                    Some(q2) => hash_of(attr_model(src, q2, "ref"@)),
                    None => 0u64,
                }));
            }
            k += 1;
        }
        Line { id, short_name, authority }
    }

    /// Extracts one authority from the model of its subtree.
    fn parse_authority(node: &roxmltree::Node<'_, '_>) -> (r: Authority)
        ensures
            authority_fields_ok(xml::node_src(*node), xml::node_pos(*node), r),
    {
        let ghost src = xml::node_src(*node);
        let ghost p = xml::node_pos(*node);
        let ghost hi = xml::subtree_end(src, p);
        let id: u64 = ids::handle_of(attr_or_empty(node, "id").as_str());
        let mut short_name: String = String::new();
        let subs = xml::node_descendants(node);
        let mut k: usize = 0;
        while k < subs.len()
            invariant
                0 <= k <= subs@.len(),
                src == xml::node_src(*node),
                p == xml::node_pos(*node),
                hi == xml::subtree_end(src, p),
                subs@.len() == hi - p,
                forall|k2: int|
                    0 <= k2 < subs@.len() ==> xml::node_src(#[trigger] subs@[k2]) == src
                        && xml::node_pos(subs@[k2]) == p + k2,
                short_name@ == (match last_tagged(src, p, p + k, "ShortName"@) {
                    Some(q) => text_model(src, q),
                    None => Seq::<char>::empty(),
                }),
            decreases subs@.len() - k,
        {
            let child = &subs[k];
            let ghost q = p + k;
            if tag_is(child, "ShortName") {
                short_name = text_or_empty(child);
            }
            proof {
                assert(last_tagged(src, p, q + 1, "ShortName"@) == (if xml::tag_at(src, q)
                    == "ShortName"@ {
                    Some(q)
                } else {
                    last_tagged(src, p, q, "ShortName"@)
                }));
                assert(short_name@ == (match last_tagged(src, p, q + 1, "ShortName"@) {
                    Some(q2) => text_model(src, q2),
                    None => Seq::<char>::empty(),
                }));
            }
            k += 1;
        }
        Authority { id, short_name }
    }
}

// ---- the whole document ----

/// Every record kind of the document parses: the stops' coordinates, the
/// journeys' required references and times, the assignments' flags and the
/// periods' dates and day bits.
pub open spec fn from_xml_ok(text: Seq<char>) -> bool {
    let n = xml::doc_len(text);
    &&& xml::doc_ok(text)
    &&& forall|m: int|
        0 <= m < positions_tagged(text, 0, n, "ScheduledStopPoint"@).len() ==> stop_parse_ok(
            text,
            #[trigger] positions_tagged(text, 0, n, "ScheduledStopPoint"@)[m],
        )
    &&& forall|m: int|
        0 <= m < positions_tagged(text, 0, n, "ServiceJourney"@).len() ==> {
            let p = #[trigger] positions_tagged(text, 0, n, "ServiceJourney"@)[m];
            !journey_missing(text, p) && journey_times_ok(text, p)
        }
    &&& forall|m: int|
        0 <= m < positions_tagged(text, 0, n, "DayTypeAssignment"@).len() ==> dta_parse_ok(
            text,
            #[trigger] positions_tagged(text, 0, n, "DayTypeAssignment"@)[m],
        )
    &&& forall|m: int|
        0 <= m < positions_tagged(text, 0, n, "UicOperatingPeriod"@).len() ==> period_parse_ok(
            text,
            #[trigger] positions_tagged(text, 0, n, "UicOperatingPeriod"@)[m],
        )
}

/// The record holds one entry per document node of the matching tag, in
/// document order, each with the fields its kind's model prescribes.
pub open spec fn from_xml_fields_ok(text: Seq<char>, d: NetexData) -> bool {
    let n = xml::doc_len(text);
    &&& d.scheduled_stop_points@.len() == positions_tagged(text, 0, n, "ScheduledStopPoint"@).len()
    &&& forall|m: int|
        0 <= m < d.scheduled_stop_points@.len() ==> stop_fields_ok(
            text,
            positions_tagged(text, 0, n, "ScheduledStopPoint"@)[m],
            #[trigger] d.scheduled_stop_points@[m],
        )
    &&& d.service_journey_patterns@.len() == positions_tagged(
        text,
        0,
        n,
        "ServiceJourneyPattern"@,
    ).len()
    &&& forall|m: int|
        0 <= m < d.service_journey_patterns@.len() ==> pattern_fields_ok(
            text,
            positions_tagged(text, 0, n, "ServiceJourneyPattern"@)[m],
            #[trigger] d.service_journey_patterns@[m],
        )
    &&& d.service_journeys@.len() == positions_tagged(text, 0, n, "ServiceJourney"@).len()
    &&& forall|m: int|
        0 <= m < d.service_journeys@.len() ==> journey_fields_ok(
            text,
            positions_tagged(text, 0, n, "ServiceJourney"@)[m],
            #[trigger] d.service_journeys@[m],
        )
    &&& d.operating_periods@.len() == positions_tagged(text, 0, n, "UicOperatingPeriod"@).len()
    &&& forall|m: int|
        0 <= m < d.operating_periods@.len() ==> period_fields_ok(
            text,
            positions_tagged(text, 0, n, "UicOperatingPeriod"@)[m],
            #[trigger] d.operating_periods@[m],
        )
    &&& d.day_type_assignments@.len() == positions_tagged(text, 0, n, "DayTypeAssignment"@).len()
    &&& forall|m: int|
        0 <= m < d.day_type_assignments@.len() ==> dta_fields_ok(
            text,
            positions_tagged(text, 0, n, "DayTypeAssignment"@)[m],
            #[trigger] d.day_type_assignments@[m],
        )
    &&& d.lines@.len() == positions_tagged(text, 0, n, "Line"@).len()
    &&& forall|m: int|
        0 <= m < d.lines@.len() ==> line_fields_ok(
            text,
            positions_tagged(text, 0, n, "Line"@)[m],
            #[trigger] d.lines@[m],
        )
    &&& d.authorities@.len() == positions_tagged(text, 0, n, "Authority"@).len()
    &&& forall|m: int|
        0 <= m < d.authorities@.len() ==> authority_fields_ok(
            text,
            positions_tagged(text, 0, n, "Authority"@)[m],
            #[trigger] d.authorities@[m],
        )
}

/// The seven kind tags are pairwise distinct.
proof fn lemma_kind_tags_distinct()
    ensures
        "ScheduledStopPoint"@ != "ServiceJourneyPattern"@,
        "ScheduledStopPoint"@ != "ServiceJourney"@,
        "ScheduledStopPoint"@ != "UicOperatingPeriod"@,
        "ScheduledStopPoint"@ != "DayTypeAssignment"@,
        "ScheduledStopPoint"@ != "Line"@,
        "ScheduledStopPoint"@ != "Authority"@,
        "ServiceJourneyPattern"@ != "ServiceJourney"@,
        "ServiceJourneyPattern"@ != "UicOperatingPeriod"@,
        "ServiceJourneyPattern"@ != "DayTypeAssignment"@,
        "ServiceJourneyPattern"@ != "Line"@,
        "ServiceJourneyPattern"@ != "Authority"@,
        "ServiceJourney"@ != "UicOperatingPeriod"@,
        "ServiceJourney"@ != "DayTypeAssignment"@,
        "ServiceJourney"@ != "Line"@,
        "ServiceJourney"@ != "Authority"@,
        "UicOperatingPeriod"@ != "DayTypeAssignment"@,
        "UicOperatingPeriod"@ != "Line"@,
        "UicOperatingPeriod"@ != "Authority"@,
        "DayTypeAssignment"@ != "Line"@,
        "DayTypeAssignment"@ != "Authority"@,
        "Line"@ != "Authority"@,
{
    reveal_strlit("ScheduledStopPoint");
    reveal_strlit("ServiceJourneyPattern");
    reveal_strlit("ServiceJourney");
    reveal_strlit("UicOperatingPeriod");
    reveal_strlit("DayTypeAssignment");
    reveal_strlit("Line");
    reveal_strlit("Authority");
    assert("ScheduledStopPoint"@.len() == 18);
    assert("ServiceJourneyPattern"@.len() == 21);
    assert("ServiceJourney"@.len() == 14);
    assert("UicOperatingPeriod"@.len() == 18);
    assert("DayTypeAssignment"@.len() == 17);
    assert("Line"@.len() == 4);
    assert("Authority"@.len() == 9);
    assert("ScheduledStopPoint"@[0] == 'S');
    assert("UicOperatingPeriod"@[0] == 'U');
}

impl NetexData {
    /// Extracts everything a document contributes to the graph: one record
    /// per node of each of the seven kind tags, in document order, with the
    /// fields the model prescribes. Succeeds exactly when the text is
    /// well-formed XML and every record of every kind parses; fails with
    /// the XML error exactly when the text is not well-formed.
    pub fn from_xml(text: &str) -> (r: Result<NetexData, ParseError>)
        ensures
            r is Ok <==> from_xml_ok(text@),
            r is Ok ==> from_xml_fields_ok(text@, r->Ok_0) && data_wf(r->Ok_0),
            r == Err::<NetexData, ParseError>(ParseError::Xml) <==> !xml::doc_ok(text@),
    {
        let ghost src = text@;
        let doc = match xml::parse_document(text) {
            Ok(d) => d,
            Err(_) => {
                return Err(ParseError::Xml);
            },
        };
        let nodes = xml::document_nodes(&doc);
        let ghost n = xml::doc_len(src);
        let mut data = NetexData::default();
        let mut k: usize = 0;
        while k < nodes.len()
            invariant
                0 <= k <= nodes@.len(),
                src == text@,
                xml::doc_ok(src),
                n == xml::doc_len(src),
                nodes@.len() == n,
                forall|k2: int|
                    0 <= k2 < nodes@.len() ==> xml::node_src(#[trigger] nodes@[k2]) == src
                        && xml::node_pos(nodes@[k2]) == k2,
                data_wf(data),
                data.scheduled_stop_points@.len() == positions_tagged(
                    src,
                    0,
                    k as int,
                    "ScheduledStopPoint"@,
                ).len(),
                forall|m: int|
                    0 <= m < data.scheduled_stop_points@.len() ==> stop_fields_ok(
                        src,
                        positions_tagged(src, 0, k as int, "ScheduledStopPoint"@)[m],
                        #[trigger] data.scheduled_stop_points@[m],
                    ),
                forall|m: int|
                    0 <= m < data.scheduled_stop_points@.len() ==> stop_parse_ok(
                        src,
                        #[trigger] positions_tagged(src, 0, k as int, "ScheduledStopPoint"@)[m],
                    ),
                data.service_journey_patterns@.len() == positions_tagged(
                    src,
                    0,
                    k as int,
                    "ServiceJourneyPattern"@,
                ).len(),
                forall|m: int|
                    0 <= m < data.service_journey_patterns@.len() ==> pattern_fields_ok(
                        src,
                        positions_tagged(src, 0, k as int, "ServiceJourneyPattern"@)[m],
                        #[trigger] data.service_journey_patterns@[m],
                    ),
                data.service_journeys@.len() == positions_tagged(
                    src,
                    0,
                    k as int,
                    "ServiceJourney"@,
                ).len(),
                forall|m: int|
                    0 <= m < data.service_journeys@.len() ==> journey_fields_ok(
                        src,
                        positions_tagged(src, 0, k as int, "ServiceJourney"@)[m],
                        #[trigger] data.service_journeys@[m],
                    ),
                forall|m: int|
                    0 <= m < data.service_journeys@.len() ==> {
                        let p = #[trigger] positions_tagged(src, 0, k as int, "ServiceJourney"@)[m];
                        !journey_missing(src, p) && journey_times_ok(src, p)
                    },
                data.operating_periods@.len() == positions_tagged(
                    src,
                    0,
                    k as int,
                    "UicOperatingPeriod"@,
                ).len(),
                forall|m: int|
                    0 <= m < data.operating_periods@.len() ==> period_fields_ok(
                        src,
                        positions_tagged(src, 0, k as int, "UicOperatingPeriod"@)[m],
                        #[trigger] data.operating_periods@[m],
                    ),
                forall|m: int|
                    0 <= m < data.operating_periods@.len() ==> period_parse_ok(
                        src,
                        #[trigger] positions_tagged(src, 0, k as int, "UicOperatingPeriod"@)[m],
                    ),
                data.day_type_assignments@.len() == positions_tagged(
                    src,
                    0,
                    k as int,
                    "DayTypeAssignment"@,
                ).len(),
                forall|m: int|
                    0 <= m < data.day_type_assignments@.len() ==> dta_fields_ok(
                        src,
                        positions_tagged(src, 0, k as int, "DayTypeAssignment"@)[m],
                        #[trigger] data.day_type_assignments@[m],
                    ),
                forall|m: int|
                    0 <= m < data.day_type_assignments@.len() ==> dta_parse_ok(
                        src,
                        #[trigger] positions_tagged(src, 0, k as int, "DayTypeAssignment"@)[m],
                    ),
                data.lines@.len() == positions_tagged(src, 0, k as int, "Line"@).len(),
                forall|m: int|
                    0 <= m < data.lines@.len() ==> line_fields_ok(
                        src,
                        positions_tagged(src, 0, k as int, "Line"@)[m],
                        #[trigger] data.lines@[m],
                    ),
                data.authorities@.len() == positions_tagged(src, 0, k as int, "Authority"@).len(),
                forall|m: int|
                    0 <= m < data.authorities@.len() ==> authority_fields_ok(
                        src,
                        positions_tagged(src, 0, k as int, "Authority"@)[m],
                        #[trigger] data.authorities@[m],
                    ),
            decreases nodes@.len() - k,
        {
            let node = &nodes[k];
            proof {
                lemma_kind_tags_distinct();
            }
            if tag_is(node, "ScheduledStopPoint") {
                match Self::parse_scheduled_stop_point(node) {
                    Ok(stop) => {
                        data.scheduled_stop_points.push(stop);
                    },
                    Err(e) => {
                        proof {
                            lemma_positions_tagged_complete(
                                src,
                                0,
                                n,
                                "ScheduledStopPoint"@,
                                k as int,
                            );
                        }
                        return Err(e);
                    },
                }
            } else if tag_is(node, "ServiceJourneyPattern") {
                let pattern = Self::parse_service_journey_pattern(node);
                data.service_journey_patterns.push(pattern);
            } else if tag_is(node, "ServiceJourney") {
                match Self::parse_service_journey(node) {
                    Ok(journey) => {
                        data.service_journeys.push(journey);
                    },
                    Err(e) => {
                        proof {
                            lemma_positions_tagged_complete(src, 0, n, "ServiceJourney"@, k as int);
                        }
                        return Err(e);
                    },
                }
            } else if tag_is(node, "UicOperatingPeriod") {
                match Self::parse_operating_period(node) {
                    Ok(period) => {
                        data.operating_periods.push(period);
                    },
                    Err(e) => {
                        proof {
                            lemma_positions_tagged_complete(
                                src,
                                0,
                                n,
                                "UicOperatingPeriod"@,
                                k as int,
                            );
                        }
                        return Err(e);
                    },
                }
            } else if tag_is(node, "DayTypeAssignment") {
                match Self::parse_day_type_assignment(node) {
                    Ok(dta) => {
                        data.day_type_assignments.push(dta);
                    },
                    Err(e) => {
                        proof {
                            lemma_positions_tagged_complete(
                                src,
                                0,
                                n,
                                "DayTypeAssignment"@,
                                k as int,
                            );
                        }
                        return Err(e);
                    },
                }
            } else if tag_is(node, "Line") {
                let line = Self::parse_line(node);
                data.lines.push(line);
            } else if tag_is(node, "Authority") {
                let authority = Self::parse_authority(node);
                data.authorities.push(authority);
            }
            k += 1;
        }
        Ok(data)
    }
}

/// The stop lies strictly inside the coordinate box (micro-degrees).
pub open spec fn stop_in_box(
    s: ScheduledStopPoint,
    long_min: i64,
    long_max: i64,
    lat_min: i64,
    lat_max: i64,
) -> bool {
    s.long > long_min && s.long < long_max && s.lat > lat_min && s.lat < lat_max
}

/// Keeps only the stops strictly inside the coordinate box, in every
/// document; everything else in the documents stays as it was. This is the
/// optional regional filter the driver applies before clustering.
pub fn retain_stops_in_box(
    data: &mut Vec<NetexData>,
    long_min: i64,
    long_max: i64,
    lat_min: i64,
    lat_max: i64,
)
    ensures
        final(data)@.len() == old(data)@.len(),
        forall|d: int|
            0 <= d < old(data)@.len() ==> {
                let olddoc = old(data)@[d];
                let newdoc = #[trigger] final(data)@[d];
                &&& newdoc.scheduled_stop_points@ == olddoc.scheduled_stop_points@.filter(
                    (|s: ScheduledStopPoint| stop_in_box(s, long_min, long_max, lat_min, lat_max)),
                )
                &&& newdoc.service_journey_patterns == olddoc.service_journey_patterns
                &&& newdoc.service_journeys == olddoc.service_journeys
                &&& newdoc.operating_periods == olddoc.operating_periods
                &&& newdoc.day_type_assignments == olddoc.day_type_assignments
                &&& newdoc.lines == olddoc.lines
                &&& newdoc.authorities == olddoc.authorities
            },
{
    let ghost pred = (|s: ScheduledStopPoint| stop_in_box(s, long_min, long_max, lat_min, lat_max));
    let n: usize = data.len();
    let mut d: usize = 0;
    while d < n
        invariant
            0 <= d <= n,
            n == old(data)@.len(),
            data@.len() == n,
            pred == (|s: ScheduledStopPoint| stop_in_box(s, long_min, long_max, lat_min, lat_max)),
            forall|k: int| d <= k < n ==> #[trigger] data@[k] == old(data)@[k],
            forall|k: int|
                0 <= k < d ==> {
                    let olddoc = old(data)@[k];
                    let newdoc = #[trigger] data@[k];
                    &&& newdoc.scheduled_stop_points@ == olddoc.scheduled_stop_points@.filter(pred)
                    &&& newdoc.service_journey_patterns == olddoc.service_journey_patterns
                    &&& newdoc.service_journeys == olddoc.service_journeys
                    &&& newdoc.operating_periods == olddoc.operating_periods
                    &&& newdoc.day_type_assignments == olddoc.day_type_assignments
                    &&& newdoc.lines == olddoc.lines
                    &&& newdoc.authorities == olddoc.authorities
                },
        decreases n - d,
    {
        let ghost origdoc = data@[d as int];
        let doc = &mut data[d];
        let ghost orig = doc.scheduled_stop_points@;
        let mut kept: Vec<ScheduledStopPoint> = Vec::new();
        let ghost mut c: int = 0;
        while doc.scheduled_stop_points.len() > 0
            invariant
                0 <= c <= orig.len(),
                pred == (|s: ScheduledStopPoint| stop_in_box(
                    s,
                    long_min,
                    long_max,
                    lat_min,
                    lat_max,
                )),
                doc.scheduled_stop_points@ == orig.skip(c),
                kept@ == orig.take(c).filter(pred),
                doc.service_journey_patterns == origdoc.service_journey_patterns,
                doc.service_journeys == origdoc.service_journeys,
                doc.operating_periods == origdoc.operating_periods,
                doc.day_type_assignments == origdoc.day_type_assignments,
                doc.lines == origdoc.lines,
                doc.authorities == origdoc.authorities,
            decreases orig.len() - c,
        {
            let stop = doc.scheduled_stop_points.remove(0);
            proof {
                assert(orig.skip(c)[0] == orig[c]);
                assert(orig.skip(c).remove(0) =~= orig.skip(c + 1));
            }
            let keep: bool = stop.long > long_min && stop.long < long_max && stop.lat > lat_min
                && stop.lat < lat_max;
            proof {
                assert(keep == pred(orig[c]));
                reveal(Seq::filter);
                assert(orig.take(c + 1).drop_last() =~= orig.take(c));
                assert(orig.take(c + 1).last() == orig[c]);
            }
            if keep {
                kept.push(stop);
            }
            proof {
                c = c + 1;
            }
        }
        proof {
            assert(orig.take(c) =~= orig);
        }
        doc.scheduled_stop_points = kept;
        d += 1;
    }
}

} // verus!
