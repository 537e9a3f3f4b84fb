//! Library that turns a corpus of NeTEx public-transport documents into a
//! deduplicated timetable graph: clustered stop nodes, directed edges keyed by
//! node pairs, per-edge journey timetables and operating periods, and a
//! little-endian binary encoding of the result.

pub mod b64;
pub mod binary;
pub mod cluster;
pub mod codec;
pub mod graph;
pub mod ids;
pub mod parser;
pub mod strutil;
pub mod transform;
pub mod xml;
