//! Verified core of osv2gpx: GPS telemetry extraction from DJI OSV protobuf
//! metadata, MP4 box-table parsing and creation-time rewriting, GPX reading
//! and writing, JPEG APP1 metadata rewriting, and the decisions around them.
pub mod bytes;
pub mod proto;
pub mod gps;
pub mod time;
pub mod text;
pub mod jpeg;
pub mod mp4;
pub mod mp4_rewrite;
pub mod xml;
pub mod gpx;
pub mod paths;
pub mod geotag;
