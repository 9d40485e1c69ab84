//! Reading Kart table datasets: MessagePack decoding of feature blobs,
//! primary-key decoding from feature file names, GeoPackage geometry
//! unwrapping, and the column mapping used to turn features into rows.

pub mod duckdb_ffi;
pub mod git;
pub mod kart;
pub mod msgpack;
pub mod table_function;
