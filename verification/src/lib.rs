//! Batch conversion and tileset-assembly engine for hierarchical
//! streaming-tile structures.
//!
//! The library holds the verified core: the tile naming codec, bounding
//! volume math over fixed-point coordinates, the geospatial origin
//! resolver's decision logic, batch dispatch planning, and the assembly
//! of tile-set documents. File and network I/O, worker pools and the
//! native converter calls live outside the library and exchange plain
//! values with it.

pub mod assembler;
pub mod b3dm;
pub mod dispatch;
pub mod document;
pub mod error_metric;
pub mod naming;
pub mod origin;
pub mod text;
pub mod volume;
