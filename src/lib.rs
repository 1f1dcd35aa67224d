//! Demultiplexing of sequencing reads by the barcode that ends each record's
//! header, with a configurable tolerance for base substitutions.

pub mod assignment;
pub mod demux;
pub mod expand;
pub mod path;
pub mod table;

pub use assignment::{BarcodeAssignment, DemuxError};
pub use demux::{generate_demux_map, get_record_bc, route_record, Demultiplexer};
pub use expand::generate_mismatches;
pub use table::DestinationTable;
