//! Reading, editing and writing PADS Logic schematic text.
pub mod text;
pub mod number;
pub mod model;
pub mod parse;
pub mod format;
pub mod gbk;
pub mod edit;
pub mod archive;
pub mod rpc;
pub mod invariants;
pub mod roundtrip;
pub mod roundtrip_law;
pub mod edit_law;
pub mod polyline;
pub mod plain_law;
