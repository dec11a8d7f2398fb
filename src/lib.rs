//! Block-level request planning for a BitTorrent client: a bitmap over
//! pieces or blocks, the piece picker that schedules block requests, and a
//! bounded cache of open file handles used by the disk writer.

pub mod bitfield;
pub mod cache;

pub use bitfield::PieceField;
pub use cache::FileCache;
pub mod model;
pub mod laws;
pub mod picker;

pub use picker::{Info, Peer, Picker};
