//! The encoders that come with the library.

pub mod encoding_table;
pub mod pass_through;

pub use encoding_table::EncodingTable;
pub use pass_through::PassThrough;
