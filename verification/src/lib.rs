//! A byte-serialized FM-index: a full-text substring index whose serialized
//! form is one contiguous, aligned byte blob.
//!
//! An index is built once, by an [`FmIndexBuilder`], into a blob that the
//! caller supplies. The blob is the same on disk and in memory: an
//! [`FmIndex`] is loaded from it without copying the bodies, and counts and
//! locates the occurrences of patterns in the text.
//!
//! The modules, leaves first:
//!
//! - `endian`, `entries`, `aligned`, `header`: integers and arrays of
//!   integers in a blob, and the sections of a blob;
//! - `position`, `bits`, `block`, `blocks`: the widths of positions and of bit
//!   vectors, and the blocks that pack the transformed text;
//! - `magic_number`, `text_encoder`, `text_encoders`: the descriptors at the
//!   front of a blob;
//! - `kmer`, `count_array`, `suffix_sort`, `suffix_array`, `bwm`: the three
//!   components of an index, each with its header, its build step and its view;
//! - `build_config`, `errors`, `builder`, `fm_index`, `locate`, `indices`,
//!   `plain_text`: building, loading and querying;
//! - `lex`, `counting`, `permutation`, `ranges`, `occurrences`, `kmer_order`,
//!   `theory`, `search`, `round_trip`: why the queries find the occurrences;
//! - `laws`: what holds of every index.

pub mod aligned;
pub mod bits;
pub mod block;
pub mod blocks;
pub mod build_config;
pub mod builder;
pub mod bwm;
pub mod count_array;
pub mod counting;
pub mod endian;
pub mod entries;
pub mod errors;
pub mod fm_index;
pub mod header;
pub mod indices;
pub mod kmer;
pub mod kmer_order;
pub mod laws;
pub mod lex;
pub mod locate;
pub mod magic_number;
pub mod occurrences;
pub mod permutation;
pub mod plain_text;
pub mod position;
pub mod ranges;
pub mod round_trip;
pub mod search;
pub mod suffix_array;
pub mod suffix_sort;
pub mod text_encoder;
pub mod text_encoders;
pub mod theory;

pub use aligned::Aligned;
pub use block::Block;
pub use builder::FmIndexBuilder;
pub use errors::{BuildError, LoadError};
pub use fm_index::FmIndex;
pub use header::Header;
pub use position::Position;
pub use text_encoder::TextEncoder;
