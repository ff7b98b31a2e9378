//! The configuration of a build.

pub mod lookup_table_config;
pub mod suffix_array_config;

pub use lookup_table_config::LookupTableConfig;
pub use suffix_array_config::SuffixArrayConfig;
