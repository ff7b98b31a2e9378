//! The configuration of the suffix array.

use vstd::prelude::*;
use crate::errors::BuildError;

verus! {

/// Configuration for the suffix array.
#[derive(Debug, Clone, Copy, PartialEq, Eq, Structural)]
pub enum SuffixArrayConfig {
    /// Not compressed: every entry of the suffix array is stored.
    Uncompressed,
    /// Compressed with the given sampling ratio.
    Compressed(u32),
}

impl Default for SuffixArrayConfig {
    fn default() -> (config: Self)
        ensures
            config == SuffixArrayConfig::Uncompressed,
    {
        Self::Uncompressed
    }
}

impl SuffixArrayConfig {
    /// The sampling ratio of a valid configuration.
    pub open spec fn spec_sampling_ratio(&self) -> Option<u32> {
        match *self {
            SuffixArrayConfig::Uncompressed => Some(1u32),
            SuffixArrayConfig::Compressed(ratio) => if ratio < 2 {
                None
            } else {
                Some(ratio)
            },
        }
    }

    /// Get the sampling ratio.
    pub fn sampling_ratio(&self) -> (ratio: Result<u32, BuildError>)
        ensures
            match self.spec_sampling_ratio() {
                Some(r) => ratio matches Ok(found) && found == r,
                None => ratio matches Err(BuildError::InvalidConfig(_)),
            },
    {
        match self {
            Self::Uncompressed => Ok(1),
            Self::Compressed(ratio) => {
                if *ratio < 2 {
                    Err(
                        BuildError::InvalidConfig(
                            "Sampling ratio for compressed suffix array must be at least 2".to_string(),
                        ),
                    )
                } else {
                    Ok(*ratio)
                }
            },
        }
    }
}

} // verus!
