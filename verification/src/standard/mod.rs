//! Building blocks shared by the rest of the crate.

pub mod array;
pub mod error;
pub mod text;
pub mod time;
pub mod types;

pub use self::array::{is_continuous_subset, sorted_union};
pub use self::error::AtlasError;
pub use self::time::string_to_nanoseconds_epoch;
pub use self::types::{AtlasResult, CellMatrix, NAN_BITS};
