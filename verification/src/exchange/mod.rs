//! Instruments, and the collection that aligns them.

pub mod asset;
pub mod exchange;
pub mod laws;
pub mod model;
pub mod order;

pub use self::asset::{Asset, AssetView};
pub use self::exchange::{Exchange, ExchangeView, SourceFile};
pub use self::model::StepReturn;
