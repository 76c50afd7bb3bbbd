//! Discovery-side resolution of game mods: storage classification, manifest
//! dependency parsing, variant selection, enablement, conflict checking and a
//! deterministic load order.

pub mod error;
pub mod version;
pub mod dependency;
pub mod concepts;
pub mod order;
pub mod activation;
pub mod storage;
pub mod locale;

pub use error::ModDataErr;
