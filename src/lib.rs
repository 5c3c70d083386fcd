pub mod format;
pub mod metadata;
pub mod ids;
pub mod catalog;
pub mod source;
pub mod resolve;
pub mod registry;
pub mod coord;
pub mod laws;
