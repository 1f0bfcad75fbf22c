//! Serialization strategy for multi-valued HTTP header maps and for the
//! containers built from them, stated over a format-neutral wire model.
pub mod header_text;
pub mod wire;
pub mod header_map;
pub mod containers;
pub mod keyed;
