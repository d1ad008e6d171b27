//! Verified core of a plate-tectonics engine: the integer bookkeeping, decision rules
//! and raster logic that sit around the floating-point physics.
pub mod kind;
pub mod gplates;
pub mod remap;
pub mod flood;
pub mod census;
pub mod polarity;
pub mod boundary;
pub mod contact;
pub mod raster;
pub mod hashing;
pub mod cells;
pub mod route;
pub mod slices;
pub mod glyph;
pub mod pixels;
pub mod pairs;
pub mod transfer;
pub mod prune;
