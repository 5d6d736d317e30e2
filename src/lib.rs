//! Bundles the units of a modular library that a consumer source needs
//! into one self-contained text.

pub mod text;
pub mod syntax;
pub mod usage;
pub mod unit;
pub mod closure;
pub mod exports;
pub mod source;
pub mod library;
pub mod metadata;
pub mod emit;
pub mod polish;
pub mod resolve;
