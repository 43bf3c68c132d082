//! Chunk keys from templates: a template such as `c/{0}/{-1:03}_{*}` is
//! parsed once into parts, and each list of chunk coordinates is then
//! rendered into a key.
pub mod capacity;
pub mod decimal;
pub mod errors;
pub mod interpolator;
pub mod laws;
pub mod parser;
pub mod part;
mod text;
pub mod zarrs;

pub use interpolator::Interpolator;
pub use part::Part;
