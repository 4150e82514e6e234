pub mod buffer;
pub mod collections;
pub mod compiler;
pub mod float;
pub mod glob;
pub mod maybe_owned;
pub mod render;
pub mod runtime;
pub mod text;
pub mod unicode;
