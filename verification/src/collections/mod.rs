//! Growable vectors and strings with the capacity policy of the editor's arena
//! collections: capacity grows by doubling, to at least what is asked for, and at
//! least 8 elements for amortized growth.

pub mod string;
pub mod vec;

pub use self::vec::BVec;
