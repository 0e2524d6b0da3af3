pub mod array;
pub mod block;
pub mod capacity;
pub mod cell;
pub mod counting;
pub mod hash;
pub mod laws;
pub mod map;
pub mod metadata;
pub mod statistics;

pub use crate::map::{Accessor, HashMap, Scanner};
pub use crate::statistics::Statistics;
