//! Integer groundwork of the empirical entropy measures: their parameter
//! errors and the exact count statistics they are computed from.

mod renyi;
mod shannon;
mod tsallis;

pub use renyi::{InvalidRenyiOrder, maximum_count};
pub use shannon::InvalidLogBase;
pub use tsallis::InvalidTsallisOrder;
