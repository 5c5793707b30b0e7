//! What plotting needs from the library.

pub mod utils;
