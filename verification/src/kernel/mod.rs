//! A minimal kernel core: the process table and a once-only cell.

pub mod process;
pub mod sync;
