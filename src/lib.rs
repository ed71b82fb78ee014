//! A small `printf`-style formatter for targets without a heap or an
//! operating system, together with the register arithmetic of the board
//! support layer that surrounds it.

pub mod scan;
pub mod render;
pub mod format;
pub mod laws;
pub mod regs;
