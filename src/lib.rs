pub mod drain;
pub mod mem;
pub mod crossbar;
pub mod progress;
