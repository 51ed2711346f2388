pub mod encode;
pub mod extract;
pub mod runs;
