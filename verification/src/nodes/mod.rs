pub mod filter;
pub mod delay;
pub mod convolver;
