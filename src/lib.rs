//! Simulation of Booth multiplication with radix-4 and radix-8 recoding: the
//! exact product of two fixed-width two's-complement operands, with the
//! iteration count, the number of additions and an estimated gate delay.

pub mod booth;
pub mod delay;
pub mod recode;
pub mod register;
pub mod twos;
pub mod util;

pub use booth::{booth3, booth4, BoothError, Results};
