//! High-throughput generation of the "Fizz", "Buzz", "FizzBuzz" number
//! sequence, with contracts that tie every emitted byte to the plain
//! line-by-line rendering.

pub mod decimal;
pub mod lines;
pub mod buffer;
pub mod render;
pub mod batch;
pub mod emitter;
pub mod counter;
