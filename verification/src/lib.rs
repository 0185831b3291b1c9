//! Synthesis of turtle programs that redraw a black-and-white image:
//! the canvas, the command language, the pen interpreter and the
//! overlap measure, each with its contract.

pub mod canvas;
pub mod dsl;
mod random;
pub mod fitness;
pub mod interpreter;
