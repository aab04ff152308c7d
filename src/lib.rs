//! A von Neumann style cellular automaton on a self-expanding grid, with a
//! history manager that can move the automaton to any earlier or later tact.

pub mod cellular_automaton;
pub mod kavn_core;
pub mod states;
