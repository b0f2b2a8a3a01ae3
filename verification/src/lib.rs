//! A digital-logic circuit simulator built from typed, composable blocks.
pub mod basic_comp;
pub mod blocks;
pub mod calculator;
pub mod carry_chain;
pub mod circuit;
pub mod clock;
pub mod comparator;
pub mod decoder;
pub mod laws;
pub mod memory;
pub mod multiplier;
pub mod num_bit_converter;
pub mod ram;
pub mod wiring;
