//! Toy RISC-style language-model experiments: the part that can be proved.
//!
//! The guiding philosophy is a small model that learns *skills* (reasoning, tool
//! calls, reading retrieved context) rather than memorizing *facts*. This library
//! holds the logic that needs neither tensors nor floating-point arithmetic:
//! cleaning notes and tokenizing them, making training examples and deciding what
//! is learned from them, looking passages up, calling the calculator, and laying
//! out batches, masks and lattices. Each function states what it computes, and
//! Verus proves it.
pub mod data;
pub mod decimal;
pub mod model;
pub mod pattern;
pub mod random;
pub mod retrieval;
pub mod sample;
pub mod score;
pub mod sft;
pub mod text;
pub mod tools;
pub mod train;
pub mod viz;
