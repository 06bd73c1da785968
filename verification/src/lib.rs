//! Three small simulations and generators: a Thue-Morse sequence generator,
//! a multi-colour Langton's ant, and a symmetric avatar generator.

pub mod avatar;
pub mod decimal;
pub mod langton;
pub mod rng;
pub mod thue_morse;
