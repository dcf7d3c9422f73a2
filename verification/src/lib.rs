//! Exact simulation of an n-qubit register as a density matrix, evolved
//! under quantum gates by tensor contraction.
//!
//! * [`index`] and [`axes`]: row-major addressing and lists of axes.
//! * [`tensor`]: dense complex arrays with contraction and axis reordering.
//! * [`operators`]: the catalogue of one- and two-qubit operators.
//! * [`density_matrix`]: the density matrix and its evolution.
//! * [`conjugation`]: what an evolution computes, entry by entry.
//! * [`tools`]: bits, powers of two, approximate equality.
//! * [`scalar`]: complex arithmetic, done by `num_complex`.

pub mod axes;
pub mod conjugation;
pub mod density_matrix;
pub mod index;
pub mod operators;
pub mod scalar;
pub mod tensor;
pub mod tools;
