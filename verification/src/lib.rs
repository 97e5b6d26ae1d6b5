//! Expansion of a configuration state function (CSF), given as a step
//! vector over molecular orbitals plus a spin projection, into the set of
//! Slater determinants that contribute to it, each with an exact signed
//! rational coefficient (the square of the true amplitude).

pub mod comb;
pub mod expand;
pub mod frac;
pub mod tableau;
pub mod text;
