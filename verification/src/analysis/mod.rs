//! Stand-alone analyses over qubit usage.

pub mod linearity;
