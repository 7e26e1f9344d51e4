//! Spectral structure of agent state spaces: graph Laplacians of common
//! topologies, their algebraic laws, and the stability classification that
//! is read off the zeros of the spectral zeta function.

pub mod laplacian;
pub mod sums;
pub mod laplacian_laws;
pub mod stability;
