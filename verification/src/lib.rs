//! Cellular sheaves over an arbitrary scalar type: cells, stalks, restriction
//! maps and assignments, with the bookkeeping that coherence measures, the
//! sheaf Laplacian and synchronization share.
pub mod ids;
pub mod sheaf;
pub mod laplacian;
pub mod coherence;
pub mod synchronization;
pub mod laws;
