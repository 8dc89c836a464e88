pub mod lattice;
pub mod unionfind;

pub use lattice::ConfigError;
pub use lattice::Fraction;
pub use lattice::Percolation;
pub use lattice::Probability;
pub use unionfind::UnionFind;
