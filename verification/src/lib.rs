//! Exact Schubert calculus for the integral cohomology of type-A Grassmannians.
//!
//! A Grassmannian `Gr(k,n)` is described by [`Grassmannian`]; its Schubert classes are
//! indexed by [`Partition`]s fitting in the `k x (n-k)` rectangle, and integral linear
//! combinations of them are [`SchubertExpr`]s with [`Integer`] coefficients.  Products are
//! computed with Giambelli's formula and Pieri's rule; [`littlewood_richardson`] multiplies by
//! counting Littlewood-Richardson tableaux, and [`laws`] states what is proved of them.

mod associativity;
mod bilinear;
mod degrees;
mod errors;
mod expr;
mod giambelli;
mod grassmannian;
mod integer;
pub mod laws;
pub mod littlewood_richardson;
mod partition;
mod pieri;
mod pieri_commute;
mod powers;
mod small;
mod sums;
mod terms;
mod text;
mod two_rows;

pub use errors::SchubertError;
pub use expr::SchubertExpr;
pub use giambelli::{permutation_sign, permutations};
pub use grassmannian::Grassmannian;
pub use integer::Integer;
pub use partition::Partition;
