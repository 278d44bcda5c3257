use vstd::prelude::*;

verus! {

/// Errors returned by checked Schubert-calculus operations.
#[derive(Debug, Clone, Copy, PartialEq, Eq, Structural)]
pub enum SchubertError {
    /// `Gr(k,n)` requires `0 < k <= n`.
    InvalidGrassmannian { k: usize, n: usize },
    /// The rectangle width `n-k` cannot be represented by `u16` partition parts.
    WidthTooLarge { width: usize },
    /// A partition has more than `k` rows.
    PartitionTooLong { len: usize, k: usize, n: usize },
    /// A partition part lies outside the `k x (n-k)` rectangle.
    PartitionPartTooLarge { part: u16, width: usize, k: usize, n: usize },
    /// A partition is not weakly decreasing.
    PartitionNotWeaklyDecreasing { index: usize, left: u16, right: u16 },
    /// An operation mixed expressions from different Grassmannians.
    IncompatibleGrassmannian { left_k: usize, left_n: usize, right_k: usize, right_n: usize },
    /// A normalized partition has the wrong length for the target Grassmannian.
    PartitionWrongLength { len: usize, k: usize, n: usize },
}

} // verus!
