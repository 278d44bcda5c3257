use vstd::prelude::*;

use crate::errors::SchubertError;
use crate::expr::SchubertExpr;
use crate::partition::{padded, parts_error, rectangle_parts, valid_for, Partition};

verus! {

/// The Grassmannian `Gr(k,n)` of `k`-planes in `n`-space, with rectangle width `w = n-k`.
#[derive(Debug, PartialEq, Eq, Structural, PartialOrd, Ord, Hash)]
pub struct Grassmannian {
    k: usize,
    n: usize,
    w: usize,
}

impl Grassmannian {
    #[verifier::type_invariant]
    closed spec fn inv(self) -> bool {
        &&& 0 < self.k <= self.n
        &&& self.w == self.n - self.k
        &&& self.w <= u16::MAX
    }

    /// The number of rows `k` of the Schubert rectangle.
    pub closed spec fn k_spec(self) -> nat {
        self.k as nat
    }

    /// The ambient dimension `n`.
    pub closed spec fn n_spec(self) -> nat {
        self.n as nat
    }

    /// The width `n-k` of the Schubert rectangle.
    pub closed spec fn w_spec(self) -> nat {
        self.w as nat
    }

    /// What every Grassmannian satisfies: `0 < k <= n` and a width `n-k` that fits in `u16`.
    pub open spec fn valid(self) -> bool {
        &&& 0 < self.k_spec() <= self.n_spec()
        &&& self.w_spec() == self.n_spec() - self.k_spec()
        &&& self.w_spec() <= u16::MAX
        &&& self.n_spec() <= usize::MAX
    }

    /// `Gr(k,n)`, refused unless `0 < k <= n` and `n-k` fits in a `u16` part.
    pub fn new(k: usize, n: usize) -> (r: Result<Self, SchubertError>)
        ensures
            k == 0 || k > n ==> r == Err::<Self, SchubertError>(SchubertError::InvalidGrassmannian { k, n }),
            0 < k <= n && n - k > u16::MAX ==> r == Err::<Self, SchubertError>(
                SchubertError::WidthTooLarge { width: (n - k) as usize },
            ),
            r is Ok <==> 0 < k <= n && n - k <= u16::MAX,
            r matches Ok(g) ==> g.k_spec() == k && g.n_spec() == n && g.w_spec() == n - k && g.valid(),
    {
        if k == 0 || k > n {
            return Err(SchubertError::InvalidGrassmannian { k, n });
        }
        let w = n - k;
        if w > 65535 {
            return Err(SchubertError::WidthTooLarge { width: w });
        }
        Ok(Grassmannian { k, n, w })
    }

    /// The number of rows `k`.
    pub fn k(&self) -> (r: usize)
        ensures
            r == self.k_spec(),
            self.valid(),
    {
        proof {
            use_type_invariant(self);
        }
        self.k
    }

    /// The ambient dimension `n`.
    pub fn n(&self) -> (r: usize)
        ensures
            r == self.n_spec(),
            self.valid(),
    {
        proof {
            use_type_invariant(self);
        }
        self.n
    }

    /// The rectangle width `n-k`.
    pub fn width(&self) -> (r: usize)
        ensures
            r == self.w_spec(),
            self.valid(),
    {
        proof {
            use_type_invariant(self);
        }
        self.w
    }

    /// The complex dimension `k(n-k)` of `Gr(k,n)`.
    pub fn dimension(&self) -> (r: usize)
        requires
            self.k_spec() * self.w_spec() <= usize::MAX,
        ensures
            r == self.k_spec() * self.w_spec(),
    {
        self.k * self.w
    }

    /// The rectangular partition `(n-k, ..., n-k)` indexing the point class.
    pub fn top_partition(&self) -> (r: Result<Partition, SchubertError>)
        ensures
            r matches Ok(p) && p@ == rectangle_parts(self.k_spec(), self.w_spec() as u16) && valid_for(p@, *self),
    {
        proof {
            use_type_invariant(self);
        }
        let w = self.w as u16;
        let mut parts: Vec<u16> = Vec::new();
        while parts.len() < self.k
            invariant
                parts@.len() <= self.k,
                w == self.w,
                forall|i: int| 0 <= i < parts@.len() ==> parts@[i] == w,
            decreases self.k - parts.len(),
        {
            parts.push(w);
        }
        let ghost pv = parts@;
        let r = Partition::new(parts, self);
        proof {
            assert(pv =~= rectangle_parts(self.k as nat, w));
            assert(padded(pv, self.k as nat) =~= pv);
        }
        r
    }

    /// The Schubert class `sigma_parts`, after validating and normalizing `parts`.
    pub fn class(&self, parts: Vec<u16>) -> (r: Result<SchubertExpr, SchubertError>)
        ensures
            r is Ok <==> parts@.len() <= self.k_spec() && crate::partition::weakly_decreasing(parts@)
                && crate::partition::fits_width(parts@, self.w_spec()),
            r matches Err(e) ==> parts_error(parts@, self.k_spec(), self.w_spec(), self.k_spec(), self.n_spec(), e),
            r matches Ok(x) ==> x.grass() == *self && x@ == seq![(padded(parts@, self.k_spec()), 1int)],
    {
        let partition = Partition::new(parts, self)?;
        Ok(SchubertExpr::from_class(self, partition))
    }
}

impl Clone for Grassmannian {
    fn clone(&self) -> (r: Self)
        ensures
            r == *self,
    {
        proof {
            use_type_invariant(self);
        }
        Grassmannian { k: self.k, n: self.n, w: self.w }
    }
}

} // verus!
