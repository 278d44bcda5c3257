# schubert_core

Exact Schubert calculus in the integral cohomology of type-A Grassmannians `Gr(k,n)`,
written in Verus and verified.

- `src/grassmannian.rs`, `src/partition.rs`: the Grassmannian and the partitions that index
  its Schubert classes, with their validation rules and error values.
- `src/integer.rs`: arbitrary-precision coefficients; the arithmetic is done by `num-bigint`
  behind small trusted wrappers whose contracts state the value computed.
- `src/terms.rs`, `src/sums.rs`: canonical sparse linear combinations and the finite sums
  used to state the products.
- `src/pieri.rs`, `src/giambelli.rs`, `src/expr.rs`: Pieri's rule, Giambelli's determinant
  and the Schubert product on expressions, each proved against a mathematical statement.
- `src/littlewood_richardson.rs`: the Littlewood-Richardson rule, counting LR tableaux by
  a verified backtracking search; its product is proved equal to the sum of `c^nu_{lam,mu}`
  over the terms.
- `src/text.rs`: the text form of partitions and expressions.
- `src/pieri_commute.rs`: multiplications by special classes commute, by reflecting the box
  of intermediate partitions between two horizontal strips.
- `src/bilinear.rs`: the product expanded over pairs of basis classes, and the reduction of
  commutativity and positivity of all products to those of the basis classes.
- `src/associativity.rs`: the multiplications on the right commute with the special classes
  and with one another, in every Grassmannian.
- `src/small.rs`: the ring laws for one or two rows, `Gr(1,n)` and `Gr(2,n)`, from the unit class
  on the left and the products of basis classes.
- `src/powers.rs`: for one or two rows binary powering is the repeated product, and exponents
  add.
- `src/two_rows.rs`: the Grassmannians of planes `Gr(2,n)`, where Giambelli's determinant has
  two terms: explicit structure constants, Jacobi-Trudi at the unit class, symmetry and
  Poincare duality.
- `src/laws.rs`: proved laws (additive laws, bilinearity of the product, the unit class on the
  right, agreement of the product with Pieri's rule on one-row classes, commuting special
  classes, commuting right multiplications, the ring of projective space; for `Gr(1,n)` and `Gr(2,n)`:
  the unit class on the left, commutativity, associativity, adding exponents, nonnegative products
  and Poincare duality; for the Littlewood-Richardson rule: nonnegative
  coefficients, the unit class, agreement with Pieri's rule).
- `app/`: serde records, `BigInt` conversions, error messages and arithmetic operators.
