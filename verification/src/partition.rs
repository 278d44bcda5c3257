use vstd::prelude::*;

use crate::errors::SchubertError;
use crate::grassmannian::Grassmannian;

verus! {

/// Each part is at least the next one.
pub open spec fn weakly_decreasing(s: Seq<u16>) -> bool {
    forall|i: int| 0 < i < s.len() ==> s[i - 1] >= #[trigger] s[i]
}

/// Each part is at most `w`.
pub open spec fn fits_width(s: Seq<u16>, w: nat) -> bool {
    forall|i: int| 0 <= i < s.len() ==> s[i] <= w
}

/// `s` indexes a Schubert class of the `k x w` rectangle in normalized form:
/// exactly `k` weakly decreasing parts, each at most `w`.
pub open spec fn valid_parts(s: Seq<u16>, k: nat, w: nat) -> bool {
    &&& s.len() == k
    &&& weakly_decreasing(s)
    &&& fits_width(s, w)
}

/// `s` is valid for the rectangle of `g`.
pub open spec fn valid_for(s: Seq<u16>, g: Grassmannian) -> bool {
    valid_parts(s, g.k_spec(), g.w_spec())
}

/// `k` zero parts.
pub open spec fn zero_parts(k: nat) -> Seq<u16> {
    Seq::new(k, |i: int| 0u16)
}

/// `k` parts equal to `w`: the rectangle of the point class.
pub open spec fn rectangle_parts(k: nat, w: u16) -> Seq<u16> {
    Seq::new(k, |i: int| w)
}

/// `s` followed by zeroes up to length `k`.
pub open spec fn padded(s: Seq<u16>, k: nat) -> Seq<u16> {
    s + zero_parts((k - s.len()) as nat)
}

/// The number of boxes `|s|`.
pub open spec fn part_sum(s: Seq<u16>) -> nat
    decreases s.len(),
{
    if s.len() == 0 {
        0
    } else {
        part_sum(s.drop_last()) + s.last() as nat
    }
}

/// All parts are zero.
pub open spec fn all_zero(s: Seq<u16>) -> bool {
    forall|i: int| 0 <= i < s.len() ==> s[i] == 0
}

/// Lexicographic order on part sequences (a proper prefix comes first).
pub open spec fn lex_lt(a: Seq<u16>, b: Seq<u16>) -> bool
    decreases a.len(),
{
    if a.len() == 0 {
        b.len() > 0
    } else if b.len() == 0 {
        false
    } else if a[0] != b[0] {
        a[0] < b[0]
    } else {
        lex_lt(a.drop_first(), b.drop_first())
    }
}

/// `e` is the error for the first place where `s` fails to be weakly decreasing.
pub open spec fn ascent_error(s: Seq<u16>, e: SchubertError) -> bool {
    e matches SchubertError::PartitionNotWeaklyDecreasing { index, left, right } && {
        &&& index + 1 < s.len()
        &&& s[index as int] < s[index + 1]
        &&& forall|j: int| 0 < j <= index ==> s[j - 1] >= #[trigger] s[j]
        &&& left == s[index as int]
        &&& right == s[index + 1]
    }
}

/// `e` is the error for the first part of `s` above `w`, reported for `Gr(k,n)`.
pub open spec fn width_error(s: Seq<u16>, w: nat, k: nat, n: nat, e: SchubertError) -> bool {
    e matches SchubertError::PartitionPartTooLarge { part, width, k: ek, n: en } && {
        &&& width == w && ek == k && en == n
        &&& exists|j: int|
            0 <= j < s.len() && s[j] == part && s[j] > w && forall|l: int| 0 <= l < j ==> s[l] <= w
    }
}

/// `e` is the error with which raw parts `s` are refused for a `k`-row rectangle of width `w`
/// (errors reported for `Gr(gk,gn)`): too long first, then not weakly decreasing, then too wide.
pub open spec fn parts_error(s: Seq<u16>, k: nat, w: nat, gk: nat, gn: nat, e: SchubertError) -> bool {
    if s.len() > k {
        e == SchubertError::PartitionTooLong { len: s.len() as usize, k: gk as usize, n: gn as usize }
    } else if !weakly_decreasing(s) {
        ascent_error(s, e)
    } else {
        width_error(s, w, gk, gn, e)
    }
}

/// `e` is the error with which the normalized parts `s` are refused for `g`: wrong length
/// first, then not weakly decreasing, then too wide.
pub open spec fn validation_error(s: Seq<u16>, g: Grassmannian, e: SchubertError) -> bool {
    if s.len() != g.k_spec() {
        e == SchubertError::PartitionWrongLength {
            len: s.len() as usize,
            k: g.k_spec() as usize,
            n: g.n_spec() as usize,
        }
    } else if !weakly_decreasing(s) {
        ascent_error(s, e)
    } else {
        width_error(s, g.w_spec(), g.k_spec(), g.n_spec(), e)
    }
}

pub proof fn lemma_lex_irreflexive(a: Seq<u16>)
    ensures
        !lex_lt(a, a),
    decreases a.len(),
{
    if a.len() > 0 {
        lemma_lex_irreflexive(a.drop_first());
    }
}

pub proof fn lemma_lex_asymmetric(a: Seq<u16>, b: Seq<u16>)
    ensures
        !(lex_lt(a, b) && lex_lt(b, a)),
    decreases a.len(),
{
    if a.len() > 0 && b.len() > 0 && a[0] == b[0] {
        lemma_lex_asymmetric(a.drop_first(), b.drop_first());
    }
}

pub proof fn lemma_lex_transitive(a: Seq<u16>, b: Seq<u16>, c: Seq<u16>)
    requires
        lex_lt(a, b),
        lex_lt(b, c),
    ensures
        lex_lt(a, c),
    decreases a.len(),
{
    if a.len() > 0 && b.len() > 0 && c.len() > 0 && a[0] == b[0] && b[0] == c[0] {
        lemma_lex_transitive(a.drop_first(), b.drop_first(), c.drop_first());
    }
}

pub proof fn lemma_lex_total(a: Seq<u16>, b: Seq<u16>)
    ensures
        a == b || lex_lt(a, b) || lex_lt(b, a),
    decreases a.len(),
{
    if a.len() > 0 && b.len() > 0 && a[0] == b[0] {
        lemma_lex_total(a.drop_first(), b.drop_first());
        if a.drop_first() == b.drop_first() {
            assert(a =~= seq![a[0]] + a.drop_first());
            assert(b =~= seq![b[0]] + b.drop_first());
        }
    } else if a.len() == 0 && b.len() == 0 {
        assert(a =~= b);
    }
}

proof fn lemma_lex_skip(a: Seq<u16>, b: Seq<u16>, i: int)
    requires
        0 <= i <= a.len(),
        i <= b.len(),
        a.subrange(0, i) == b.subrange(0, i),
    ensures
        lex_lt(a, b) == lex_lt(a.skip(i), b.skip(i)),
    decreases i,
{
    if i > 0 {
        assert(a[0] == a.subrange(0, i)[0]);
        assert(b[0] == b.subrange(0, i)[0]);
        assert(a.drop_first().subrange(0, i - 1) =~= a.subrange(0, i).drop_first());
        assert(b.drop_first().subrange(0, i - 1) =~= b.subrange(0, i).drop_first());
        lemma_lex_skip(a.drop_first(), b.drop_first(), i - 1);
        assert(a.drop_first().skip(i - 1) =~= a.skip(i));
        assert(b.drop_first().skip(i - 1) =~= b.skip(i));
    } else {
        assert(a.skip(0) =~= a);
        assert(b.skip(0) =~= b);
    }
}

/// The outcome of comparing two part sequences lexicographically.
pub enum LexOrder {
    Before,
    Same,
    After,
}

/// Compare two part sequences in lexicographic order.
pub fn lex_compare(a: &[u16], b: &[u16]) -> (r: LexOrder)
    ensures
        r is Before <==> lex_lt(a@, b@),
        r is Same <==> a@ == b@,
        r is After <==> lex_lt(b@, a@),
{
    let mut i: usize = 0;
    while i < a.len() && i < b.len()
        invariant
            i <= a.len(),
            i <= b.len(),
            a@.subrange(0, i as int) == b@.subrange(0, i as int),
        decreases a.len() - i,
    {
        if a[i] != b[i] {
            proof {
                lemma_lex_skip(a@, b@, i as int);
                lemma_lex_skip(b@, a@, i as int);
                assert(a@.skip(i as int)[0] == a@[i as int]);
                assert(b@.skip(i as int)[0] == b@[i as int]);
            }
            if a[i] < b[i] {
                return LexOrder::Before;
            } else {
                return LexOrder::After;
            }
        }
        proof {
            assert(a@.subrange(0, i + 1) =~= a@.subrange(0, i as int).push(a@[i as int]));
            assert(b@.subrange(0, i + 1) =~= b@.subrange(0, i as int).push(b@[i as int]));
        }
        i = i + 1;
    }
    proof {
        lemma_lex_skip(a@, b@, i as int);
        lemma_lex_skip(b@, a@, i as int);
        lemma_lex_irreflexive(a@);
        if i == a.len() && i == b.len() {
            assert(a@ =~= a@.subrange(0, i as int));
            assert(b@ =~= b@.subrange(0, i as int));
        } else if i == a.len() {
            assert(a@.len() != b@.len());
        } else {
            assert(a@.len() != b@.len());
        }
    }
    if a.len() == b.len() {
        LexOrder::Same
    } else if a.len() < b.len() {
        LexOrder::Before
    } else {
        LexOrder::After
    }
}

proof fn lemma_part_sum_prefix(s: Seq<u16>, i: int)
    requires
        0 <= i <= s.len(),
    ensures
        part_sum(s.subrange(0, i)) <= part_sum(s),
    decreases s.len() - i,
{
    if i < s.len() {
        lemma_part_sum_prefix(s, i + 1);
        assert(s.subrange(0, i + 1).drop_last() =~= s.subrange(0, i));
    } else {
        assert(s.subrange(0, i) =~= s);
    }
}

/// A partition indexing a Schubert class in a fixed Grassmannian rectangle.
///
/// Partitions are stored in normalized length-`k` form with trailing zeroes.
/// Public constructors validate the usual Schubert-indexing conditions:
/// weakly decreasing parts, at most `k` rows, and each part at most `n-k`.
#[derive(Debug, PartialEq, Eq, PartialOrd, Ord, Hash)]
pub struct Partition {
    parts: Vec<u16>,
}

impl View for Partition {
    type V = Seq<u16>;

    closed spec fn view(&self) -> Seq<u16> {
        self.parts@
    }
}

impl Clone for Partition {
    fn clone(&self) -> (r: Self)
        ensures
            r@ == self@,
    {
        Partition { parts: self.parts.clone() }
    }
}

impl Partition {
    /// Validate and normalize a partition for the rectangle of `g`.
    pub fn new(parts: Vec<u16>, g: &Grassmannian) -> (r: Result<Partition, SchubertError>)
        ensures
            r is Ok <==> parts@.len() <= g.k_spec() && weakly_decreasing(parts@) && fits_width(
                parts@,
                g.w_spec(),
            ),
            r matches Ok(p) ==> p@ == padded(parts@, g.k_spec()) && valid_for(p@, *g),
            r matches Err(e) ==> parts_error(parts@, g.k_spec(), g.w_spec(), g.k_spec(), g.n_spec(), e),
    {
        Self::from_parts(parts, g.k(), g.width(), g.k(), g.n())
    }

    /// The partition with `k` zero parts, indexing the unit class of `g`.
    pub(crate) fn zero(g: &Grassmannian) -> (r: Partition)
        ensures
            r@ == zero_parts(g.k_spec()),
            valid_for(r@, *g),
    {
        let k = g.k();
        let mut parts: Vec<u16> = Vec::new();
        while parts.len() < k
            invariant
                parts@.len() <= k,
                forall|i: int| 0 <= i < parts@.len() ==> parts@[i] == 0,
            decreases k - parts.len(),
        {
            parts.push(0);
        }
        proof {
            assert(parts@ =~= zero_parts(k as nat));
        }
        Partition { parts }
    }

    /// Check raw parts against a `k`-row rectangle of width `w` and pad them with zeroes,
    /// reporting errors for `Gr(g_k,g_n)`.
    pub(crate) fn from_parts(parts: Vec<u16>, k: usize, w: usize, g_k: usize, g_n: usize) -> (r: Result<
        Partition,
        SchubertError,
    >)
        ensures
            r is Ok <==> parts@.len() <= k && weakly_decreasing(parts@) && fits_width(parts@, w as nat),
            r matches Ok(p) ==> p@ == padded(parts@, k as nat),
            r matches Err(e) ==> parts_error(parts@, k as nat, w as nat, g_k as nat, g_n as nat, e),
    {
        if parts.len() > k {
            return Err(SchubertError::PartitionTooLong { len: parts.len(), k: g_k, n: g_n });
        }
        let mut i: usize = 1;
        while i < parts.len()
            invariant
                1 <= i,
                parts@.len() <= k,
                forall|j: int| 0 < j < i && j < parts@.len() ==> parts@[j - 1] >= #[trigger] parts@[j],
            decreases parts.len() - i,
        {
            if parts[i - 1] < parts[i] {
                proof {
                    assert(!weakly_decreasing(parts@)) by {
                        assert(parts@[i - 1] < parts@[i as int]);
                    }
                    let e = SchubertError::PartitionNotWeaklyDecreasing {
                        index: (i - 1) as usize,
                        left: parts@[i - 1],
                        right: parts@[i as int],
                    };
                    assert(ascent_error(parts@, e));
                    assert(parts_error(parts@, k as nat, w as nat, g_k as nat, g_n as nat, e));
                }
                return Err(
                    SchubertError::PartitionNotWeaklyDecreasing {
                        index: i - 1,
                        left: parts[i - 1],
                        right: parts[i],
                    },
                );
            }
            i = i + 1;
        }
        let mut j: usize = 0;
        while j < parts.len()
            invariant
                parts@.len() <= k,
                weakly_decreasing(parts@),
                forall|l: int| 0 <= l < j && l < parts@.len() ==> parts@[l] <= w,
            decreases parts.len() - j,
        {
            if parts[j] as usize > w {
                proof {
                    assert(!fits_width(parts@, w as nat));
                    let e = SchubertError::PartitionPartTooLarge { part: parts[j as int], width: w, k: g_k, n: g_n };
                    assert(width_error(parts@, w as nat, g_k as nat, g_n as nat, e)) by {
                        assert(parts@[j as int] == parts[j as int]);
                    }
                }
                return Err(
                    SchubertError::PartitionPartTooLarge { part: parts[j], width: w, k: g_k, n: g_n },
                );
            }
            j = j + 1;
        }
        let ghost original = parts@;
        let mut parts = parts;
        while parts.len() < k
            invariant
                parts@.len() <= k,
                original.len() <= parts@.len(),
                parts@.subrange(0, original.len() as int) == original,
                forall|l: int| original.len() <= l < parts@.len() ==> parts@[l] == 0,
            decreases k - parts.len(),
        {
            parts.push(0);
        }
        proof {
            assert(parts@ =~= padded(original, k as nat));
        }
        Ok(Partition { parts })
    }

    /// A partition made from parts that are already normalized, without checking them
    /// (products revalidate partitions against their Grassmannian).
    pub fn from_normalized_unchecked(parts: Vec<u16>) -> (r: Partition)
        ensures
            r@ == parts@,
    {
        Partition { parts }
    }

    /// Normalized parts, including trailing zeroes up to the ambient `k` rows.
    pub fn parts(&self) -> (r: &[u16])
        ensures
            r@ == self@,
    {
        self.parts.as_slice()
    }

    /// The number of boxes `|lambda|`, equal to the codimension of `sigma_lambda`.
    pub fn size(&self) -> (r: usize)
        requires
            part_sum(self@) <= usize::MAX,
        ensures
            r == part_sum(self@),
    {
        let mut total: usize = 0;
        let mut i: usize = 0;
        while i < self.parts.len()
            invariant
                i <= self.parts@.len(),
                total == part_sum(self.parts@.subrange(0, i as int)),
                part_sum(self.parts@) <= usize::MAX,
            decreases self.parts.len() - i,
        {
            proof {
                assert(self.parts@.subrange(0, i + 1).drop_last() =~= self.parts@.subrange(0, i as int));
                lemma_part_sum_prefix(self.parts@, i + 1);
            }
            total = total + self.parts[i] as usize;
            i = i + 1;
        }
        proof {
            assert(self.parts@.subrange(0, i as int) =~= self.parts@);
        }
        total
    }

    /// Whether this is the empty partition, indexing the multiplicative unit.
    pub fn is_empty(&self) -> (r: bool)
        ensures
            r == all_zero(self@),
    {
        let mut i: usize = 0;
        while i < self.parts.len()
            invariant
                i <= self.parts@.len(),
                forall|j: int| 0 <= j < i ==> self.parts@[j] == 0,
            decreases self.parts.len() - i,
        {
            if self.parts[i] != 0 {
                return false;
            }
            i = i + 1;
        }
        true
    }

    /// Whether this is the rectangular partition indexing the point class.
    pub fn is_top(&self, g: &Grassmannian) -> (r: bool)
        ensures
            r == (self@.len() == g.k_spec() && forall|i: int| 0 <= i < self@.len() ==> self@[i] == g.w_spec()),
    {
        if self.parts.len() != g.k() {
            return false;
        }
        let w = g.width();
        let mut i: usize = 0;
        while i < self.parts.len()
            invariant
                i <= self.parts@.len(),
                w == g.w_spec(),
                forall|j: int| 0 <= j < i ==> self.parts@[j] == w,
            decreases self.parts.len() - i,
        {
            if self.parts[i] as usize != w {
                return false;
            }
            i = i + 1;
        }
        true
    }

    /// Check that these normalized parts index a Schubert class of `g`.
    pub(crate) fn validate_for(&self, g: &Grassmannian) -> (r: Result<(), SchubertError>)
        ensures
            r is Ok <==> valid_for(self@, *g),
            r matches Err(e) ==> validation_error(self@, *g, e),
    {
        if self.parts.len() != g.k() {
            return Err(SchubertError::PartitionWrongLength { len: self.parts.len(), k: g.k(), n: g.n() });
        }
        let mut i: usize = 1;
        while i < self.parts.len()
            invariant
                1 <= i,
                self.parts@.len() == g.k_spec(),
                g.valid(),
                forall|j: int| 0 < j < i && j < self.parts@.len() ==> self.parts@[j - 1] >= #[trigger] self.parts@[j],
            decreases self.parts.len() - i,
        {
            if self.parts[i - 1] < self.parts[i] {
                proof {
                    assert(!weakly_decreasing(self.parts@)) by {
                        assert(self.parts@[i - 1] < self.parts@[i as int]);
                    }
                    assert(self@ == self.parts@);
                }
                return Err(
                    SchubertError::PartitionNotWeaklyDecreasing {
                        index: i - 1,
                        left: self.parts[i - 1],
                        right: self.parts[i],
                    },
                );
            }
            i = i + 1;
        }
        let w = g.width();
        let mut j: usize = 0;
        while j < self.parts.len()
            invariant
                w == g.w_spec(),
                self.parts@.len() == g.k_spec(),
                g.valid(),
                weakly_decreasing(self.parts@),
                forall|l: int| 0 <= l < j && l < self.parts@.len() ==> self.parts@[l] <= w,
            decreases self.parts.len() - j,
        {
            if self.parts[j] as usize > w {
                proof {
                    assert(self@ == self.parts@);
                    assert(!fits_width(self.parts@, w as nat));
                    let e = SchubertError::PartitionPartTooLarge {
                        part: self.parts[j as int],
                        width: w,
                        k: g.k_spec() as usize,
                        n: g.n_spec() as usize,
                    };
                    assert(width_error(self.parts@, w as nat, g.k_spec(), g.n_spec(), e)) by {
                        assert(self.parts@[j as int] == self.parts[j as int]);
                    }
                }
                return Err(
                    SchubertError::PartitionPartTooLarge { part: self.parts[j], width: w, k: g.k(), n: g.n() },
                );
            }
            j = j + 1;
        }
        Ok(())
    }
}

} // verus!
