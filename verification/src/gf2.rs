//! Linear algebra over Z₂ on mathematical bit matrices (specification only).
//!
//! A matrix is a sequence of rows, each a sequence of `width` booleans. Row
//! combinations are XOR sums of selected rows; two matrices have the same row
//! space when each row of one is a combination of the rows of the other.
use vstd::prelude::*;

verus! {

/// Parity of `c[j] && m[j][col]` over the first `n` rows.
pub open spec fn dot(c: Seq<bool>, m: Seq<Seq<bool>>, col: int, n: int) -> bool
    decreases n,
{
    if n <= 0 {
        false
    } else {
        dot(c, m, col, n - 1) ^ (c[n - 1] && m[n - 1][col])
    }
}

/// The XOR-combination of the rows of `m` selected by `c`, as a row of `width` bits.
pub open spec fn lin_comb(c: Seq<bool>, m: Seq<Seq<bool>>, width: nat) -> Seq<bool> {
    Seq::new(width, |col: int| dot(c, m, col, m.len() as int))
}

/// Pointwise XOR of two rows.
pub open spec fn xor_rows(a: Seq<bool>, b: Seq<bool>) -> Seq<bool> {
    Seq::new(a.len(), |k: int| a[k] ^ b[k])
}

/// `v` is a Z₂ combination of the rows of `m`.
pub open spec fn in_span(v: Seq<bool>, m: Seq<Seq<bool>>, width: nat) -> bool {
    exists|c: Seq<bool>| c.len() == m.len() && #[trigger] lin_comb(c, m, width) == v
}

/// `a` and `b` have the same row space (each row of one is a combination of the other's rows).
pub open spec fn same_row_space(a: Seq<Seq<bool>>, b: Seq<Seq<bool>>, width: nat) -> bool {
    &&& forall|i: int| 0 <= i < a.len() ==> in_span(#[trigger] a[i], b, width)
    &&& forall|i: int| 0 <= i < b.len() ==> in_span(#[trigger] b[i], a, width)
}

/// `m` (of `rows` × `width`) is in reduced row-echelon form with `rank` pivot
/// rows: row `k < rank` has its pivot in column `piv[k]`, which is set in no
/// other row; pivot columns increase; every row from `rank` on is zero.
pub open spec fn reduced_echelon(m: Seq<Seq<bool>>, width: nat, rank: nat, piv: Seq<int>) -> bool {
    &&& piv.len() == rank
    &&& rank <= m.len()
    &&& forall|k: int| 0 <= k < rank ==> 0 <= #[trigger] piv[k] < width
    &&& forall|k1: int, k2: int| 0 <= k1 < k2 < rank ==> piv[k1] < piv[k2]
    &&& forall|k: int, r: int|
        0 <= k < rank && 0 <= r < m.len() ==> #[trigger] m[r][piv[k]] == (r == k)
    &&& forall|r: int, c: int| rank <= r < m.len() && 0 <= c < width ==> !#[trigger] m[r][c]
}

/// `k` is the Z₂ rank of `m`: some matrix with the same row space is in
/// reduced row-echelon form with `k` pivot rows.
pub open spec fn is_gf2_rank(m: Seq<Seq<bool>>, width: nat, k: nat) -> bool {
    exists|e: Seq<Seq<bool>>, piv: Seq<int>|
        #![trigger reduced_echelon(e, width, k, piv)]
        e.len() == m.len() && same_row_space(m, e, width) && reduced_echelon(e, width, k, piv)
}

/// The unit selector of row `i`.
pub open spec fn unit(n: nat, i: int) -> Seq<bool> {
    Seq::new(n, |j: int| j == i)
}

/// The identity selector matrix.
pub open spec fn identity(n: nat) -> Seq<Seq<bool>> {
    Seq::new(n, |i: int| unit(n, i))
}

/// The parity sum with a unit selector picks that row's entry.
pub proof fn lemma_dot_unit(n: nat, i: int, m: Seq<Seq<bool>>, col: int, k: int)
    requires
        0 <= i < n,
        0 <= k <= n,
    ensures
        dot(unit(n, i), m, col, k) == (i < k && m[i][col]),
    decreases k,
{
    if k > 0 {
        lemma_dot_unit(n, i, m, col, k - 1);
    }
}

/// Selecting a single row yields that row.
pub proof fn lemma_lin_comb_unit(n: nat, i: int, m: Seq<Seq<bool>>, width: nat)
    requires
        0 <= i < n,
        m.len() == n,
        m[i].len() == width,
    ensures
        lin_comb(unit(n, i), m, width) == m[i],
{
    assert forall|col: int| 0 <= col < width implies #[trigger] lin_comb(unit(n, i), m, width)[col]
        == m[i][col] by {
        lemma_dot_unit(n, i, m, col, n as int);
    }
    assert(lin_comb(unit(n, i), m, width) =~= m[i]);
}

/// The parity sum is linear in the selector.
pub proof fn lemma_dot_linear(a: Seq<bool>, b: Seq<bool>, m: Seq<Seq<bool>>, col: int, k: int)
    requires
        a.len() == b.len(),
        0 <= k <= a.len(),
    ensures
        dot(xor_rows(a, b), m, col, k) == (dot(a, m, col, k) ^ dot(b, m, col, k)),
    decreases k,
{
    if k > 0 {
        lemma_dot_linear(a, b, m, col, k - 1);
    }
}

/// Combination is linear in the selector.
pub proof fn lemma_lin_comb_linear(a: Seq<bool>, b: Seq<bool>, m: Seq<Seq<bool>>, width: nat)
    requires
        a.len() == m.len(),
        b.len() == m.len(),
    ensures
        lin_comb(xor_rows(a, b), m, width) == xor_rows(lin_comb(a, m, width), lin_comb(b, m, width)),
{
    assert forall|col: int| 0 <= col < width implies #[trigger] lin_comb(xor_rows(a, b), m, width)[col]
        == xor_rows(lin_comb(a, m, width), lin_comb(b, m, width))[col] by {
        lemma_dot_linear(a, b, m, col, m.len() as int);
    }
    assert(lin_comb(xor_rows(a, b), m, width) =~= xor_rows(
        lin_comb(a, m, width),
        lin_comb(b, m, width),
    ));
}

/// Row `i` of `m` replaced by its XOR with row `r`.
pub open spec fn add_row(m: Seq<Seq<bool>>, i: int, r: int) -> Seq<Seq<bool>> {
    m.update(i, xor_rows(m[i], m[r]))
}

/// The selector that compensates for `add_row(m, i, r)`.
pub open spec fn add_row_selector(c: Seq<bool>, i: int, r: int) -> Seq<bool> {
    c.update(r, c[r] ^ c[i])
}

proof fn lemma_dot_add_row(c: Seq<bool>, m: Seq<Seq<bool>>, i: int, r: int, col: int, k: int)
    requires
        0 <= i < m.len(),
        0 <= r < m.len(),
        i != r,
        c.len() == m.len(),
        0 <= col < m[i].len(),
        m[i].len() == m[r].len(),
        0 <= k <= m.len(),
    ensures
        dot(c, add_row(m, i, r), col, k) ^ (i < k && (c[i] && m[r][col])) == dot(
            add_row_selector(c, i, r),
            m,
            col,
            k,
        ) ^ (r < k && (c[i] && m[r][col])),
    decreases k,
{
    if k > 0 {
        lemma_dot_add_row(c, m, i, r, col, k - 1);
    }
}

/// Combining the rows of `add_row(m, i, r)` equals combining the rows of `m`
/// with the compensated selector.
pub proof fn lemma_lin_comb_add_row(c: Seq<bool>, m: Seq<Seq<bool>>, i: int, r: int, width: nat)
    requires
        0 <= i < m.len(),
        0 <= r < m.len(),
        i != r,
        c.len() == m.len(),
        m[i].len() == width,
        m[r].len() == width,
    ensures
        lin_comb(c, add_row(m, i, r), width) == lin_comb(add_row_selector(c, i, r), m, width),
{
    assert forall|col: int| 0 <= col < width implies #[trigger] lin_comb(c, add_row(m, i, r), width)[col]
        == lin_comb(add_row_selector(c, i, r), m, width)[col] by {
        lemma_dot_add_row(c, m, i, r, col, m.len() as int);
    }
    assert(lin_comb(c, add_row(m, i, r), width) =~= lin_comb(add_row_selector(c, i, r), m, width));
}

} // verus!
