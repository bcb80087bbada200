//! Cohomology validator: H¹ = ker(∂₁) / im(∂₂) over Z₂.
//!
//! Boundary matrices are packed bitmaps (one `u64` word per 64 columns per
//! row); all arithmetic is XOR.
use vstd::prelude::*;

use crate::gf2::{
    add_row, add_row_selector, identity, in_span, is_gf2_rank, lemma_lin_comb_add_row,
    lemma_lin_comb_linear, lemma_lin_comb_unit, lin_comb, reduced_echelon, same_row_space, unit,
    xor_rows,
};
use crate::rips::{distinct_ids, strictly_sorted, Edge, RipsComplex, Triangle};
use crate::signal::NodeId;
use crate::sort::{merge_sort, sorted_by_key, KeyOrder};

verus! {

/// Bit `k` of a word.
pub open spec fn word_bit(w: u64, k: u64) -> bool {
    (w >> k) & 1u64 == 1u64
}

/// Number of 64-bit words that hold `cols` bits.
pub open spec fn words_for(cols: int) -> int {
    (cols + 63) / 64
}

/// Bit-level facts about setting, clearing, xoring and testing a bit of a
/// packed word.
pub proof fn lemma_word_bits(w: u64, v: u64, k: u64, j: u64)
    requires
        k < 64,
        j < 64,
    ensures
        word_bit(w | (1u64 << k), j) == (j == k || word_bit(w, j)),
        word_bit(w & !(1u64 << k), j) == (j != k && word_bit(w, j)),
        word_bit(w ^ v, j) == (word_bit(w, j) ^ word_bit(v, j)),
        !word_bit(0u64, j),
        ((w & (1u64 << k)) != 0u64) == word_bit(w, k),
{
    assert(word_bit(w | (1u64 << k), j) == (j == k || word_bit(w, j))) by (bit_vector)
        requires
            k < 64,
            j < 64,
    ;
    assert(word_bit(w & !(1u64 << k), j) == (j != k && word_bit(w, j))) by (bit_vector)
        requires
            k < 64,
            j < 64,
    ;
    assert(word_bit(w ^ v, j) == (word_bit(w, j) ^ word_bit(v, j))) by (bit_vector)
        requires
            j < 64,
    ;
    assert(!word_bit(0u64, j)) by (bit_vector);
    assert(((w & (1u64 << k)) != 0u64) == word_bit(w, k)) by (bit_vector)
        requires
            k < 64,
    ;
}

proof fn lemma_row_index(r: int, w: int, rows: int, wpr: int)
    requires
        0 <= r < rows,
        0 <= w < wpr,
    ensures
        0 <= r * wpr,
        r * wpr + w < rows * wpr,
        r * wpr + wpr <= rows * wpr,
{
    assert(0 <= r * wpr) by (nonlinear_arith)
        requires
            0 <= r,
            0 <= wpr,
    ;
    assert((r + 1) * wpr <= rows * wpr) by (nonlinear_arith)
        requires
            r + 1 <= rows,
            0 <= wpr,
    ;
    assert((r + 1) * wpr == r * wpr + wpr) by (nonlinear_arith);
}

proof fn lemma_row_index_inj(r1: int, w1: int, r2: int, w2: int, wpr: int)
    requires
        0 <= r1,
        0 <= r2,
        0 <= w1 < wpr,
        0 <= w2 < wpr,
        r1 * wpr + w1 == r2 * wpr + w2,
    ensures
        r1 == r2,
        w1 == w2,
{
    if r1 < r2 {
        assert(r1 * wpr + wpr <= r2 * wpr) by (nonlinear_arith)
            requires
                r1 + 1 <= r2,
                0 <= wpr,
        ;
    } else if r2 < r1 {
        assert(r2 * wpr + wpr <= r1 * wpr) by (nonlinear_arith)
            requires
                r2 + 1 <= r1,
                0 <= wpr,
        ;
    }
}

proof fn lemma_row_start(r: int, rows: int, wpr: int)
    requires
        0 <= r < rows,
        0 <= wpr,
    ensures
        0 <= r * wpr,
        r * wpr + wpr <= rows * wpr,
{
    assert(0 <= r * wpr) by (nonlinear_arith)
        requires
            0 <= r,
            0 <= wpr,
    ;
    assert((r + 1) * wpr <= rows * wpr) by (nonlinear_arith)
        requires
            r + 1 <= rows,
            0 <= wpr,
    ;
    assert((r + 1) * wpr == r * wpr + wpr) by (nonlinear_arith);
}

proof fn lemma_col_word(c: int, cols: int)
    requires
        0 <= c < cols,
    ensures
        0 <= c / 64 < words_for(cols),
        0 <= c % 64 < 64,
{
}

/// Packed Z₂ matrix: `rows × cols`, each row stored as `ceil(cols / 64)` words.
pub struct Z2Matrix {
    rows: usize,
    cols: usize,
    words_per_row: usize,
    data: Vec<u64>,
}

/// Invariant of a sequence of row operations: `cur` rows are combinations of
/// `orig` rows (selectors `t`) and `orig` rows are combinations of `cur` rows
/// (selectors `u`).
pub open spec fn row_ops_inv(
    orig: Seq<Seq<bool>>,
    cur: Seq<Seq<bool>>,
    t: Seq<Seq<bool>>,
    u: Seq<Seq<bool>>,
    n: nat,
    width: nat,
) -> bool {
    &&& orig.len() == n
    &&& cur.len() == n
    &&& t.len() == n
    &&& u.len() == n
    &&& forall|k: int| 0 <= k < n ==> (#[trigger] orig[k]).len() == width
    &&& forall|k: int| 0 <= k < n ==> (#[trigger] cur[k]).len() == width
    &&& forall|k: int| 0 <= k < n ==> (#[trigger] t[k]).len() == n
    &&& forall|k: int| 0 <= k < n ==> (#[trigger] u[k]).len() == n
    &&& forall|k: int| 0 <= k < n ==> #[trigger] lin_comb(t[k], orig, width) == cur[k]
    &&& forall|k: int| 0 <= k < n ==> #[trigger] lin_comb(u[k], cur, width) == orig[k]
}

proof fn lemma_row_ops_start(m: Seq<Seq<bool>>, n: nat, width: nat)
    requires
        m.len() == n,
        forall|k: int| 0 <= k < n ==> (#[trigger] m[k]).len() == width,
    ensures
        row_ops_inv(m, m, identity(n), identity(n), n, width),
{
    assert forall|k: int| 0 <= k < n implies #[trigger] lin_comb(identity(n)[k], m, width) == m[k] by {
        lemma_lin_comb_unit(n, k, m, width);
    }
}

proof fn lemma_row_ops_add_row(
    orig: Seq<Seq<bool>>,
    cur: Seq<Seq<bool>>,
    t: Seq<Seq<bool>>,
    u: Seq<Seq<bool>>,
    n: nat,
    width: nat,
    i: int,
    r: int,
) -> (tu: (Seq<Seq<bool>>, Seq<Seq<bool>>))
    requires
        row_ops_inv(orig, cur, t, u, n, width),
        0 <= i < n,
        0 <= r < n,
        i != r,
    ensures
        row_ops_inv(orig, add_row(cur, i, r), tu.0, tu.1, n, width),
{
    let t2 = add_row(t, i, r);
    let u2 = Seq::new(n, |k: int| add_row_selector(u[k], i, r));
    let cur2 = add_row(cur, i, r);
    assert(cur2[i].len() == width);
    lemma_lin_comb_linear(t[i], t[r], orig, width);
    assert(lin_comb(t2[i], orig, width) =~= cur2[i]);
    assert forall|k: int| 0 <= k < n implies #[trigger] lin_comb(u2[k], cur2, width) == orig[k] by {
        lemma_lin_comb_add_row(u2[k], cur, i, r, width);
        assert(add_row_selector(u2[k], i, r) =~= u[k]);
    }
    assert forall|k: int| 0 <= k < n implies #[trigger] lin_comb(t2[k], orig, width) == cur2[k] by {
        if k == i {
        } else {
            assert(t2[k] == t[k]);
        }
    }
    assert forall|k: int| 0 <= k < n implies (#[trigger] t2[k]).len() == n by {}
    assert forall|k: int| 0 <= k < n implies (#[trigger] cur2[k]).len() == width by {}
    (t2, u2)
}

/// Swapping two rows is three row additions.
proof fn lemma_swap_is_three_adds(m: Seq<Seq<bool>>, p: int, r: int, width: nat)
    requires
        0 <= p < m.len(),
        0 <= r < m.len(),
        p != r,
        m[p].len() == width,
        m[r].len() == width,
    ensures
        add_row(add_row(add_row(m, r, p), p, r), r, p) =~= m.update(p, m[r]).update(r, m[p]),
{
    let m1 = add_row(m, r, p);
    let m2 = add_row(m1, p, r);
    let m3 = add_row(m2, r, p);
    assert(m2[p] =~= m[r]);
    assert(m3[r] =~= m[p]);
}

impl Z2Matrix {
    /// Row count.
    pub closed spec fn spec_rows(&self) -> nat {
        self.rows as nat
    }

    /// Column count.
    pub closed spec fn spec_cols(&self) -> nat {
        self.cols as nat
    }

    /// Structural invariant: packing width matches `cols`, storage matches `rows`.
    pub closed spec fn wf(&self) -> bool {
        &&& self.words_per_row == words_for(self.cols as int)
        &&& self.data@.len() == self.rows * self.words_per_row
    }

    closed spec fn bit(&self, r: int, c: int) -> bool {
        word_bit(self.data@[r * self.words_per_row + c / 64], (c % 64) as u64)
    }

    /// The matrix as rows of booleans.
    pub closed spec fn model(&self) -> Seq<Seq<bool>> {
        Seq::new(self.rows as nat, |r: int| Seq::new(self.cols as nat, |c: int| self.bit(r, c)))
    }

    proof fn lemma_model_shape(&self)
        ensures
            self.model().len() == self.rows,
            forall|k: int| 0 <= k < self.rows ==> (#[trigger] self.model()[k]).len() == self.cols,
    {
    }

    /// Creates the zero matrix of the given shape.
    pub fn new(rows: usize, cols: usize) -> (m: Z2Matrix)
        requires
            rows * words_for(cols as int) <= usize::MAX,
        ensures
            m.wf(),
            m.spec_rows() == rows,
            m.spec_cols() == cols,
            forall|r: int, c: int| 0 <= r < rows && 0 <= c < cols ==> !#[trigger] m.model()[r][c],
    {
        let words_per_row = cols / 64 + if cols % 64 != 0 {
            1
        } else {
            0
        };
        assert(words_per_row == words_for(cols as int));
        let len = rows * words_per_row;
        let data = vec![0u64; len];
        let m = Z2Matrix { rows, cols, words_per_row, data };
        assert forall|r: int, c: int| 0 <= r < rows && 0 <= c < cols implies !#[trigger] m.model()[r][c] by {
            lemma_col_word(c, cols as int);
            lemma_row_index(r, c / 64, rows as int, words_per_row as int);
            lemma_word_bits(0, 0, 0, (c % 64) as u64);
        }
        m
    }

    /// Sets entry `(row, col)` to `val`.
    pub fn set(&mut self, row: usize, col: usize, val: bool)
        requires
            old(self).wf(),
            row < old(self).spec_rows(),
            col < old(self).spec_cols(),
        ensures
            final(self).wf(),
            final(self).spec_rows() == old(self).spec_rows(),
            final(self).spec_cols() == old(self).spec_cols(),
            final(self).model() == old(self).model().update(
                row as int,
                old(self).model()[row as int].update(col as int, val),
            ),
    {
        let wpr = self.words_per_row;
        let _len = self.data.len();
        proof {
            lemma_col_word(col as int, self.cols as int);
            lemma_row_index(row as int, col as int / 64, self.rows as int, wpr as int);
        }
        let idx = row * wpr + col / 64;
        let k = (col % 64) as u64;
        let old_word = self.data[idx];
        let new_word = if val {
            old_word | (1u64 << k)
        } else {
            old_word & !(1u64 << k)
        };
        self.data.set(idx, new_word);
        proof {
            let m0 = old(self).model();
            let m1 = self.model();
            let target = m0.update(row as int, m0[row as int].update(col as int, val));
            assert forall|r: int, c: int|
                0 <= r < self.rows && 0 <= c < self.cols implies #[trigger] m1[r][c] == target[r][c] by {
                lemma_col_word(c, self.cols as int);
                lemma_row_index(r, c / 64, self.rows as int, wpr as int);
                let i2 = r * wpr + c / 64;
                if i2 == idx {
                    lemma_row_index_inj(r, c / 64, row as int, col as int / 64, wpr as int);
                    lemma_word_bits(old_word, 0, k, (c % 64) as u64);
                    assert((c % 64) as u64 == k <==> c == col);
                }
            }
            assert forall|r: int| 0 <= r < self.rows implies #[trigger] m1[r] =~= target[r] by {}
            assert(m1 =~= target);
        }
    }
}


/// XORs `len` words of `pivot` (from `pivot_start`) into `row` (from `row_start`).
fn xor_row_scalar(row: &mut Vec<u64>, row_start: usize, pivot: &[u64], pivot_start: usize, len: usize)
    requires
        row_start + len <= old(row)@.len(),
        pivot_start + len <= pivot@.len(),
    ensures
        final(row)@.len() == old(row)@.len(),
        forall|j: int|
            0 <= j < old(row)@.len() ==> #[trigger] final(row)@[j] == if row_start <= j < row_start
                + len {
                old(row)@[j] ^ pivot@[pivot_start + (j - row_start)]
            } else {
                old(row)@[j]
            },
{
    let row_len = row.len();
    let pivot_len = pivot.len();
    let mut i: usize = 0;
    while len - i >= 4
        invariant
            row_len == row@.len(),
            pivot_len == pivot@.len(),
            i <= len,
            row_start + len <= row@.len(),
            pivot_start + len <= pivot@.len(),
            row@.len() == old(row)@.len(),
            forall|j: int|
                0 <= j < row@.len() ==> #[trigger] row@[j] == if row_start <= j < row_start + i {
                    old(row)@[j] ^ pivot@[pivot_start + (j - row_start)]
                } else {
                    old(row)@[j]
                },
        decreases len - i,
    {
        let a = row[row_start + i] ^ pivot[pivot_start + i];
        row.set(row_start + i, a);
        let b = row[row_start + i + 1] ^ pivot[pivot_start + i + 1];
        row.set(row_start + i + 1, b);
        let c = row[row_start + i + 2] ^ pivot[pivot_start + i + 2];
        row.set(row_start + i + 2, c);
        let d = row[row_start + i + 3] ^ pivot[pivot_start + i + 3];
        row.set(row_start + i + 3, d);
        i += 4;
    }
    while i < len
        invariant
            row_len == row@.len(),
            pivot_len == pivot@.len(),
            i <= len,
            row_start + len <= row@.len(),
            pivot_start + len <= pivot@.len(),
            row@.len() == old(row)@.len(),
            forall|j: int|
                0 <= j < row@.len() ==> #[trigger] row@[j] == if row_start <= j < row_start + i {
                    old(row)@[j] ^ pivot@[pivot_start + (j - row_start)]
                } else {
                    old(row)@[j]
                },
        decreases len - i,
    {
        let a = row[row_start + i] ^ pivot[pivot_start + i];
        row.set(row_start + i, a);
        i += 1;
    }
}

impl Z2Matrix {
    /// Swaps rows `p` and `r` word by word.
    fn swap_rows(&mut self, p: usize, r: usize)
        requires
            old(self).wf(),
            p < old(self).spec_rows(),
            r < old(self).spec_rows(),
            p != r,
        ensures
            final(self).wf(),
            final(self).rows == old(self).rows,
            final(self).cols == old(self).cols,
            final(self).words_per_row == old(self).words_per_row,
            final(self).model() == old(self).model().update(p as int, old(self).model()[r as int]).update(
                r as int,
                old(self).model()[p as int],
            ),
    {
        let wpr = self.words_per_row;
        let dlen = self.data.len();
        let ghost rows = self.rows as int;
        proof {
            lemma_row_start(p as int, rows, wpr as int);
            lemma_row_start(r as int, rows, wpr as int);
        }
        let p_start = p * wpr;
        let r_start = r * wpr;
        let mut w: usize = 0;
        while w < wpr
            invariant
                self.wf(),
                self.rows == old(self).rows,
                self.cols == old(self).cols,
                self.words_per_row == wpr,
                wpr == old(self).words_per_row,
                w <= wpr,
                p_start == p * wpr,
                r_start == r * wpr,
                p < rows,
                r < rows,
                p != r,
                rows == self.rows,
                dlen == self.data@.len(),
                p_start + wpr <= dlen,
                r_start + wpr <= dlen,
                forall|j: int|
                    0 <= j < self.data@.len() ==> #[trigger] self.data@[j] == if p_start <= j
                        < p_start + w {
                        old(self).data@[r_start + (j - p_start)]
                    } else if r_start <= j < r_start + w {
                        old(self).data@[p_start + (j - r_start)]
                    } else {
                        old(self).data@[j]
                    },
            decreases wpr - w,
        {
            proof {
                lemma_row_index(p as int, w as int, rows, wpr as int);
                lemma_row_index(r as int, w as int, rows, wpr as int);
                if p < r {
                    lemma_row_index(p as int, 0, rows, wpr as int);
                    assert(p_start + wpr <= r_start) by (nonlinear_arith)
                        requires
                            p + 1 <= r,
                            p_start == p * wpr,
                            r_start == r * wpr,
                            wpr >= 0,
                    ;
                } else {
                    assert(r_start + wpr <= p_start) by (nonlinear_arith)
                        requires
                            r + 1 <= p,
                            p_start == p * wpr,
                            r_start == r * wpr,
                            wpr >= 0,
                    ;
                }
            }
            let a = self.data[p_start + w];
            let b = self.data[r_start + w];
            self.data.set(p_start + w, b);
            self.data.set(r_start + w, a);
            w += 1;
        }
        proof {
            let m0 = old(self).model();
            let m1 = self.model();
            let target = m0.update(p as int, m0[r as int]).update(r as int, m0[p as int]);
            assert forall|i: int, c: int|
                0 <= i < rows && 0 <= c < self.cols implies #[trigger] m1[i][c] == target[i][c] by {
                lemma_col_word(c, self.cols as int);
                lemma_row_index(i, c / 64, rows, wpr as int);
                let j = i * wpr + c / 64;
                if p_start <= j < p_start + wpr {
                    lemma_row_index_inj(i, c / 64, p as int, j - p_start, wpr as int);
                } else if r_start <= j < r_start + wpr {
                    lemma_row_index_inj(i, c / 64, r as int, j - r_start, wpr as int);
                } else {
                    if i == p as int || i == r as int {
                        assert(false);
                    }
                }
            }
            assert forall|i: int| 0 <= i < rows implies #[trigger] m1[i] =~= target[i] by {}
            assert(m1 =~= target);
        }
    }

    /// Replaces row `i` by its XOR with row `r`, whose words are given in `buf`;
    /// words before `from_word` are skipped (row `r` is zero there).
    fn xor_row_into(&mut self, i: usize, r: usize, buf: &Vec<u64>, from_word: usize)
        requires
            old(self).wf(),
            i < old(self).spec_rows(),
            r < old(self).spec_rows(),
            i != r,
            buf@.len() == old(self).words_per_row,
            forall|w: int|
                0 <= w < old(self).words_per_row ==> #[trigger] buf@[w] == old(self).data@[r
                    * old(self).words_per_row + w],
            from_word <= old(self).words_per_row,
            forall|c: int|
                0 <= c < old(self).cols && c / 64 < from_word ==> !#[trigger] old(self).model()[r as int][c],
        ensures
            final(self).wf(),
            final(self).rows == old(self).rows,
            final(self).cols == old(self).cols,
            final(self).words_per_row == old(self).words_per_row,
            final(self).model() == add_row(old(self).model(), i as int, r as int),
            forall|j: int|
                0 <= j < old(self).data@.len() && !(i * old(self).words_per_row <= j < i
                    * old(self).words_per_row + old(self).words_per_row) ==> #[trigger] final(self).data@[j]
                    == old(self).data@[j],
    {
        let wpr = self.words_per_row;
        let _len = self.data.len();
        let ghost rows = self.rows as int;
        proof {
            lemma_row_start(i as int, rows, wpr as int);
        }
        let base = i * wpr + from_word;
        xor_row_scalar(&mut self.data, base, buf.as_slice(), from_word, wpr - from_word);
        proof {
            let m0 = old(self).model();
            let m1 = self.model();
            let target = add_row(m0, i as int, r as int);
            assert forall|k: int, c: int|
                0 <= k < rows && 0 <= c < self.cols implies #[trigger] m1[k][c] == target[k][c] by {
                lemma_col_word(c, self.cols as int);
                lemma_row_index(k, c / 64, rows, wpr as int);
                lemma_row_index(r as int, c / 64, rows, wpr as int);
                let j = k * wpr + c / 64;
                let kk = (c % 64) as u64;
                if base <= j < base + (wpr - from_word) {
                    lemma_row_index_inj(k, c / 64, i as int, from_word + (j - base), wpr as int);
                    lemma_word_bits(old(self).data@[j], buf@[c / 64], 0, kk);
                } else if k == i as int {
                    assert(c / 64 < from_word);
                    assert(!m0[r as int][c]);
                }
            }
            assert forall|k: int| 0 <= k < rows implies #[trigger] m1[k] =~= target[k] by {}
            assert(m1 =~= target);
        }
    }
}


proof fn lemma_row_ops_same_space(
    orig: Seq<Seq<bool>>,
    cur: Seq<Seq<bool>>,
    t: Seq<Seq<bool>>,
    u: Seq<Seq<bool>>,
    n: nat,
    width: nat,
)
    requires
        row_ops_inv(orig, cur, t, u, n, width),
    ensures
        same_row_space(orig, cur, width),
{
    assert forall|i: int| 0 <= i < orig.len() implies in_span(#[trigger] orig[i], cur, width) by {
        assert(lin_comb(u[i], cur, width) == orig[i]);
    }
    assert forall|i: int| 0 <= i < cur.len() implies in_span(#[trigger] cur[i], orig, width) by {
        assert(lin_comb(t[i], orig, width) == cur[i]);
    }
}

impl Z2Matrix {
    /// Gauss-Jordan elimination over Z₂, in place; returns the rank.
    ///
    /// The final matrix has the same row space as the input and is in reduced
    /// row-echelon form with `rank` pivot rows, so `rank` is the Z₂ rank of
    /// the input.
    pub fn rank_by_gaussian_elimination(&mut self) -> (rank: usize)
        requires
            old(self).wf(),
        ensures
            final(self).wf(),
            final(self).spec_rows() == old(self).spec_rows(),
            final(self).spec_cols() == old(self).spec_cols(),
            rank <= old(self).spec_rows(),
            rank <= old(self).spec_cols(),
            same_row_space(old(self).model(), final(self).model(), old(self).spec_cols()),
            exists|piv: Seq<int>|
                reduced_echelon(final(self).model(), old(self).spec_cols(), rank as nat, piv),
    {
        let rows = self.rows;
        let cols = self.cols;
        let wpr = self.words_per_row;
        let dlen = self.data.len();
        let ghost n = rows as nat;
        let ghost width = cols as nat;
        let ghost orig = self.model();
        let ghost mut t = identity(n);
        let ghost mut u = identity(n);
        let ghost mut piv: Seq<int> = Seq::empty();
        proof {
            self.lemma_model_shape();
            lemma_row_ops_start(orig, n, width);
        }
        if rows == 0 || cols == 0 {
            proof {
                lemma_row_ops_same_space(orig, self.model(), t, u, n, width);
                assert(reduced_echelon(self.model(), width, 0, piv));
            }
            return 0;
        }
        let mut pivot_row_buf: Vec<u64> = vec![0u64; wpr];
        let mut rank: usize = 0;
        let mut r: usize = 0;
        let mut c: usize = 0;
        while c < cols && r < rows
            invariant
                self.wf(),
                self.rows == rows,
                self.cols == cols,
                self.words_per_row == wpr,
                dlen == self.data@.len(),
                n == rows,
                width == cols,
                r == rank,
                r <= rows,
                r <= c,
                c <= cols,
                pivot_row_buf@.len() == wpr,
                row_ops_inv(orig, self.model(), t, u, n, width),
                piv.len() == r,
                forall|k: int| 0 <= k < r ==> 0 <= #[trigger] piv[k] < c,
                forall|k1: int, k2: int| 0 <= k1 < k2 < r ==> piv[k1] < piv[k2],
                forall|k: int, i: int|
                    0 <= k < r && 0 <= i < rows ==> #[trigger] self.model()[i][piv[k]] == (i == k),
                forall|i: int, c2: int|
                    r <= i < rows && 0 <= c2 < c ==> !#[trigger] self.model()[i][c2],
            decreases cols - c,
        {
            let pivot_word = c / 64;
            let k = (c % 64) as u64;
            let pivot_bit: u64 = 1u64 << k;
            proof {
                lemma_col_word(c as int, cols as int);
            }
            let mut p: usize = r;
            let mut found = false;
            while p < rows
                invariant_except_break
                    forall|rr: int| r <= rr < p ==> !#[trigger] self.model()[rr][c as int],
                    !found,
                invariant
                    r <= p <= rows,
                    self.wf(),
                    self.rows == rows,
                    self.cols == cols,
                    self.words_per_row == wpr,
                    dlen == self.data@.len(),
                    c < cols,
                    pivot_word == c / 64,
                    pivot_word < wpr,
                    k == c % 64,
                    pivot_bit == 1u64 << k,
                ensures
                    found ==> p < rows && self.model()[p as int][c as int],
                    !found ==> forall|rr: int| r <= rr < rows ==> !#[trigger] self.model()[rr][c as int],
                decreases rows - p,
            {
                proof {
                    lemma_row_index(p as int, pivot_word as int, rows as int, wpr as int);
                }
                let idx = p * wpr + pivot_word;
                let word = self.data[idx];
                proof {
                    lemma_word_bits(word, 0, k, k);
                }
                if (word & pivot_bit) != 0 {
                    found = true;
                    break;
                }
                p += 1;
            }
            if found {
                if p != r {
                    let ghost m0 = self.model();
                    self.swap_rows(p, r);
                    proof {
                        lemma_swap_is_three_adds(m0, p as int, r as int, width);
                        let tu1 = lemma_row_ops_add_row(orig, m0, t, u, n, width, r as int, p as int);
                        let m1 = add_row(m0, r as int, p as int);
                        let tu2 = lemma_row_ops_add_row(
                            orig,
                            m1,
                            tu1.0,
                            tu1.1,
                            n,
                            width,
                            p as int,
                            r as int,
                        );
                        let m2 = add_row(m1, p as int, r as int);
                        let tu3 = lemma_row_ops_add_row(
                            orig,
                            m2,
                            tu2.0,
                            tu2.1,
                            n,
                            width,
                            r as int,
                            p as int,
                        );
                        t = tu3.0;
                        u = tu3.1;
                        assert(self.model() == add_row(m2, r as int, p as int));
                    }
                }
                proof {
                    lemma_row_start(r as int, rows as int, wpr as int);
                }
                let r_start = r * wpr;
                let mut w: usize = 0;
                while w < wpr
                    invariant
                        w <= wpr,
                        pivot_row_buf@.len() == wpr,
                        r_start == r * wpr,
                        r_start + wpr <= dlen,
                        dlen == self.data@.len(),
                        forall|w2: int| 0 <= w2 < w ==> #[trigger] pivot_row_buf@[w2] == self.data@[r_start + w2],
                    decreases wpr - w,
                {
                    let word = self.data[r_start + w];
                    pivot_row_buf.set(w, word);
                    w += 1;
                }
                let mut i: usize = 0;
                while i < rows
                    invariant
                        self.wf(),
                        self.rows == rows,
                        self.cols == cols,
                        self.words_per_row == wpr,
                        dlen == self.data@.len(),
                        n == rows,
                        width == cols,
                        i <= rows,
                        r < rows,
                        r <= c,
                        c < cols,
                        pivot_word == c / 64,
                        pivot_word < wpr,
                        k == c % 64,
                        pivot_bit == 1u64 << k,
                        r_start == r * wpr,
                        pivot_row_buf@.len() == wpr,
                        forall|w2: int| 0 <= w2 < wpr ==> #[trigger] pivot_row_buf@[w2] == self.data@[r_start + w2],
                        row_ops_inv(orig, self.model(), t, u, n, width),
                        self.model()[r as int][c as int],
                        forall|c2: int| 0 <= c2 < c ==> !#[trigger] self.model()[r as int][c2],
                        piv.len() == r,
                        forall|kk: int| 0 <= kk < r ==> 0 <= #[trigger] piv[kk] < c,
                        forall|kk: int, i2: int|
                            0 <= kk < r && 0 <= i2 < rows ==> #[trigger] self.model()[i2][piv[kk]] == (i2
                                == kk),
                        forall|i2: int, c2: int|
                            r + 1 <= i2 < rows && 0 <= c2 < c ==> !#[trigger] self.model()[i2][c2],
                        forall|i2: int| 0 <= i2 < i ==> #[trigger] self.model()[i2][c as int] == (i2 == r),
                    decreases rows - i,
                {
                    if i != r {
                        proof {
                            lemma_row_index(i as int, pivot_word as int, rows as int, wpr as int);
                        }
                        let ri = i * wpr + pivot_word;
                        let word = self.data[ri];
                        proof {
                            lemma_word_bits(word, 0, k, k);
                        }
                        if (word & pivot_bit) != 0 {
                            let ghost m0 = self.model();
                            let ghost d0 = self.data@;
                            proof {
                                assert forall|c2: int|
                                    0 <= c2 < cols && c2 / 64 < pivot_word implies !#[trigger] m0[r as int][c2] by {
                                    assert(c2 < c);
                                }
                            }
                            self.xor_row_into(i, r, &pivot_row_buf, pivot_word);
                            proof {
                                let tu = lemma_row_ops_add_row(orig, m0, t, u, n, width, i as int, r as int);
                                t = tu.0;
                                u = tu.1;
                                let m1 = self.model();
                                assert forall|w2: int| 0 <= w2 < wpr implies #[trigger] pivot_row_buf@[w2]
                                    == self.data@[r_start + w2] by {
                                    lemma_row_index(r as int, w2, rows as int, wpr as int);
                                    if i * wpr <= r_start + w2 < i * wpr + wpr {
                                        lemma_row_start(i as int, rows as int, wpr as int);
                                        lemma_row_index_inj(
                                            r as int,
                                            w2,
                                            i as int,
                                            r_start + w2 - i * wpr,
                                            wpr as int,
                                        );
                                    }
                                }
                                assert forall|kk: int, i2: int|
                                    0 <= kk < r && 0 <= i2 < rows implies #[trigger] m1[i2][piv[kk]] == (i2
                                        == kk) by {
                                    assert(m0[r as int][piv[kk]] == false);
                                    assert(m0[i2][piv[kk]] == (i2 == kk));
                                }
                                assert forall|i2: int, c2: int|
                                    r + 1 <= i2 < rows && 0 <= c2 < c implies !#[trigger] m1[i2][c2] by {
                                    assert(!m0[r as int][c2]);
                                    assert(!m0[i2][c2]);
                                }
                                assert forall|i2: int| 0 <= i2 < i + 1 implies #[trigger] m1[i2][c as int] == (
                                i2 == r) by {
                                    if i2 == i {
                                        assert(m0[i2][c as int]);
                                    } else {
                                        assert(m1[i2] == m0[i2]);
                                    }
                                }
                                assert forall|c2: int| 0 <= c2 < c implies !#[trigger] m1[r as int][c2] by {
                                    assert(m1[r as int] == m0[r as int]);
                                }
                            }
                        }
                    }
                    i += 1;
                }
                proof {
                    piv = piv.push(c as int);
                }
                rank += 1;
                r += 1;
            }
            c += 1;
        }
        proof {
            lemma_row_ops_same_space(orig, self.model(), t, u, n, width);
            assert(reduced_echelon(self.model(), width, rank as nat, piv));
        }
        rank
    }
}


broadcast use vstd::seq_lib::group_to_multiset_ensures;

/// One entry of the vertex index: a raw identifier and its row.
#[derive(Clone, Copy, Debug, PartialEq, Eq, Structural)]
pub struct IdSlot {
    /// Raw node identifier.
    pub id: u64,
    /// Vertex row (position among the 0-simplices).
    pub row: usize,
}

impl KeyOrder for IdSlot {
    open spec fn sorts_before(self, other: Self) -> bool {
        self.id < other.id || (self.id == other.id && self.row <= other.row)
    }

    proof fn lemma_total(a: Self, b: Self) {
    }

    proof fn lemma_trans(a: Self, b: Self, c: Self) {
    }

    proof fn lemma_antisym(a: Self, b: Self) {
    }

    fn key_le(&self, other: &Self) -> (r: bool) {
        self.id < other.id || (self.id == other.id && self.row <= other.row)
    }

    fn same(&self, other: &Self) -> (r: bool) {
        self.id == other.id && self.row == other.row
    }
}

/// The index entry of vertex row `i`.
pub open spec fn slot_of(ids: Seq<NodeId>, i: int) -> IdSlot {
    IdSlot { id: ids[i].raw(), row: i as usize }
}

/// `index` holds exactly one entry per vertex row, sorted by identifier.
pub open spec fn indexes(index: Seq<IdSlot>, ids: Seq<NodeId>) -> bool {
    &&& sorted_by_key(index)
    &&& forall|s: IdSlot| index.contains(s) <==> exists|i: int| 0 <= i < ids.len() && s == #[trigger] slot_of(ids, i)
}

/// Builds the vertex index of the complex: identifier to vertex row.
fn prepare_vertex_index(complex: &RipsComplex) -> (index: Vec<IdSlot>)
    ensures
        indexes(index@, complex.vertices()),
{
    let verts = complex.simplices_of_dim(0);
    let ghost ids = complex.vertices();
    let mut vertex_ids: Vec<NodeId> = Vec::new();
    let mut i: usize = 0;
    while i < verts.len()
        invariant
            verts@.len() == ids.len(),
            forall|j: int| 0 <= j < verts@.len() ==> (#[trigger] verts@[j])@ == seq![ids[j]],
            i <= verts@.len(),
            vertex_ids@ == ids.take(i as int),
        decreases verts@.len() - i,
    {
        let v = &verts[i];
        proof {
            assert(v@ == seq![ids[i as int]]);
        }
        vertex_ids.push(v[0]);
        proof {
            assert(ids.take(i as int + 1) =~= ids.take(i as int).push(ids[i as int]));
        }
        i += 1;
    }
    proof {
        assert(ids.take(i as int) =~= ids);
    }
    index_ids(&vertex_ids)
}

/// Builds the index of a list of identifiers: identifier to position.
pub(crate) fn index_ids(ids: &Vec<NodeId>) -> (index: Vec<IdSlot>)
    ensures
        indexes(index@, ids@),
        index@.len() == ids@.len(),
{
    let mut slots: Vec<IdSlot> = Vec::new();
    let mut i: usize = 0;
    while i < ids.len()
        invariant
            i <= ids@.len(),
            slots@.len() == i,
            forall|j: int| 0 <= j < i ==> #[trigger] slots@[j] == slot_of(ids@, j),
        decreases ids@.len() - i,
    {
        slots.push(IdSlot { id: ids[i].get(), row: i });
        i += 1;
    }
    let index = merge_sort(&slots);
    proof {
        assert forall|s: IdSlot| index@.contains(s) <==> exists|i: int|
            0 <= i < ids@.len() && s == #[trigger] slot_of(ids@, i) by {
            assert(index@.contains(s) == (index@.to_multiset().count(s) > 0));
            assert(slots@.contains(s) == (slots@.to_multiset().count(s) > 0));
            if slots@.contains(s) {
                let j = choose|j: int| 0 <= j < slots@.len() && slots@[j] == s;
                assert(slots@[j] == slot_of(ids@, j));
            }
            if exists|i: int| 0 <= i < ids@.len() && s == #[trigger] slot_of(ids@, i) {
                let i = choose|i: int| 0 <= i < ids@.len() && s == #[trigger] slot_of(ids@, i);
                assert(slots@[i] == s);
            }
        }
    }
    index
}

/// Row of the vertex with raw identifier `id`, by binary search.
pub(crate) fn lookup_vertex(index: &Vec<IdSlot>, id: u64) -> (r: Option<usize>)
    requires
        sorted_by_key(index@),
    ensures
        r matches Some(row) ==> index@.contains(IdSlot { id, row }),
        r is None ==> forall|k: int| 0 <= k < index@.len() ==> (#[trigger] index@[k]).id != id,
{
    let mut lo: usize = 0;
    let mut hi: usize = index.len();
    while lo < hi
        invariant
            lo <= hi <= index@.len(),
            sorted_by_key(index@),
            forall|k: int| 0 <= k < lo ==> (#[trigger] index@[k]).id < id,
            forall|k: int| hi <= k < index@.len() ==> (#[trigger] index@[k]).id >= id,
        decreases hi - lo,
    {
        let mid = lo + (hi - lo) / 2;
        if index[mid].id < id {
            proof {
                assert forall|k: int| 0 <= k < mid + 1 implies (#[trigger] index@[k]).id < id by {
                    if k < mid {
                        assert(index@[k].sorts_before(index@[mid as int]));
                    }
                }
            }
            lo = mid + 1;
        } else {
            proof {
                assert forall|k: int| mid <= k < index@.len() implies (#[trigger] index@[k]).id >= id by {
                    if k > mid {
                        assert(index@[mid as int].sorts_before(index@[k]));
                    }
                }
            }
            hi = mid;
        }
    }
    if lo < index.len() && index[lo].id == id {
        proof {
            assert(index@[lo as int] == IdSlot { id, row: index@[lo as int].row });
        }
        Some(index[lo].row)
    } else {
        proof {
            assert forall|k: int| 0 <= k < index@.len() implies (#[trigger] index@[k]).id != id by {
                if k > lo {
                    assert(index@[lo as int].sorts_before(index@[k]));
                }
            }
        }
        None
    }
}

/// Row of the edge from raw identifier `a` to raw identifier `b`, by binary search.
fn find_edge(edges: &Vec<Edge>, a: u64, b: u64) -> (r: Option<usize>)
    requires
        sorted_by_key(edges@),
    ensures
        r matches Some(row) ==> row < edges@.len() && edges@[row as int].u.raw() == a
            && edges@[row as int].v.raw() == b,
        r is None ==> forall|k: int|
            0 <= k < edges@.len() ==> !((#[trigger] edges@[k]).u.raw() == a && edges@[k].v.raw() == b),
{
    let mut lo: usize = 0;
    let mut hi: usize = edges.len();
    while lo < hi
        invariant
            lo <= hi <= edges@.len(),
            sorted_by_key(edges@),
            forall|k: int|
                0 <= k < lo ==> (#[trigger] edges@[k]).u.raw() < a || (edges@[k].u.raw() == a
                    && edges@[k].v.raw() < b),
            forall|k: int|
                hi <= k < edges@.len() ==> (#[trigger] edges@[k]).u.raw() > a || (edges@[k].u.raw() == a
                    && edges@[k].v.raw() >= b),
        decreases hi - lo,
    {
        let mid = lo + (hi - lo) / 2;
        let e = edges[mid];
        let eu = e.u.get();
        let ev = e.v.get();
        if eu < a || (eu == a && ev < b) {
            proof {
                assert forall|k: int| 0 <= k < mid + 1 implies (#[trigger] edges@[k]).u.raw() < a || (
                edges@[k].u.raw() == a && edges@[k].v.raw() < b) by {
                    if k < mid {
                        assert(edges@[k].sorts_before(edges@[mid as int]));
                    }
                }
            }
            lo = mid + 1;
        } else {
            proof {
                assert forall|k: int| mid <= k < edges@.len() implies (#[trigger] edges@[k]).u.raw() > a || (
                edges@[k].u.raw() == a && edges@[k].v.raw() >= b) by {
                    if k > mid {
                        assert(edges@[mid as int].sorts_before(edges@[k]));
                    }
                }
            }
            hi = mid;
        }
    }
    if lo < edges.len() {
        let e = edges[lo];
        if e.u.get() == a && e.v.get() == b {
            return Some(lo);
        }
    }
    proof {
        assert forall|k: int| 0 <= k < edges@.len() implies !((#[trigger] edges@[k]).u.raw() == a
            && edges@[k].v.raw() == b) by {
            if k > lo {
                assert(edges@[lo as int].sorts_before(edges@[k]));
            }
        }
    }
    None
}


/// The vertex-edge incidence matrix ∂₁: row per vertex, column per edge.
pub open spec fn d1_model(ids: Seq<NodeId>, es: Seq<Edge>) -> Seq<Seq<bool>> {
    Seq::new(ids.len(), |i: int| Seq::new(es.len(), |c: int| ids[i] == es[c].u || ids[i] == es[c].v))
}

/// Edge `e` joins `x` and `y`, in either direction.
pub open spec fn joins(e: Edge, x: NodeId, y: NodeId) -> bool {
    (e.u == x && e.v == y) || (e.u == y && e.v == x)
}

/// Edge `e` is a side of triangle `t`.
pub open spec fn is_face(e: Edge, t: Triangle) -> bool {
    joins(e, t.u, t.v) || joins(e, t.u, t.w) || joins(e, t.v, t.w)
}

/// The edge-triangle incidence matrix ∂₂: row per edge, column per triangle.
pub open spec fn d2_model(es: Seq<Edge>, ts: Seq<Triangle>) -> Seq<Seq<bool>> {
    Seq::new(es.len(), |r: int| Seq::new(ts.len(), |c: int| is_face(es[r], ts[c])))
}

pub(crate) proof fn lemma_lookup_row(index: Seq<IdSlot>, ids: Seq<NodeId>, id: u64, row: usize)
    requires
        indexes(index, ids),
        distinct_ids(ids),
        ids.len() < usize::MAX,
        index.contains(IdSlot { id, row }),
    ensures
        row < ids.len(),
        ids[row as int].raw() == id,
        forall|i: int| 0 <= i < ids.len() && ids[i].raw() == id ==> i == row,
{
    let i = choose|i: int| 0 <= i < ids.len() && IdSlot { id, row } == #[trigger] slot_of(ids, i);
    assert(i == row);
    assert forall|j: int| 0 <= j < ids.len() && ids[j].raw() == id implies j == row by {
        if j < i {
            assert(ids[j].raw() != ids[i].raw());
        } else if j > i {
            assert(ids[i].raw() != ids[j].raw());
        }
    }
}

pub(crate) proof fn lemma_lookup_missing(index: Seq<IdSlot>, ids: Seq<NodeId>, id: u64)
    requires
        indexes(index, ids),
        forall|k: int| 0 <= k < index.len() ==> (#[trigger] index[k]).id != id,
    ensures
        forall|i: int| 0 <= i < ids.len() ==> ids[i].raw() != id,
{
    assert forall|i: int| 0 <= i < ids.len() implies ids[i].raw() != id by {
        let s = slot_of(ids, i);
        assert(index.contains(s));
        let k = choose|k: int| 0 <= k < index.len() && index[k] == s;
    }
}

/// Builds ∂₁ of the complex as a packed matrix.
fn build_d1(complex: &RipsComplex, index: &Vec<IdSlot>) -> (m: Z2Matrix)
    requires
        complex.wf(),
        indexes(index@, complex.vertices()),
        complex.vertices().len() * words_for(complex.edges().len() as int) <= usize::MAX,
    ensures
        m.wf(),
        m.spec_rows() == complex.vertices().len(),
        m.spec_cols() == complex.edges().len(),
        m.model() == d1_model(complex.vertices(), complex.edges()),
{
    let ghost ids = complex.vertices();
    let ghost es = complex.edges();
    let (n_v, n_e, _n_t) = complex.counts();
    let edges = complex.simplices_of_dim(1);
    let mut m = Z2Matrix::new(n_v, n_e);
    let mut col: usize = 0;
    while col < n_e
        invariant
            complex.wf(),
            ids == complex.vertices(),
            es == complex.edges(),
            indexes(index@, ids),
            n_v == ids.len(),
            n_e == es.len(),
            edges@.len() == n_e,
            forall|j: int| 0 <= j < n_e ==> (#[trigger] edges@[j])@ == seq![es[j].u, es[j].v],
            col <= n_e,
            m.wf(),
            m.spec_rows() == n_v,
            m.spec_cols() == n_e,
            forall|r: int, c: int|
                0 <= r < n_v && 0 <= c < n_e ==> #[trigger] m.model()[r][c] == (c < col && (ids[r] == es[c].u
                    || ids[r] == es[c].v)),
        decreases n_e - col,
    {
        let pair = &edges[col];
        proof {
            assert(pair@ == seq![es[col as int].u, es[col as int].v]);
        }
        let eu = pair[0];
        let ev = pair[1];
        let pu = lookup_vertex(index, eu.get());
        let pv = lookup_vertex(index, ev.get());
        let ghost m0 = m.model();
        proof {
            m.lemma_model_shape();
        }
        match pu {
            Some(row) => {
                proof {
                    lemma_lookup_row(index@, ids, eu.raw(), row);
                }
                m.set(row, col, true);
            },
            None => {
                proof {
                    lemma_lookup_missing(index@, ids, eu.raw());
                }
            },
        }
        let ghost m1 = m.model();
        proof {
            m.lemma_model_shape();
        }
        match pv {
            Some(row) => {
                proof {
                    lemma_lookup_row(index@, ids, ev.raw(), row);
                }
                m.set(row, col, true);
            },
            None => {
                proof {
                    lemma_lookup_missing(index@, ids, ev.raw());
                }
            },
        }
        proof {
            m.lemma_model_shape();
            assert forall|r: int, c: int|
                0 <= r < n_v && 0 <= c < n_e implies #[trigger] m.model()[r][c] == (c < col + 1 && (ids[r]
                == es[c].u || ids[r] == es[c].v)) by {
                NodeId::lemma_raw_injective(ids[r], eu);
                NodeId::lemma_raw_injective(ids[r], ev);
                assert(m0[r][c] == (c < col && (ids[r] == es[c].u || ids[r] == es[c].v)));
            }
        }
        col += 1;
    }
    proof {
        m.lemma_model_shape();
        let target = d1_model(ids, es);
        assert forall|r: int| 0 <= r < n_v implies #[trigger] m.model()[r] =~= target[r] by {}
        assert(m.model() =~= target);
    }
    m
}


/// Row of the edge joining `x` and `y` (in either direction), if any.
fn face_row(edges: &Vec<Edge>, x: NodeId, y: NodeId) -> (r: Option<usize>)
    requires
        strictly_sorted(edges@),
        forall|i: int| 0 <= i < edges@.len() ==> (#[trigger] edges@[i]).u.raw() < edges@[i].v.raw(),
    ensures
        r matches Some(row) ==> row < edges@.len() && joins(edges@[row as int], x, y),
        forall|k: int| 0 <= k < edges@.len() && joins(#[trigger] edges@[k], x, y) ==> r == Some(k as usize),
{
    let xr = x.get();
    let yr = y.get();
    let (lo, hi) = if xr <= yr {
        (xr, yr)
    } else {
        (yr, xr)
    };
    proof {
        assert(sorted_by_key(edges@));
    }
    let r = find_edge(edges, lo, hi);
    proof {
        assert forall|k: int| 0 <= k < edges@.len() && joins(#[trigger] edges@[k], x, y) implies r == Some(
            k as usize,
        ) by {
            let e = edges@[k];
            NodeId::lemma_raw_injective(e.u, x);
            NodeId::lemma_raw_injective(e.v, y);
            NodeId::lemma_raw_injective(e.u, y);
            NodeId::lemma_raw_injective(e.v, x);
            assert(e.u.raw() == lo && e.v.raw() == hi);
            let row = r->Some_0;
            let f = edges@[row as int];
            if row as int != k {
                NodeId::lemma_raw_injective(e.u, f.u);
                NodeId::lemma_raw_injective(e.v, f.v);
                if (row as int) < k {
                    assert(f != e);
                } else {
                    assert(e != f);
                }
            }
        }
        if r is Some {
            let f = edges@[r->Some_0 as int];
            NodeId::lemma_raw_injective(f.u, x);
            NodeId::lemma_raw_injective(f.v, y);
            NodeId::lemma_raw_injective(f.u, y);
            NodeId::lemma_raw_injective(f.v, x);
        }
    }
    r
}

/// With no edges or no triangles, ∂₂ has Z₂ rank 0.
proof fn lemma_empty_d2_rank(es: Seq<Edge>, ts: Seq<Triangle>)
    requires
        es.len() == 0 || ts.len() == 0,
    ensures
        is_gf2_rank(d2_model(es, ts), ts.len(), 0),
{
    let m = d2_model(es, ts);
    assert forall|i: int| 0 <= i < m.len() implies in_span(#[trigger] m[i], m, ts.len()) by {
        let c = unit(m.len(), i);
        assert(lin_comb(c, m, ts.len()) =~= m[i]);
    }
    assert(reduced_echelon(m, ts.len(), 0, Seq::empty()));
}

/// Builds ∂₂ of the complex as a packed matrix; with no edges or no
/// triangles it is the empty 0 × 0 matrix.
fn build_d2(complex: &RipsComplex) -> (m: Z2Matrix)
    requires
        complex.wf(),
        complex.edges().len() * words_for(complex.triangles().len() as int) <= usize::MAX,
    ensures
        m.wf(),
        complex.edges().len() == 0 || complex.triangles().len() == 0 ==> m.spec_rows() == 0
            && m.spec_cols() == 0,
        complex.edges().len() > 0 && complex.triangles().len() > 0 ==> m.spec_rows()
            == complex.edges().len() && m.spec_cols() == complex.triangles().len() && m.model()
            == d2_model(complex.edges(), complex.triangles()),
{
    let ghost es = complex.edges();
    let ghost ts = complex.triangles();
    let (_n_v, n_e, n_t) = complex.counts();
    if n_e == 0 || n_t == 0 {
        return Z2Matrix::new(0, 0);
    }
    let edge_list = complex.simplices_of_dim(1);
    let tris = complex.simplices_of_dim(2);
    let mut edges: Vec<Edge> = Vec::new();
    let mut k: usize = 0;
    while k < n_e
        invariant
            n_e == es.len(),
            edge_list@.len() == n_e,
            forall|j: int| 0 <= j < n_e ==> (#[trigger] edge_list@[j])@ == seq![es[j].u, es[j].v],
            k <= n_e,
            edges@ == es.take(k as int),
        decreases n_e - k,
    {
        let pair = &edge_list[k];
        proof {
            assert(pair@ == seq![es[k as int].u, es[k as int].v]);
        }
        edges.push(Edge { u: pair[0], v: pair[1] });
        proof {
            assert(es.take(k as int + 1) =~= es.take(k as int).push(es[k as int]));
        }
        k += 1;
    }
    proof {
        assert(es.take(n_e as int) =~= es);
    }
    let mut m = Z2Matrix::new(n_e, n_t);
    let mut col: usize = 0;
    while col < n_t
        invariant
            complex.wf(),
            es == complex.edges(),
            ts == complex.triangles(),
            edges@ == es,
            n_e == es.len(),
            n_t == ts.len(),
            tris@.len() == n_t,
            forall|j: int| 0 <= j < n_t ==> (#[trigger] tris@[j])@ == seq![ts[j].u, ts[j].v, ts[j].w],
            col <= n_t,
            m.wf(),
            m.spec_rows() == n_e,
            m.spec_cols() == n_t,
            forall|r: int, c: int|
                0 <= r < n_e && 0 <= c < n_t ==> #[trigger] m.model()[r][c] == (c < col && is_face(es[r], ts[c])),
        decreases n_t - col,
    {
        let tri = &tris[col];
        proof {
            assert(tri@ == seq![ts[col as int].u, ts[col as int].v, ts[col as int].w]);
        }
        let a = tri[0];
        let b = tri[1];
        let c = tri[2];
        let ghost m0 = m.model();
        let r1 = face_row(&edges, a, b);
        let r2 = face_row(&edges, a, c);
        let r3 = face_row(&edges, b, c);
        proof {
            m.lemma_model_shape();
        }
        if let Some(row) = r1 {
            m.set(row, col, true);
        }
        proof {
            m.lemma_model_shape();
        }
        if let Some(row) = r2 {
            m.set(row, col, true);
        }
        proof {
            m.lemma_model_shape();
        }
        if let Some(row) = r3 {
            m.set(row, col, true);
        }
        proof {
            m.lemma_model_shape();
            assert forall|r: int, c2: int|
                0 <= r < n_e && 0 <= c2 < n_t implies #[trigger] m.model()[r][c2] == (c2 < col + 1 && is_face(
                es[r],
                ts[c2],
            )) by {
                assert(m0[r][c2] == (c2 < col && is_face(es[r], ts[c2])));
                if c2 == col {
                    assert(m.model()[r][c2] == (r1 == Some(r as usize) || r2 == Some(r as usize) || r3 == Some(
                        r as usize,
                    )));
                }
            }
        }
        col += 1;
    }
    proof {
        m.lemma_model_shape();
        let target = d2_model(es, ts);
        assert forall|r: int| 0 <= r < n_e implies #[trigger] m.model()[r] =~= target[r] by {}
        assert(m.model() =~= target);
    }
    m
}


/// The boundary matrices fit the address space.
pub open spec fn boundaries_fit(c: &RipsComplex) -> bool {
    &&& c.vertices().len() * words_for(c.edges().len() as int) <= usize::MAX
    &&& c.edges().len() * words_for(c.triangles().len() as int) <= usize::MAX
}

/// With `r1` the Z₂ rank of ∂₁ and `r2` that of ∂₂, dim H¹ = (#edges − r1) − r2
/// is zero exactly when `vanishes` holds.
pub open spec fn h1_ranks(c: &RipsComplex, r1: nat, r2: nat, vanishes: bool) -> bool {
    &&& is_gf2_rank(d1_model(c.vertices(), c.edges()), c.edges().len(), r1)
    &&& is_gf2_rank(d2_model(c.edges(), c.triangles()), c.triangles().len(), r2)
    &&& r1 <= c.edges().len()
    &&& vanishes == (c.edges().len() <= r1 + r2)
}

/// Full H¹ check by Gaussian elimination on both boundary matrices.
fn check_h1_full(complex: &RipsComplex) -> (vanishes: bool)
    requires
        complex.wf(),
        boundaries_fit(complex),
    ensures
        exists|r1: nat, r2: nat| h1_ranks(complex, r1, r2, vanishes),
{
    let (_n_v, n_edges, _n_t) = complex.counts();
    let index = prepare_vertex_index(complex);
    let mut d1 = build_d1(complex, &index);
    let ghost m1 = d1.model();
    let rank_d1 = d1.rank_by_gaussian_elimination();
    let rank_ker_d1 = n_edges - rank_d1;
    let mut d2 = build_d2(complex);
    let ghost m2 = d2.model();
    let rank_im_d2 = d2.rank_by_gaussian_elimination();
    let h1_dim = rank_ker_d1.saturating_sub(rank_im_d2);
    proof {
        d1.lemma_model_shape();
        d2.lemma_model_shape();
        let piv1 = choose|piv: Seq<int>|
            reduced_echelon(d1.model(), n_edges as nat, rank_d1 as nat, piv);
        let piv2 = choose|piv: Seq<int>|
            reduced_echelon(d2.model(), complex.triangles().len(), rank_im_d2 as nat, piv);
        assert(is_gf2_rank(m1, n_edges as nat, rank_d1 as nat)) by {
            assert(reduced_echelon(d1.model(), n_edges as nat, rank_d1 as nat, piv1));
        }
        if complex.edges().len() == 0 || complex.triangles().len() == 0 {
            lemma_empty_d2_rank(complex.edges(), complex.triangles());
        } else {
            assert(is_gf2_rank(m2, complex.triangles().len(), rank_im_d2 as nat)) by {
                assert(reduced_echelon(d2.model(), complex.triangles().len(), rank_im_d2 as nat, piv2));
            }
        }
        assert(h1_ranks(complex, rank_d1 as nat, rank_im_d2 as nat, h1_dim == 0));
    }
    h1_dim == 0
}


/// Component labels of `n` vertices after merging along `pairs`, in order:
/// each pair relabels the component of its second vertex with the label of
/// its first.
pub open spec fn comp_labels(n: nat, pairs: Seq<(int, int)>) -> Seq<int>
    decreases pairs.len(),
{
    if pairs.len() == 0 {
        Seq::new(n, |i: int| i)
    } else {
        let lab = comp_labels(n, pairs.drop_last());
        let la = lab[pairs.last().0];
        let lb = lab[pairs.last().1];
        Seq::new(n, |i: int| if lab[i] == lb { la } else { lab[i] })
    }
}

/// Some pair joins two vertices already connected by the pairs before it.
pub open spec fn closes_cycle(n: nat, pairs: Seq<(int, int)>) -> bool {
    exists|k: int|
        0 <= k < pairs.len() && #[trigger] comp_labels(n, pairs.take(k))[pairs[k].0] == comp_labels(
            n,
            pairs.take(k),
        )[pairs[k].1]
}

/// Row of vertex `x` among `ids`.
pub open spec fn pos_of(ids: Seq<NodeId>, x: NodeId) -> int {
    choose|i: int| 0 <= i < ids.len() && ids[i] == x
}

/// The edges as pairs of vertex rows.
pub open spec fn edge_rows(ids: Seq<NodeId>, es: Seq<Edge>) -> Seq<(int, int)> {
    Seq::new(es.len(), |k: int| (pos_of(ids, es[k].u), pos_of(ids, es[k].v)))
}

pub(crate) proof fn lemma_comp_labels_len(n: nat, pairs: Seq<(int, int)>)
    ensures
        comp_labels(n, pairs).len() == n,
    decreases pairs.len(),
{
    if pairs.len() > 0 {
        lemma_comp_labels_len(n, pairs.drop_last());
    }
}

/// Scratch state of the cycle detector: a union-find forest over vertex rows.
pub struct H1Cache {
    uf_parent: Vec<usize>,
    uf_rank: Vec<u8>,
    uf_root: Ghost<Seq<int>>,
    uf_level: Ghost<Seq<nat>>,
    uf_bound: Ghost<nat>,
}

impl H1Cache {
    /// Representative of each of the first `n` elements.
    pub closed spec fn roots(&self) -> Seq<int> {
        self.uf_root@
    }

    /// Forest invariant over the first `n` elements: parents stay in range,
    /// every element's representative is a root reached through its parent,
    /// and levels strictly increase towards the root.
    pub closed spec fn uf_inv(&self, n: nat) -> bool {
        let p = self.uf_parent@;
        let root = self.uf_root@;
        let lvl = self.uf_level@;
        &&& p.len() >= n
        &&& self.uf_rank@.len() == p.len()
        &&& root.len() == n
        &&& lvl.len() == n
        &&& forall|x: int|
            0 <= x < n ==> {
                &&& (#[trigger] p[x]) < n
                &&& root[p[x] as int] == root[x]
                &&& (p[x] == x ==> root[x] == x)
                &&& (p[x] != x ==> lvl[p[x] as int] > lvl[x])
            }
        &&& forall|x: int| 0 <= x < n ==> 0 <= #[trigger] root[x] < n && p[root[x]] == root[x]
        &&& forall|x: int| 0 <= x < n ==> #[trigger] lvl[x] <= self.uf_bound@
    }

    /// An empty cache.
    pub fn new() -> (c: H1Cache)
        ensures
            c.uf_inv(0),
    {
        H1Cache {
            uf_parent: Vec::new(),
            uf_rank: Vec::new(),
            uf_root: Ghost(Seq::empty()),
            uf_level: Ghost(Seq::empty()),
            uf_bound: Ghost(0),
        }
    }

    /// Resets the first `n` elements to singletons.
    fn prepare_union_find(&mut self, n: usize)
        ensures
            final(self).uf_inv(n as nat),
            final(self).roots() == Seq::new(n as nat, |i: int| i),
    {
        if self.uf_parent.len() < n {
            self.uf_parent.resize(n, 0);
        }
        if self.uf_rank.len() != self.uf_parent.len() {
            let len = self.uf_parent.len();
            self.uf_rank.resize(len, 0);
        }
        let mut i: usize = 0;
        while i < n
            invariant
                i <= n,
                self.uf_parent@.len() >= n,
                self.uf_rank@.len() == self.uf_parent@.len(),
                forall|j: int| 0 <= j < i ==> #[trigger] self.uf_parent@[j] == j,
            decreases n - i,
        {
            self.uf_parent.set(i, i);
            self.uf_rank.set(i, 0);
            i += 1;
        }
        self.uf_root = Ghost(Seq::new(n as nat, |j: int| j));
        self.uf_level = Ghost(Seq::new(n as nat, |j: int| 0nat));
        self.uf_bound = Ghost(0);
    }

    /// Representative of `x`, halving the path on the way.
    fn find(&mut self, x: usize, Ghost(n): Ghost<nat>) -> (r: usize)
        requires
            old(self).uf_inv(n),
            x < n,
        ensures
            final(self).uf_inv(n),
            final(self).roots() == old(self).roots(),
            r == old(self).roots()[x as int],
    {
        let mut root = x;
        while self.uf_parent[root] != root
            invariant
                self.uf_inv(n),
                root < n,
                self.uf_root@[root as int] == self.uf_root@[x as int],
            decreases self.uf_bound@ - self.uf_level@[root as int],
        {
            proof {
                let pr = self.uf_parent@[root as int];
                assert(self.uf_level@[pr as int] > self.uf_level@[root as int]);
                assert(self.uf_level@[pr as int] <= self.uf_bound@);
            }
            root = self.uf_parent[root];
        }
        proof {
            let rx = self.uf_root@[root as int];
            assert(self.uf_parent@[root as int] == root);
            assert(rx == root);
        }
        let ghost r0 = self.uf_root@;
        let mut node = x;
        while self.uf_parent[node] != root
            invariant
                self.uf_inv(n),
                self.uf_root@ == r0,
                node < n,
                root < n,
                self.uf_parent@[root as int] == root,
                r0[node as int] == root,
            decreases self.uf_bound@ - self.uf_level@[node as int],
        {
            let ghost p0 = self.uf_parent@;
            let ghost lvl = self.uf_level@;
            let parent = self.uf_parent[node];
            let grand = self.uf_parent[parent];
            proof {
                assert(p0[node as int] == parent);
                assert(r0[parent as int] == r0[node as int]);
                assert(p0[parent as int] == grand);
                assert(r0[grand as int] == r0[parent as int]);
                if p0[node as int] == node {
                    assert(r0[node as int] == node);
                }
                assert(parent != node);
                assert(lvl[parent as int] > lvl[node as int]);
                if grand != parent {
                    assert(lvl[grand as int] > lvl[parent as int]);
                }
                assert(lvl[parent as int] <= self.uf_bound@);
            }
            self.uf_parent.set(node, grand);
            proof {
                let p = self.uf_parent@;
                assert forall|y: int| 0 <= y < n implies {
                    &&& (#[trigger] p[y]) < n
                    &&& r0[p[y] as int] == r0[y]
                    &&& (p[y] == y ==> r0[y] == y)
                    &&& (p[y] != y ==> lvl[p[y] as int] > lvl[y])
                } by {
                    if y != node as int {
                        assert(p[y] == p0[y]);
                    }
                }
                assert forall|y: int| 0 <= y < n implies 0 <= #[trigger] r0[y] < n && p[r0[y]] == r0[y] by {
                    assert(p0[r0[y]] == r0[y]);
                    if r0[y] == node as int {
                        assert(r0[node as int] == node);
                        assert(false);
                    }
                }
            }
            node = parent;
        }
        root
    }

    /// Merges the sets of `a` and `b`; `false` when they were already one set.
    fn union(&mut self, a: usize, b: usize, Ghost(n): Ghost<nat>) -> (merged: bool)
        requires
            old(self).uf_inv(n),
            a < n,
            b < n,
        ensures
            final(self).uf_inv(n),
            merged == (old(self).roots()[a as int] != old(self).roots()[b as int]),
            forall|x: int, y: int|
                0 <= x < n && 0 <= y < n ==> (#[trigger] final(self).roots()[x] == #[trigger] final(self).roots()[y])
                    == ({
                    let r = old(self).roots();
                    ||| r[x] == r[y]
                    ||| (r[x] == r[a as int] && r[y] == r[b as int])
                    ||| (r[x] == r[b as int] && r[y] == r[a as int])
                }),
    {
        let ghost r0 = self.uf_root@;
        let ra = self.find(a, Ghost(n));
        let rb = self.find(b, Ghost(n));
        if ra == rb {
            return false;
        }
        let rank_a = self.uf_rank[ra];
        let rank_b = self.uf_rank[rb];
        let ghost lv = self.uf_level@;
        let ghost bd = self.uf_bound@;
        let ghost p0 = self.uf_parent@;
        proof {
            assert(r0 == self.uf_root@);
            assert(lv.len() == n);
            assert(lv[ra as int] <= bd);
            assert(lv[rb as int] <= bd);
            assert(p0[ra as int] == ra);
            assert(p0[rb as int] == rb);
        }
        if rank_a < rank_b {
            self.uf_parent.set(ra, rb);
            proof {
                let newl = if lv[rb as int] > lv[ra as int] { lv[rb as int] } else { (lv[ra as int] + 1) as nat };
                self.uf_level@ = lv.update(rb as int, newl);
                self.uf_bound@ = if newl > bd { newl } else { bd };
                self.uf_root@ = Seq::new(n, |i: int| if r0[i] == ra as int { rb as int } else { r0[i] });
            }
        } else {
            self.uf_parent.set(rb, ra);
            if rank_a == rank_b {
                let bumped = rank_a.saturating_add(1);
                self.uf_rank.set(ra, bumped);
            }
            proof {
                let newl = if lv[ra as int] > lv[rb as int] { lv[ra as int] } else { (lv[rb as int] + 1) as nat };
                self.uf_level@ = lv.update(ra as int, newl);
                self.uf_bound@ = if newl > bd { newl } else { bd };
                self.uf_root@ = Seq::new(n, |i: int| if r0[i] == rb as int { ra as int } else { r0[i] });
            }
        }
        proof {
            let p = self.uf_parent@;
            let root = self.uf_root@;
            let lvl = self.uf_level@;
            assert(r0[ra as int] == ra);
            assert(r0[rb as int] == rb);
            assert forall|x: int| 0 <= x < n implies {
                &&& (#[trigger] p[x]) < n
                &&& root[p[x] as int] == root[x]
                &&& (p[x] == x ==> root[x] == x)
                &&& (p[x] != x ==> lvl[p[x] as int] > lvl[x])
            } by {
                assert(p0[x] < n);
                assert(r0[p0[x] as int] == r0[x]);
                if p0[x] != x {
                    assert(lv[p0[x] as int] > lv[x]);
                } else {
                    assert(r0[x] == x);
                }
                assert(r0[x] < n);
                assert(p0[r0[x]] == r0[x]);
            }
            assert forall|x: int| 0 <= x < n implies 0 <= #[trigger] root[x] < n && p[root[x]] == root[x] by {
                assert(0 <= r0[x] < n);
                assert(p0[r0[x]] == r0[x]);
            }
            assert forall|x: int| 0 <= x < n implies #[trigger] lvl[x] <= self.uf_bound@ by {
                assert(lv[x] <= bd);
            }
        }
        true
    }
}


proof fn lemma_vertex_row(index: Seq<IdSlot>, ids: Seq<NodeId>, x: NodeId, r: Option<usize>)
    requires
        indexes(index, ids),
        distinct_ids(ids),
        ids.len() < usize::MAX,
        ids.contains(x),
        r matches Some(row) ==> index.contains(IdSlot { id: x.raw(), row }),
        r is None ==> forall|k: int| 0 <= k < index.len() ==> (#[trigger] index[k]).id != x.raw(),
    ensures
        r matches Some(row) && row == pos_of(ids, x) && 0 <= row < ids.len() && ids[row as int] == x,
{
    let i = choose|i: int| 0 <= i < ids.len() && ids[i] == x;
    if r is None {
        lemma_lookup_missing(index, ids, x.raw());
        assert(ids[i].raw() != x.raw());
    }
    let row = r->Some_0;
    lemma_lookup_row(index, ids, x.raw(), row);
    NodeId::lemma_raw_injective(ids[row as int], x);
    let p = pos_of(ids, x);
    NodeId::lemma_raw_injective(ids[p], x);
}

/// Cycle detection over the 1-skeleton: `true` when some edge closes a cycle
/// of the edges before it.
fn detect_graph_cycle_incremental(complex: &RipsComplex, index: &Vec<IdSlot>, cache: &mut H1Cache) -> (found: bool)
    requires
        complex.wf(),
        indexes(index@, complex.vertices()),
    ensures
        found == closes_cycle(complex.vertices().len(), edge_rows(complex.vertices(), complex.edges())),
{
    let ghost ids = complex.vertices();
    let ghost es = complex.edges();
    let ghost pairs = edge_rows(ids, es);
    let (n_v, n_e, _n_t) = complex.counts();
    let ghost n = n_v as nat;
    if n_v == 0 {
        proof {
            if es.len() > 0 {
                assert(ids.contains(es[0].u));
            }
        }
        return false;
    }
    cache.prepare_union_find(n_v);
    let edges = complex.simplices_of_dim(1);
    let mut k: usize = 0;
    proof {
        assert(pairs.take(0) =~= Seq::<(int, int)>::empty());
    }
    while k < n_e
        invariant
            complex.wf(),
            ids == complex.vertices(),
            es == complex.edges(),
            pairs == edge_rows(ids, es),
            indexes(index@, ids),
            n == n_v,
            n_v == ids.len(),
            n_e == es.len(),
            edges@.len() == n_e,
            forall|j: int| 0 <= j < n_e ==> (#[trigger] edges@[j])@ == seq![es[j].u, es[j].v],
            k <= n_e,
            cache.uf_inv(n),
            forall|x: int, y: int|
                0 <= x < n && 0 <= y < n ==> (#[trigger] cache.roots()[x] == #[trigger] cache.roots()[y])
                    == (comp_labels(n, pairs.take(k as int))[x] == comp_labels(n, pairs.take(k as int))[y]),
            !exists|j: int|
                0 <= j < k && #[trigger] comp_labels(n, pairs.take(j))[pairs[j].0] == comp_labels(
                    n,
                    pairs.take(j),
                )[pairs[j].1],
        decreases n_e - k,
    {
        let pair = &edges[k];
        proof {
            assert(pair@ == seq![es[k as int].u, es[k as int].v]);
        }
        let eu = pair[0];
        let ev = pair[1];
        let pu = lookup_vertex(index, eu.get());
        let pv = lookup_vertex(index, ev.get());
        proof {
            assert(es[k as int].u.raw() < es[k as int].v.raw());
            lemma_vertex_row(index@, ids, eu, pu);
            lemma_vertex_row(index@, ids, ev, pv);
        }
        let u = match pu {
            Some(row) => row,
            None => 0,
        };
        let v = match pv {
            Some(row) => row,
            None => 0,
        };
        let ghost lab = comp_labels(n, pairs.take(k as int));
        let ghost r0 = cache.roots();
        proof {
            lemma_comp_labels_len(n, pairs.take(k as int));
            assert(pairs[k as int] == (u as int, v as int));
        }
        let merged = cache.union(u, v, Ghost(n));
        if !merged {
            proof {
                assert(r0[u as int] == r0[v as int]);
                assert(lab[u as int] == lab[v as int]);
                assert(comp_labels(n, pairs.take(k as int))[pairs[k as int].0] == comp_labels(
                    n,
                    pairs.take(k as int),
                )[pairs[k as int].1]);
            }
            return true;
        }
        proof {
            let tk1 = pairs.take(k as int + 1);
            assert(tk1.drop_last() =~= pairs.take(k as int));
            assert(tk1.last() == pairs[k as int]);
            let lab1 = comp_labels(n, tk1);
            lemma_comp_labels_len(n, tk1);
            assert(lab[u as int] != lab[v as int]);
            assert forall|x: int, y: int|
                0 <= x < n && 0 <= y < n implies (#[trigger] cache.roots()[x] == #[trigger] cache.roots()[y])
                == (lab1[x] == lab1[y]) by {
                assert((r0[x] == r0[y]) == (lab[x] == lab[y]));
                assert((r0[x] == r0[u as int]) == (lab[x] == lab[u as int]));
                assert((r0[y] == r0[v as int]) == (lab[y] == lab[v as int]));
                assert((r0[x] == r0[v as int]) == (lab[x] == lab[v as int]));
                assert((r0[y] == r0[u as int]) == (lab[y] == lab[u as int]));
            }
            assert(!exists|j: int|
                0 <= j < k + 1 && #[trigger] comp_labels(n, pairs.take(j))[pairs[j].0] == comp_labels(
                    n,
                    pairs.take(j),
                )[pairs[j].1]);
        }
        k += 1;
    }
    false
}

/// Cohomology validator over Z₂.
pub struct CohomologyValidator;

/// Result of the H¹ check on a complex: trivially zero without edges or when
/// the 1-skeleton is a forest; otherwise decided by the boundary ranks.
pub open spec fn h1_check(c: &RipsComplex, vanishes: bool) -> bool {
    if c.edges().len() == 0 {
        vanishes
    } else if !closes_cycle(c.vertices().len(), edge_rows(c.vertices(), c.edges())) {
        vanishes
    } else {
        exists|r1: nat, r2: nat| h1_ranks(c, r1, r2, vanishes)
    }
}

impl CohomologyValidator {
    /// Resets memoised H¹ state before a cold-start measurement. The check
    /// here keeps no memo or scratch state between calls, so every call
    /// already starts cold and there is nothing to reset.
    pub fn invalidate_cache() {
    }

    /// Returns `true` if H¹(complex) = 0 (no independent cycles), `false` otherwise.
    pub fn check_h1(complex: &RipsComplex) -> (vanishes: bool)
        requires
            complex.wf(),
            boundaries_fit(complex),
        ensures
            h1_check(complex, vanishes),
    {
        let (_n_v, n_edges, _n_t) = complex.counts();
        if n_edges == 0 {
            return true;
        }
        let index = prepare_vertex_index(complex);
        let mut cache = H1Cache::new();
        if !detect_graph_cycle_incremental(complex, &index, &mut cache) {
            return true;
        }
        check_h1_full(complex)
    }
}


/// Left rotation of a word by `k` bits, `0 < k < 64`.
pub open spec fn rotl(x: u64, k: u64) -> u64 {
    (x << k) | (x >> (64u64 - k) as u64)
}

fn rotate_left(x: u64, k: u64) -> (r: u64)
    requires
        0 < k < 64,
    ensures
        r == rotl(x, k),
{
    (x << k) | (x >> (64u64 - k))
}

/// Seed of the fingerprint mix.
pub const FINGERPRINT_SEED: u64 = 0x9E37_79B9_7F4A_7C15u64;

/// One edge folded into the fingerprint.
pub open spec fn fp_edge_step(acc: u64, e: Edge) -> u64 {
    let k = e.u.raw().wrapping_mul(0xBF58_476D_1CE4_E5B9u64) ^ e.v.raw().wrapping_mul(0x94D0_49BB_1331_11EBu64);
    rotl(acc ^ rotl(k, 17), 13).wrapping_mul(0x9E37_79B9_7F4A_7C15u64)
}

/// One triangle folded into the fingerprint.
pub open spec fn fp_tri_step(acc: u64, t: Triangle) -> u64 {
    let k = t.u.raw().wrapping_mul(0xD6E8_FEB8_6659_FD93u64) ^ t.v.raw().wrapping_mul(0xA5A3_58F4_7A6B_CDEFu64)
        ^ t.w.raw().wrapping_mul(0x8D58_AC26_A2F4_9E27u64);
    rotl(acc ^ rotl(k, 29), 11).wrapping_mul(0x94D0_49BB_1331_11EBu64)
}

/// The edges folded, in order, into `acc`.
pub open spec fn fp_edges(acc: u64, es: Seq<Edge>) -> u64
    decreases es.len(),
{
    if es.len() == 0 {
        acc
    } else {
        fp_edge_step(fp_edges(acc, es.drop_last()), es.last())
    }
}

/// The triangles folded, in order, into `acc`.
pub open spec fn fp_tris(acc: u64, ts: Seq<Triangle>) -> u64
    decreases ts.len(),
{
    if ts.len() == 0 {
        acc
    } else {
        fp_tri_step(fp_tris(acc, ts.drop_last()), ts.last())
    }
}

/// Rolling 64-bit mix over the 1- and 2-simplices of a complex.
pub open spec fn fingerprint(es: Seq<Edge>, ts: Seq<Triangle>) -> u64 {
    fp_tris(fp_edges(FINGERPRINT_SEED, es), ts)
}

/// Rolling 64-bit mix over 1- and 2-simplices, so that a cached result can be
/// told apart from a complex that mutated without changing its counts.
pub fn complex_fingerprint(complex: &RipsComplex) -> (fp: u64)
    ensures
        fp == fingerprint(complex.edges(), complex.triangles()),
{
    let ghost es = complex.edges();
    let ghost ts = complex.triangles();
    let edges = complex.simplices_of_dim(1);
    let tris = complex.simplices_of_dim(2);
    let mut acc = FINGERPRINT_SEED;
    let mut i: usize = 0;
    while i < edges.len()
        invariant
            edges@.len() == es.len(),
            forall|j: int| 0 <= j < es.len() ==> (#[trigger] edges@[j])@ == seq![es[j].u, es[j].v],
            i <= es.len(),
            acc == fp_edges(FINGERPRINT_SEED, es.take(i as int)),
        decreases es.len() - i,
    {
        let e = &edges[i];
        proof {
            assert(e@ == seq![es[i as int].u, es[i as int].v]);
            assert(es.take(i as int + 1).drop_last() =~= es.take(i as int));
            assert(es.take(i as int + 1).last() == es[i as int]);
        }
        let a = e[0].get();
        let b = e[1].get();
        let k = a.wrapping_mul(0xBF58_476D_1CE4_E5B9u64) ^ b.wrapping_mul(0x94D0_49BB_1331_11EBu64);
        acc = acc ^ rotate_left(k, 17);
        acc = rotate_left(acc, 13).wrapping_mul(0x9E37_79B9_7F4A_7C15u64);
        i += 1;
    }
    proof {
        assert(es.take(es.len() as int) =~= es);
    }
    let ghost base = acc;
    let mut i: usize = 0;
    while i < tris.len()
        invariant
            tris@.len() == ts.len(),
            forall|j: int| 0 <= j < ts.len() ==> (#[trigger] tris@[j])@ == seq![ts[j].u, ts[j].v, ts[j].w],
            i <= ts.len(),
            acc == fp_tris(base, ts.take(i as int)),
        decreases ts.len() - i,
    {
        let t = &tris[i];
        proof {
            assert(t@ == seq![ts[i as int].u, ts[i as int].v, ts[i as int].w]);
            assert(ts.take(i as int + 1).drop_last() =~= ts.take(i as int));
            assert(ts.take(i as int + 1).last() == ts[i as int]);
        }
        let a = t[0].get();
        let b = t[1].get();
        let c = t[2].get();
        let k = a.wrapping_mul(0xD6E8_FEB8_6659_FD93u64) ^ b.wrapping_mul(0xA5A3_58F4_7A6B_CDEFu64)
            ^ c.wrapping_mul(0x8D58_AC26_A2F4_9E27u64);
        acc = acc ^ rotate_left(k, 29);
        acc = rotate_left(acc, 11).wrapping_mul(0x94D0_49BB_1331_11EBu64);
        i += 1;
    }
    proof {
        assert(ts.take(ts.len() as int) =~= ts);
    }
    acc
}

/// One xorshift64 step.
pub open spec fn xorshift(s: u64) -> u64 {
    let a = s ^ (s << 13u64);
    let b = a ^ (a >> 7u64);
    b ^ (b << 17u64)
}

/// `k` xorshift64 steps from `s`.
pub open spec fn xorshift_iter(s: u64, k: nat) -> u64
    decreases k,
{
    if k == 0 {
        s
    } else {
        xorshift(xorshift_iter(s, (k - 1) as nat))
    }
}

fn xorshift_step(s: u64) -> (r: u64)
    ensures
        r == xorshift(s),
{
    let mut state = s;
    state ^= state << 13u64;
    state ^= state >> 7u64;
    state ^= state << 17u64;
    state
}

/// The benchmark matrix: entry `(r, c)` is the low bit of the
/// `(r * cols + c + 1)`-th xorshift state from the mixed seed.
pub open spec fn bench_matrix(rows: nat, cols: nat, seed: u64) -> Seq<Seq<bool>> {
    Seq::new(
        rows,
        |r: int|
            Seq::new(
                cols,
                |c: int| xorshift_iter(seed ^ 0x9E37_79B9_7F4A_7C15u64, (r * cols + c + 1) as nat) & 1u64 != 0u64,
            ),
    )
}

/// Benchmark helper: Z₂ Gaussian elimination over a deterministic packed
/// matrix; returns its rank.
pub fn benchmark_rank_by_gaussian_elimination(rows: usize, cols: usize, seed: u64) -> (rank: usize)
    requires
        rows * words_for(cols as int) <= usize::MAX,
    ensures
        rows == 0 || cols == 0 ==> rank == 0,
        is_gf2_rank(bench_matrix(rows as nat, cols as nat, seed), cols as nat, rank as nat),
{
    let ghost target = bench_matrix(rows as nat, cols as nat, seed);
    let ghost s0 = seed ^ 0x9E37_79B9_7F4A_7C15u64;
    if rows == 0 || cols == 0 {
        let mut m = Z2Matrix::new(rows, cols);
        let ghost m0 = m.model();
        let r = m.rank_by_gaussian_elimination();
        proof {
            m.lemma_model_shape();
            assert forall|r: int| 0 <= r < rows implies #[trigger] m0[r] =~= target[r] by {}
            assert(m0 =~= target);
            let piv = choose|piv: Seq<int>| reduced_echelon(m.model(), cols as nat, r as nat, piv);
            assert(reduced_echelon(m.model(), cols as nat, r as nat, piv));
        }
        return 0;
    }
    let mut matrix = Z2Matrix::new(rows, cols);
    let mut state = seed ^ 0x9E37_79B9_7F4A_7C15u64;
    let mut row: usize = 0;
    while row < rows
        invariant
            0 < cols,
            row <= rows,
            matrix.wf(),
            matrix.spec_rows() == rows,
            matrix.spec_cols() == cols,
            s0 == seed ^ 0x9E37_79B9_7F4A_7C15u64,
            state == xorshift_iter(s0, (row * cols) as nat),
            forall|r: int, c: int|
                0 <= r < rows && 0 <= c < cols ==> #[trigger] matrix.model()[r][c] == (r < row && target[r][c]),
            target == bench_matrix(rows as nat, cols as nat, seed),
        decreases rows - row,
    {
        let mut col: usize = 0;
        while col < cols
            invariant
                0 < cols,
                row < rows,
                col <= cols,
                matrix.wf(),
                matrix.spec_rows() == rows,
                matrix.spec_cols() == cols,
                s0 == seed ^ 0x9E37_79B9_7F4A_7C15u64,
                state == xorshift_iter(s0, (row * cols + col) as nat),
                forall|r: int, c: int|
                    0 <= r < rows && 0 <= c < cols ==> #[trigger] matrix.model()[r][c] == ((r < row || (r == row
                        && c < col)) && target[r][c]),
                target == bench_matrix(rows as nat, cols as nat, seed),
            decreases cols - col,
        {
            state = xorshift_step(state);
            let ghost m0 = matrix.model();
            proof {
                matrix.lemma_model_shape();
                assert(0 <= row * cols + col);
                assert(state == xorshift_iter(s0, (row * cols + col + 1) as nat));
                assert(target[row as int][col as int] == (state & 1u64 != 0u64));
            }
            if (state & 1) != 0 {
                matrix.set(row, col, true);
            }
            proof {
                matrix.lemma_model_shape();
                assert forall|r: int, c: int| 0 <= r < rows && 0 <= c < cols implies #[trigger] matrix.model()[r][c]
                    == ((r < row || (r == row && c < col + 1)) && target[r][c]) by {
                    assert(m0[r][c] == ((r < row || (r == row && c < col)) && target[r][c]));
                }
            }
            col += 1;
        }
        proof {
            assert((row + 1) * cols == row * cols + cols) by (nonlinear_arith);
        }
        row += 1;
    }
    let ghost m0 = matrix.model();
    proof {
        matrix.lemma_model_shape();
        assert forall|r: int| 0 <= r < rows implies #[trigger] m0[r] =~= target[r] by {}
        assert(m0 =~= target);
    }
    let rank = matrix.rank_by_gaussian_elimination();
    proof {
        matrix.lemma_model_shape();
        let piv = choose|piv: Seq<int>| reduced_echelon(matrix.model(), cols as nat, rank as nat, piv);
        assert(reduced_echelon(matrix.model(), cols as nat, rank as nat, piv));
    }
    rank
}

/// XOR of all words of `s`.
pub open spec fn xor_fold(s: Seq<u64>) -> u64
    decreases s.len(),
{
    if s.len() == 0 {
        0
    } else {
        xor_fold(s.drop_last()) ^ s.last()
    }
}

/// Word `w` of the row XOR benchmark after `iterations` eliminations: the
/// destination word, XORed with the pivot word when `iterations` is odd.
pub open spec fn bench_xor_word(seed: u64, w: int, iterations: nat) -> u64 {
    let s0 = seed ^ 0x94D0_49BB_1331_11EBu64;
    let dst = xorshift_iter(s0, (2 * w + 1) as nat);
    let pivot = rotl(xorshift_iter(s0, (2 * w + 2) as nat), 11);
    if iterations % 2 == 1 {
        dst ^ pivot
    } else {
        dst
    }
}

/// Benchmark helper for row XOR elimination over packed Z₂ rows; returns the
/// XOR of the resulting words.
pub fn benchmark_xor_row_elimination(words_per_row: usize, iterations: usize, seed: u64) -> (r: u64)
    ensures
        r == if words_per_row == 0 || iterations == 0 {
            0
        } else {
            xor_fold(Seq::new(words_per_row as nat, |w: int| bench_xor_word(seed, w, iterations as nat)))
        },
{
    if words_per_row == 0 || iterations == 0 {
        return 0;
    }
    let ghost s0 = seed ^ 0x94D0_49BB_1331_11EBu64;
    let mut state = seed ^ 0x94D0_49BB_1331_11EBu64;
    let mut dst: Vec<u64> = Vec::new();
    let mut pivot: Vec<u64> = Vec::new();
    let mut word: usize = 0;
    while word < words_per_row
        invariant
            word <= words_per_row,
            s0 == seed ^ 0x94D0_49BB_1331_11EBu64,
            state == xorshift_iter(s0, (2 * word) as nat),
            dst@.len() == word,
            pivot@.len() == word,
            forall|w: int| 0 <= w < word ==> #[trigger] dst@[w] == xorshift_iter(s0, (2 * w + 1) as nat),
            forall|w: int| 0 <= w < word ==> #[trigger] pivot@[w] == rotl(xorshift_iter(s0, (2 * w + 2) as nat), 11),
        decreases words_per_row - word,
    {
        state = xorshift_step(state);
        proof {
            assert(state == xorshift_iter(s0, (2 * word + 1) as nat));
        }
        dst.push(state);
        state = xorshift_step(state);
        proof {
            assert(state == xorshift_iter(s0, (2 * word + 2) as nat));
        }
        pivot.push(rotate_left(state, 11));
        word += 1;
    }
    let ghost d0 = dst@;
    let mut it: usize = 0;
    while it < iterations
        invariant
            it <= iterations,
            dst@.len() == words_per_row,
            pivot@.len() == words_per_row,
            forall|w: int|
                0 <= w < words_per_row ==> #[trigger] dst@[w] == if it % 2 == 1 {
                    d0[w] ^ pivot@[w]
                } else {
                    d0[w]
                },
        decreases iterations - it,
    {
        let ghost before = dst@;
        xor_row_scalar(&mut dst, 0, pivot.as_slice(), 0, words_per_row);
        proof {
            assert forall|w: int| 0 <= w < words_per_row implies #[trigger] dst@[w] == if (it + 1) % 2 == 1 {
                d0[w] ^ pivot@[w]
            } else {
                d0[w]
            } by {
                let a = d0[w];
                let p = pivot@[w];
                assert((a ^ p) ^ p == a) by (bit_vector);
            }
        }
        it += 1;
    }
    let ghost target = Seq::new(words_per_row as nat, |w: int| bench_xor_word(seed, w, iterations as nat));
    let mut acc: u64 = 0;
    let mut w: usize = 0;
    while w < words_per_row
        invariant
            w <= words_per_row,
            dst@.len() == words_per_row,
            target.len() == words_per_row,
            forall|j: int| 0 <= j < words_per_row ==> #[trigger] dst@[j] == target[j],
            acc == xor_fold(target.take(w as int)),
        decreases words_per_row - w,
    {
        proof {
            assert(target.take(w as int + 1).drop_last() =~= target.take(w as int));
        }
        acc = acc ^ dst[w];
        w += 1;
    }
    proof {
        assert(target.take(words_per_row as int) =~= target);
    }
    acc
}

} // verus!
