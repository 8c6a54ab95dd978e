//! Cyclic products and product carries of a matrix with short vectors.
//!
//! One coefficient matrix serves two products: the B rows, its products with
//! digit vectors modulo `X^D - 1`, and the A rows, the carries of its products
//! with centered vectors. A matrix entry is read either from a list of ring
//! elements or from two prepared lists, one for each modulus, that hold
//! prefixes of the same matrix. Long products are cut into chunks whose sums
//! the transform arithmetic can hold; the cut does not show in the result.

use crate::checked;
use crate::cyclic;
use crate::cyclic::{add_cyclic_product_into, half, quotient_from_cyclic_and_negacyclic};
use crate::cyclotomic;
use crate::cyclotomic::CyclotomicRing;
use crate::error::{message, AkitaError};
use crate::field::Field;
use crate::parallel::par_map_range;
use crate::ring_lemmas as rl;
use crate::text;
use crate::text::{push_decimal, push_text};
use vstd::prelude::*;

verus! {

// ---------------------------------------------------------------------------
// Model
// ---------------------------------------------------------------------------

/// A digit vector as a ring element.
pub open spec fn lift8<F: Field>(row: Seq<i8>) -> Seq<F> {
    Seq::new(row.len(), |k: int| F::of_int(row[k] as int))
}

/// A centered vector as a ring element.
pub open spec fn lift32<F: Field>(row: Seq<i32>) -> Seq<F> {
    Seq::new(row.len(), |k: int| F::of_int(row[k] as int))
}

/// The terms of coefficient `k` of a B row whose entries start at `start`.
pub open spec fn b_terms<F: Field, const D: usize>(
    matrix: spec_fn(int) -> Seq<F>,
    t: Seq<[i8; D]>,
    start: int,
    k: int,
) -> spec_fn(int) -> F {
    |j: int| cyclic::cyclic_coeff(matrix(start + j), lift8(t[j]@), k)
}

/// The terms of coefficient `k` of an A row modulo `X^D - 1`.
pub open spec fn a_cyclic_terms<F: Field, const D: usize>(
    matrix: spec_fn(int) -> Seq<F>,
    z: Seq<[i32; D]>,
    start: int,
    k: int,
) -> spec_fn(int) -> F {
    |j: int| cyclic::cyclic_coeff(matrix(start + j), lift32(z[j]@), k)
}

/// The terms of coefficient `k` of an A row modulo `X^D + 1`.
pub open spec fn a_negacyclic_terms<F: Field, const D: usize>(
    matrix: spec_fn(int) -> Seq<F>,
    z: Seq<[i32; D]>,
    start: int,
    k: int,
) -> spec_fn(int) -> F {
    |j: int| cyclotomic::product_coeff(matrix(start + j), lift32(z[j]@), k)
}

/// The terms of coefficient `k` of the carry of an A row.
pub open spec fn a_terms<F: Field, const D: usize>(
    matrix: spec_fn(int) -> Seq<F>,
    z: Seq<[i32; D]>,
    start: int,
    k: int,
) -> spec_fn(int) -> F {
    |j: int| cyclic::carry_coeff(matrix(start + j), lift32(z[j]@), k)
}

/// Terms by row and coefficient.
pub type RowTerms<F> = spec_fn(int, int) -> spec_fn(int) -> F;

pub open spec fn b_row_terms<F: Field, const D: usize>(
    matrix: spec_fn(int) -> Seq<F>,
    t: Seq<[i8; D]>,
    width: int,
) -> RowTerms<F> {
    |row: int, k: int| b_terms(matrix, t, row * width, k)
}

pub open spec fn a_cyclic_row_terms<F: Field, const D: usize>(
    matrix: spec_fn(int) -> Seq<F>,
    z: Seq<[i32; D]>,
    width: int,
) -> RowTerms<F> {
    |row: int, k: int| a_cyclic_terms(matrix, z, row * width, k)
}

pub open spec fn a_negacyclic_row_terms<F: Field, const D: usize>(
    matrix: spec_fn(int) -> Seq<F>,
    z: Seq<[i32; D]>,
    width: int,
) -> RowTerms<F> {
    |row: int, k: int| a_negacyclic_terms(matrix, z, row * width, k)
}

pub open spec fn a_row_terms<F: Field, const D: usize>(
    matrix: spec_fn(int) -> Seq<F>,
    z: Seq<[i32; D]>,
    width: int,
) -> RowTerms<F> {
    |row: int, k: int| a_terms(matrix, z, row * width, k)
}

/// Whether ring elements hold the sums of terms `lo..hi`, row by row.
pub open spec fn holds_sums<F: Field, const D: usize>(
    rows: Seq<CyclotomicRing<F, D>>,
    terms: RowTerms<F>,
    num_rows: int,
    lo: int,
    hi: int,
) -> bool {
    &&& rows.len() == num_rows
    &&& forall|r: int, k: int|
        0 <= r < num_rows && 0 <= k < D ==> #[trigger] rows[r]@[k] == rl::sum_range(
            terms(r, k),
            lo,
            hi,
        )
}

// ---------------------------------------------------------------------------
// Matrix sources
// ---------------------------------------------------------------------------

/// The matrix that two prepared prefixes come from.
pub open spec fn prepared_matrix<F: Field, const D: usize>(
    negacyclic: Seq<CyclotomicRing<F, D>>,
    cyclic: Seq<CyclotomicRing<F, D>>,
) -> spec_fn(int) -> Seq<F> {
    |i: int|
        if i < cyclic.len() {
            cyclic[i]@
        } else {
            negacyclic[i]@
        }
}

/// A list of ring elements as a matrix.
pub open spec fn field_matrix<F: Field, const D: usize>(
    matrix: Seq<CyclotomicRing<F, D>>,
) -> spec_fn(int) -> Seq<F> {
    |i: int| matrix[i]@
}

/// Whether two prepared prefixes come from one matrix.
pub open spec fn one_matrix<F: Field, const D: usize>(
    negacyclic: Seq<CyclotomicRing<F, D>>,
    cyclic: Seq<CyclotomicRing<F, D>>,
) -> bool {
    forall|i: int|
        0 <= i < cyclic.len() && i < negacyclic.len() ==> (#[trigger] cyclic[i])@ == negacyclic[i]@
}

/// Where matrix entries are read.
pub enum FusedMatrixSource<'a, F: Field, const D: usize> {
    /// From two prepared prefixes of one matrix.
    Cached {
        negacyclic: &'a Vec<CyclotomicRing<F, D>>,
        cyclic: &'a Vec<CyclotomicRing<F, D>>,
    },
    /// From the matrix itself.
    Field(&'a Vec<CyclotomicRing<F, D>>),
}

impl<'a, F: Field, const D: usize> FusedMatrixSource<'a, F, D> {
    /// The length that products modulo `X^D - 1` can reach.
    pub open spec fn cyclic_len(self) -> nat {
        match self {
            FusedMatrixSource::Cached { cyclic, .. } => cyclic@.len(),
            FusedMatrixSource::Field(matrix) => matrix@.len(),
        }
    }

    /// The length that products modulo `X^D + 1` can reach.
    pub open spec fn negacyclic_len(self) -> nat {
        match self {
            FusedMatrixSource::Cached { negacyclic, .. } => negacyclic@.len(),
            FusedMatrixSource::Field(matrix) => matrix@.len(),
        }
    }

    /// The matrix that entries are read from.
    pub open spec fn matrix(self) -> spec_fn(int) -> Seq<F> {
        match self {
            FusedMatrixSource::Cached { negacyclic, cyclic } => prepared_matrix(
                negacyclic@,
                cyclic@,
            ),
            FusedMatrixSource::Field(matrix) => field_matrix(matrix@),
        }
    }

    /// Whether both prepared prefixes come from one matrix.
    pub open spec fn wf(self) -> bool {
        match self {
            FusedMatrixSource::Cached { negacyclic, cyclic } => one_matrix(negacyclic@, cyclic@),
            FusedMatrixSource::Field(_) => true,
        }
    }

    /// An entry for a product modulo `X^D - 1`.
    fn cyclic_entry(&self, index: usize) -> (r: &CyclotomicRing<F, D>)
        requires
            index < self.cyclic_len(),
        ensures
            r@ == (self.matrix())(index as int),
    {
        match self {
            FusedMatrixSource::Cached { cyclic, .. } => &cyclic[index],
            FusedMatrixSource::Field(matrix) => &matrix[index],
        }
    }

    /// An entry for a product modulo `X^D + 1`.
    fn negacyclic_entry(&self, index: usize) -> (r: &CyclotomicRing<F, D>)
        requires
            index < self.negacyclic_len(),
            self.wf(),
        ensures
            r@ == (self.matrix())(index as int),
    {
        match self {
            FusedMatrixSource::Cached { negacyclic, cyclic } => {
                proof {
                    if index < cyclic@.len() {
                        assert(cyclic@[index as int]@ == negacyclic@[index as int]@);
                    }
                }
                &negacyclic[index]
            },
            FusedMatrixSource::Field(matrix) => &matrix[index],
        }
    }
}

// ---------------------------------------------------------------------------
// Vectors
// ---------------------------------------------------------------------------

/// A digit vector as a ring element, with whether it is zero.
fn lift_digits<F: Field, const D: usize>(row: &[i8; D]) -> (r: (CyclotomicRing<F, D>, bool))
    ensures
        r.0@ == lift8::<F>(row@),
        r.1 ==> forall|k: int| 0 <= k < D ==> #[trigger] r.0@[k] == F::zero_spec(),
{
    let mut out = [F::zero();D];
    let mut zero: bool = true;
    let mut k: usize = 0;
    while k < D
        invariant
            k <= D,
            forall|i: int| 0 <= i < k ==> #[trigger] out@[i] == F::of_int(row@[i] as int),
            zero ==> forall|i: int| 0 <= i < k ==> #[trigger] out@[i] == F::zero_spec(),
        decreases D - k,
    {
        if row[k] != 0 {
            zero = false;
        }
        proof {
            F::law_of_int(0, 0);
        }
        out[k] = F::from_i64(row[k] as i64);
        k += 1;
    }
    let r = CyclotomicRing { coeffs: out };
    assert(r@ =~= lift8::<F>(row@));
    (r, zero)
}

/// A centered vector as a ring element.
pub fn centered_i32_ring<F: Field, const D: usize>(coeffs: &[i32; D]) -> (r: CyclotomicRing<F, D>)
    ensures
        r@ == lift32::<F>(coeffs@),
{
    let mut out = [F::zero();D];
    let mut k: usize = 0;
    while k < D
        invariant
            k <= D,
            forall|i: int| 0 <= i < k ==> #[trigger] out@[i] == F::of_int(coeffs@[i] as int),
        decreases D - k,
    {
        out[k] = F::from_i64(coeffs[k] as i64);
        k += 1;
    }
    let r = CyclotomicRing { coeffs: out };
    assert(r@ =~= lift32::<F>(coeffs@));
    r
}

/// Whether a centered vector is zero.
fn is_zero_centered_row<const D: usize>(row: &[i32; D]) -> (b: bool)
    ensures
        b == forall|k: int| 0 <= k < D ==> #[trigger] row@[k] == 0,
{
    let mut k: usize = 0;
    while k < D
        invariant
            k <= D,
            forall|i: int| 0 <= i < k ==> #[trigger] row@[i] == 0,
        decreases D - k,
    {
        if row[k] != 0 {
            assert(row@[k as int] != 0);
            return false;
        }
        k += 1;
    }
    true
}

/// The lift of a zero vector is zero.
pub proof fn lemma_lift_zero<F: Field>(row: Seq<i32>)
    requires
        forall|k: int| 0 <= k < row.len() ==> #[trigger] row[k] == 0,
    ensures
        forall|k: int| 0 <= k < row.len() ==> #[trigger] lift32::<F>(row)[k] == F::zero_spec(),
{
    F::law_of_int(0, 0);
    assert forall|k: int| 0 <= k < row.len() implies #[trigger] lift32::<F>(row)[k]
        == F::zero_spec() by {
        assert(row[k] == 0);
    }
}

// ---------------------------------------------------------------------------
// Sums over a range of columns
// ---------------------------------------------------------------------------

/// Rows of zeros.
pub fn zero_rows<F: Field, const D: usize>(num_rows: usize) -> (r: Vec<CyclotomicRing<F, D>>)
    ensures
        r@.len() == num_rows,
        forall|i: int, k: int|
            0 <= i < num_rows && 0 <= k < D ==> #[trigger] r@[i]@[k] == F::zero_spec(),
{
    let mut rows: Vec<CyclotomicRing<F, D>> = Vec::new();
    let mut i: usize = 0;
    while i < num_rows
        invariant
            i <= num_rows,
            rows@.len() == i,
            forall|r: int, k: int|
                0 <= r < i && 0 <= k < D ==> #[trigger] rows@[r]@[k] == F::zero_spec(),
        decreases num_rows - i,
    {
        rows.push(CyclotomicRing::zero());
        i += 1;
    }
    rows
}

/// An accumulation into a sum is the next sum.
proof fn lemma_next_sum<F: Field>(f: spec_fn(int) -> F, lo: int, j: int, before: F, after: F)
    requires
        lo <= j,
        before == rl::sum_range(f, lo, j),
        cyclotomic::accumulated(before, after, f(j)),
    ensures
        after == rl::sum_range(f, lo, j + 1),
{
    rl::lemma_sum_reduced(f, lo, j);
}

/// A zero term leaves a sum as it is.
proof fn lemma_skip_sum<F: Field>(f: spec_fn(int) -> F, lo: int, j: int)
    requires
        lo <= j,
        f(j) == F::zero_spec(),
    ensures
        rl::sum_range(f, lo, j + 1) == rl::sum_range(f, lo, j),
{
    rl::lemma_sum_reduced(f, lo, j);
}

/// The B rows over columns `lo..hi`.
fn cyclic_columns<F: Field, const D: usize>(
    source: &FusedMatrixSource<'_, F, D>,
    t_hat: &[[i8; D]],
    num_rows: usize,
    width: usize,
    lo: usize,
    hi: usize,
) -> (r: Vec<CyclotomicRing<F, D>>)
    requires
        lo <= hi <= width,
        width <= t_hat@.len(),
        num_rows * width <= source.cyclic_len(),
        num_rows * width <= usize::MAX,
    ensures
        holds_sums(
            r@,
            b_row_terms(source.matrix(), t_hat@, width as int),
            num_rows as int,
            lo as int,
            hi as int,
        ),
{
    let ghost terms = b_row_terms(source.matrix(), t_hat@, width as int);
    let mut accs = zero_rows::<F, D>(num_rows);
    let mut j: usize = lo;
    while j < hi
        invariant
            lo <= j <= hi,
            hi <= width,
            width <= t_hat@.len(),
            num_rows * width <= source.cyclic_len(),
            num_rows * width <= usize::MAX,
            terms == b_row_terms(source.matrix(), t_hat@, width as int),
            holds_sums(accs@, terms, num_rows as int, lo as int, j as int),
        decreases hi - j,
    {
        let (digits, zero): (CyclotomicRing<F, D>, bool) = lift_digits(&t_hat[j]);
        if zero {
            proof {
                assert forall|r: int, k: int|
                    0 <= r < num_rows && 0 <= k < D implies #[trigger] accs@[r]@[k]
                    == rl::sum_range(terms(r, k), lo as int, j + 1) by {
                    cyclic::lemma_cyclic_zero((source.matrix())(r * width + j), digits@, k);
                    lemma_skip_sum(terms(r, k), lo as int, j as int);
                }
            }
        } else {
            let mut row: usize = 0;
            while row < num_rows
                invariant
                    row <= num_rows,
                    lo <= j < hi,
                    hi <= width,
                    num_rows * width <= source.cyclic_len(),
                    num_rows * width <= usize::MAX,
                    digits@ == lift8::<F>(t_hat@[j as int]@),
                    terms == b_row_terms(source.matrix(), t_hat@, width as int),
                    accs@.len() == num_rows,
                    forall|r: int, k: int|
                        0 <= r < num_rows && 0 <= k < D ==> #[trigger] accs@[r]@[k]
                            == rl::sum_range(
                            terms(r, k),
                            lo as int,
                            if r < row {
                                j + 1
                            } else {
                                j as int
                            },
                        ),
                decreases num_rows - row,
            {
                proof {
                    lemma_index_fits(row as int, num_rows as int, width as int, j as int);
                }
                let mut acc = accs[row];
                let ghost before = acc@;
                add_cyclic_product_into(&mut acc, source.cyclic_entry(row * width + j), &digits);
                proof {
                    assert forall|k: int| 0 <= k < D implies #[trigger] acc@[k] == rl::sum_range(
                        terms(row as int, k),
                        lo as int,
                        j + 1,
                    ) by {
                        assert(accs@[row as int]@[k] == before[k]);
                        lemma_next_sum(
                            terms(row as int, k),
                            lo as int,
                            j as int,
                            before[k],
                            acc@[k],
                        );
                    }
                }
                accs.set(row, acc);
                row += 1;
            }
        }
        j += 1;
    }
    accs
}

/// An entry's place in a packed matrix.
pub proof fn lemma_index_fits(row: int, num_rows: int, width: int, j: int)
    requires
        0 <= row < num_rows,
        0 <= j < width,
    ensures
        0 <= row * width,
        row * width + j < num_rows * width,
{
    assert(row * width + width <= num_rows * width) by (nonlinear_arith)
        requires
            0 <= row < num_rows,
            0 <= width,
    ;
    assert(0 <= row * width) by (nonlinear_arith)
        requires
            0 <= row,
            0 <= width,
    ;
}

/// The A rows over columns `lo..hi`, modulo `X^D + 1` and modulo `X^D - 1`.
pub fn pair_columns<F: Field, const D: usize>(
    source: &FusedMatrixSource<'_, F, D>,
    z: &[[i32; D]],
    num_rows: usize,
    width: usize,
    lo: usize,
    hi: usize,
) -> (r: (Vec<CyclotomicRing<F, D>>, Vec<CyclotomicRing<F, D>>))
    requires
        source.wf(),
        lo <= hi <= width,
        width <= z@.len(),
        num_rows * width <= source.cyclic_len(),
        num_rows * width <= source.negacyclic_len(),
        num_rows * width <= usize::MAX,
    ensures
        holds_sums(
            r.0@,
            a_negacyclic_row_terms(source.matrix(), z@, width as int),
            num_rows as int,
            lo as int,
            hi as int,
        ),
        holds_sums(
            r.1@,
            a_cyclic_row_terms(source.matrix(), z@, width as int),
            num_rows as int,
            lo as int,
            hi as int,
        ),
{
    let ghost neg_terms = a_negacyclic_row_terms(source.matrix(), z@, width as int);
    let ghost cyc_terms = a_cyclic_row_terms(source.matrix(), z@, width as int);
    let mut neg_accs = zero_rows::<F, D>(num_rows);
    let mut cyc_accs = zero_rows::<F, D>(num_rows);
    let mut j: usize = lo;
    while j < hi
        invariant
            source.wf(),
            lo <= j <= hi,
            hi <= width,
            width <= z@.len(),
            num_rows * width <= source.cyclic_len(),
            num_rows * width <= source.negacyclic_len(),
            num_rows * width <= usize::MAX,
            neg_terms == a_negacyclic_row_terms(source.matrix(), z@, width as int),
            cyc_terms == a_cyclic_row_terms(source.matrix(), z@, width as int),
            holds_sums(neg_accs@, neg_terms, num_rows as int, lo as int, j as int),
            holds_sums(cyc_accs@, cyc_terms, num_rows as int, lo as int, j as int),
        decreases hi - j,
    {
        let centered = centered_i32_ring::<F, D>(&z[j]);
        if is_zero_centered_row(&z[j]) {
            proof {
                lemma_lift_zero::<F>(z@[j as int]@);
                assert forall|r: int, k: int|
                    0 <= r < num_rows && 0 <= k < D implies #[trigger] neg_accs@[r]@[k]
                    == rl::sum_range(neg_terms(r, k), lo as int, j + 1) by {
                    cyclic::lemma_negacyclic_zero(
                        (source.matrix())(r * width + j),
                        centered@,
                        k,
                    );
                    lemma_skip_sum(neg_terms(r, k), lo as int, j as int);
                }
                assert forall|r: int, k: int|
                    0 <= r < num_rows && 0 <= k < D implies #[trigger] cyc_accs@[r]@[k]
                    == rl::sum_range(cyc_terms(r, k), lo as int, j + 1) by {
                    cyclic::lemma_cyclic_zero((source.matrix())(r * width + j), centered@, k);
                    lemma_skip_sum(cyc_terms(r, k), lo as int, j as int);
                }
            }
        } else {
            let mut row: usize = 0;
            while row < num_rows
                invariant
                    source.wf(),
                    row <= num_rows,
                    lo <= j < hi,
                    hi <= width,
                    num_rows * width <= source.cyclic_len(),
                    num_rows * width <= source.negacyclic_len(),
                    num_rows * width <= usize::MAX,
                    centered@ == lift32::<F>(z@[j as int]@),
                    neg_terms == a_negacyclic_row_terms(source.matrix(), z@, width as int),
                    cyc_terms == a_cyclic_row_terms(source.matrix(), z@, width as int),
                    neg_accs@.len() == num_rows,
                    cyc_accs@.len() == num_rows,
                    forall|r: int, k: int|
                        0 <= r < num_rows && 0 <= k < D ==> #[trigger] neg_accs@[r]@[k]
                            == rl::sum_range(
                            neg_terms(r, k),
                            lo as int,
                            if r < row {
                                j + 1
                            } else {
                                j as int
                            },
                        ),
                    forall|r: int, k: int|
                        0 <= r < num_rows && 0 <= k < D ==> #[trigger] cyc_accs@[r]@[k]
                            == rl::sum_range(
                            cyc_terms(r, k),
                            lo as int,
                            if r < row {
                                j + 1
                            } else {
                                j as int
                            },
                        ),
                decreases num_rows - row,
            {
                proof {
                    lemma_index_fits(row as int, num_rows as int, width as int, j as int);
                }
                let index: usize = row * width + j;
                let mut neg_acc = neg_accs[row];
                let ghost neg_before = neg_acc@;
                source.negacyclic_entry(index).mul_accumulate_into(&centered, &mut neg_acc);
                let mut cyc_acc = cyc_accs[row];
                let ghost cyc_before = cyc_acc@;
                add_cyclic_product_into(&mut cyc_acc, source.cyclic_entry(index), &centered);
                proof {
                    assert forall|k: int| 0 <= k < D implies #[trigger] neg_acc@[k]
                        == rl::sum_range(neg_terms(row as int, k), lo as int, j + 1) by {
                        assert(neg_accs@[row as int]@[k] == neg_before[k]);
                        lemma_next_sum(
                            neg_terms(row as int, k),
                            lo as int,
                            j as int,
                            neg_before[k],
                            neg_acc@[k],
                        );
                    }
                    assert forall|k: int| 0 <= k < D implies #[trigger] cyc_acc@[k]
                        == rl::sum_range(cyc_terms(row as int, k), lo as int, j + 1) by {
                        assert(cyc_accs@[row as int]@[k] == cyc_before[k]);
                        lemma_next_sum(
                            cyc_terms(row as int, k),
                            lo as int,
                            j as int,
                            cyc_before[k],
                            cyc_acc@[k],
                        );
                    }
                }
                neg_accs.set(row, neg_acc);
                cyc_accs.set(row, cyc_acc);
                row += 1;
            }
        }
        j += 1;
    }
    (neg_accs, cyc_accs)
}

/// The sums of carries, from the sums of both products.
fn quotient_rows<F: Field, const D: usize>(
    neg: &Vec<CyclotomicRing<F, D>>,
    cyc: &Vec<CyclotomicRing<F, D>>,
    one_half: F,
    Ghost(matrix): Ghost<spec_fn(int) -> Seq<F>>,
    Ghost(z): Ghost<Seq<[i32; D]>>,
    Ghost(num_rows): Ghost<int>,
    Ghost(width): Ghost<int>,
    Ghost(lo): Ghost<int>,
    Ghost(hi): Ghost<int>,
) -> (r: Vec<CyclotomicRing<F, D>>)
    requires
        cyclic::is_half(one_half),
        0 <= lo <= hi <= width,
        num_rows >= 0,
        forall|i: int| 0 <= i < num_rows * width ==> (#[trigger] matrix(i)).len() == D,
        holds_sums(neg@, a_negacyclic_row_terms(matrix, z, width), num_rows, lo, hi),
        holds_sums(cyc@, a_cyclic_row_terms(matrix, z, width), num_rows, lo, hi),
    ensures
        holds_sums(r@, a_row_terms(matrix, z, width), num_rows, lo, hi),
{
    let ghost neg_terms = a_negacyclic_row_terms(matrix, z, width);
    let ghost cyc_terms = a_cyclic_row_terms(matrix, z, width);
    let ghost terms = a_row_terms(matrix, z, width);
    let mut rows: Vec<CyclotomicRing<F, D>> = Vec::new();
    let mut row: usize = 0;
    while row < neg.len()
        invariant
            cyclic::is_half(one_half),
            0 <= lo <= hi <= width,
            row <= num_rows,
            neg@.len() == num_rows,
            rows@.len() == row,
            forall|i: int| 0 <= i < num_rows * width ==> (#[trigger] matrix(i)).len() == D,
            neg_terms == a_negacyclic_row_terms(matrix, z, width),
            cyc_terms == a_cyclic_row_terms(matrix, z, width),
            terms == a_row_terms(matrix, z, width),
            holds_sums(neg@, neg_terms, num_rows, lo, hi),
            holds_sums(cyc@, cyc_terms, num_rows, lo, hi),
            forall|r: int, k: int|
                0 <= r < row && 0 <= k < D ==> #[trigger] rows@[r]@[k] == rl::sum_range(
                    terms(r, k),
                    lo,
                    hi,
                ),
        decreases num_rows - row,
    {
        let quotient = quotient_from_cyclic_and_negacyclic(&cyc[row], &neg[row], one_half);
        proof {
            let r = row as int;
            assert forall|k: int| 0 <= k < D implies #[trigger] quotient@[k] == rl::sum_range(
                terms(r, k),
                lo,
                hi,
            ) by {
                assert(neg@[r]@[k] == rl::sum_range(neg_terms(r, k), lo, hi));
                assert(cyc@[r]@[k] == rl::sum_range(cyc_terms(r, k), lo, hi));
                let carry = terms(r, k);
                let twice = |j: int| carry(j) + carry(j);
                assert forall|j: int| lo <= j < hi implies #[trigger] cyc_terms(r, k)(j)
                    == neg_terms(r, k)(j) + twice(j) by {
                    lemma_index_fits(r, num_rows, width, j);
                    assert(matrix(r * width + j).len() == D);
                    cyclic::law_products_differ_by_carries(
                        matrix(r * width + j),
                        lift32(z[j]@),
                        k,
                    );
                }
                rl::lemma_sum_add(neg_terms(r, k), twice, cyc_terms(r, k), lo, hi);
                rl::lemma_sum_add(carry, carry, twice, lo, hi);
                rl::lemma_sum_reduced(carry, lo, hi);
                cyclic::lemma_half_difference(
                    cyc@[r]@[k],
                    neg@[r]@[k],
                    rl::sum_range(carry, lo, hi),
                    one_half,
                );
            }
        }
        rows.push(quotient);
        row += 1;
    }
    rows
}

/// Whether lists of ring elements hold the sums over consecutive ranges.
pub open spec fn ranges_hold<F: Field, const D: usize>(
    partials: Seq<Vec<CyclotomicRing<F, D>>>,
    terms: RowTerms<F>,
    num_rows: int,
    cut: spec_fn(int) -> int,
) -> bool {
    forall|p: int|
        0 <= p < partials.len() ==> cut(p) <= cut(p + 1) && holds_sums(
            (#[trigger] partials[p])@,
            terms,
            num_rows,
            cut(p),
            cut(p + 1),
        )
}

/// The sum of sums over consecutive ranges of columns.
fn add_ranges<F: Field, const D: usize>(
    partials: &Vec<Vec<CyclotomicRing<F, D>>>,
    num_rows: usize,
    Ghost(terms): Ghost<RowTerms<F>>,
    Ghost(cut): Ghost<spec_fn(int) -> int>,
) -> (r: Vec<CyclotomicRing<F, D>>)
    requires
        ranges_hold(partials@, terms, num_rows as int, cut),
    ensures
        holds_sums(r@, terms, num_rows as int, cut(0), cut(partials@.len() as int)),
{
    let mut total = zero_rows::<F, D>(num_rows);
    let mut p: usize = 0;
    while p < partials.len()
        invariant
            p <= partials@.len(),
            ranges_hold(partials@, terms, num_rows as int, cut),
            cut(0) <= cut(p as int),
            holds_sums(total@, terms, num_rows as int, cut(0), cut(p as int)),
        decreases partials@.len() - p,
    {
        let partial = &partials[p];
        assert(holds_sums(partials@[p as int]@, terms, num_rows as int, cut(p as int), cut(p + 1)));
        let mut row: usize = 0;
        while row < num_rows
            invariant
                row <= num_rows,
                cut(0) <= cut(p as int) <= cut(p + 1),
                holds_sums(partial@, terms, num_rows as int, cut(p as int), cut(p + 1)),
                total@.len() == num_rows,
                forall|r: int, k: int|
                    0 <= r < num_rows && 0 <= k < D ==> #[trigger] total@[r]@[k] == rl::sum_range(
                        terms(r, k),
                        cut(0),
                        if r < row {
                            cut(p + 1)
                        } else {
                            cut(p as int)
                        },
                    ),
            decreases num_rows - row,
        {
            let mut acc = total[row];
            let ghost before = acc@;
            acc.add_assign(&partial[row]);
            proof {
                let r = row as int;
                assert forall|k: int| 0 <= k < D implies #[trigger] acc@[k] == rl::sum_range(
                    terms(r, k),
                    cut(0),
                    cut(p + 1),
                ) by {
                    assert(total@[r]@[k] == before[k]);
                    assert(partial@[r]@[k] == rl::sum_range(terms(r, k), cut(p as int), cut(p + 1)));
                    rl::lemma_sum_split(terms(r, k), cut(0), cut(p as int), cut(p + 1));
                }
            }
            total.set(row, acc);
            row += 1;
        }
        p += 1;
    }
    total
}

// ---------------------------------------------------------------------------
// Bounds and plans
// ---------------------------------------------------------------------------

/// The magnitude of a centered coefficient.
pub open spec fn magnitude(x: i32) -> int {
    if x < 0 {
        -(x as int)
    } else {
        x as int
    }
}

/// Whether the first `len` rows stay within a bound.
pub open spec fn rows_within<const D: usize>(rows: Seq<[i32; D]>, len: int, bound: int) -> bool {
    forall|j: int, k: int|
        0 <= j < len && j < rows.len() && 0 <= k < D ==> magnitude(#[trigger] rows[j]@[k]) <= bound
}

fn abs_i32(x: i32) -> (r: u64)
    ensures
        r == magnitude(x),
{
    let wide: i64 = x as i64;
    if wide < 0 {
        (-wide) as u64
    } else {
        wide as u64
    }
}

/// Whether the first `len` rows stay within a bound.
pub fn centered_rows_within_bound<const D: usize>(rows: &[[i32; D]], len: usize, bound: u64) -> (b:
    bool)
    ensures
        b == rows_within(rows@, len as int, bound as int),
{
    let mut j: usize = 0;
    while j < len && j < rows.len()
        invariant
            j <= rows@.len(),
            j <= len,
            rows_within(rows@, j as int, bound as int),
        decreases rows@.len() - j,
    {
        let mut k: usize = 0;
        while k < D
            invariant
                k <= D,
                j < len,
                j < rows@.len(),
                rows_within(rows@, j as int, bound as int),
                forall|i: int| 0 <= i < k ==> magnitude(#[trigger] rows@[j as int]@[i]) <= bound,
            decreases D - k,
        {
            if abs_i32(rows[j][k]) > bound {
                assert(magnitude(rows@[j as int]@[k as int]) > bound);
                return false;
            }
            k += 1;
        }
        j += 1;
    }
    true
}

/// The largest magnitude in the first `len` rows.
pub fn centered_rows_abs_bound<const D: usize>(rows: &[[i32; D]], len: usize) -> (m: u64)
    ensures
        rows_within(rows@, len as int, m as int),
        forall|bound: int| 0 <= bound && #[trigger] rows_within(rows@, len as int, bound) ==> m
            <= bound,
{
    let mut most: u64 = 0;
    let mut j: usize = 0;
    while j < len && j < rows.len()
        invariant
            j <= rows@.len(),
            j <= len,
            rows_within(rows@, j as int, most as int),
            forall|bound: int|
                0 <= bound && #[trigger] rows_within(rows@, len as int, bound) ==> most <= bound,
        decreases rows@.len() - j,
    {
        let mut k: usize = 0;
        while k < D
            invariant
                k <= D,
                j < len,
                j < rows@.len(),
                rows_within(rows@, j as int, most as int),
                forall|i: int| 0 <= i < k ==> magnitude(#[trigger] rows@[j as int]@[i]) <= most,
                forall|bound: int|
                    0 <= bound && #[trigger] rows_within(rows@, len as int, bound) ==> most
                        <= bound,
            decreases D - k,
        {
            let size: u64 = abs_i32(rows[j][k]);
            if size > most {
                proof {
                    assert forall|bound: int|
                        0 <= bound && #[trigger] rows_within(
                            rows@,
                            len as int,
                            bound,
                        ) implies size <= bound by {
                        assert(magnitude(rows@[j as int]@[k as int]) <= bound);
                    }
                }
                most = size;
            }
            k += 1;
        }
        j += 1;
    }
    most
}

/// Whether a bound is the least one on the rows.
pub open spec fn is_least_bound<const D: usize>(rows: Seq<[i32; D]>, m: int) -> bool {
    &&& 0 <= m
    &&& rows_within(rows, rows.len() as int, m)
    &&& forall|bound: int| 0 <= bound && #[trigger] rows_within(rows, rows.len() as int, bound) ==> m
        <= bound
}

/// The least bound on the rows: their largest magnitude.
pub open spec fn least_bound<const D: usize>(rows: Seq<[i32; D]>) -> int {
    choose|m: int| is_least_bound(rows, m)
}

/// The bound that products with the rows are sized for.
pub open spec fn sized_bound<const D: usize>(rows: Seq<[i32; D]>, claimed: u32) -> int {
    if claimed > least_bound(rows) {
        claimed as int
    } else {
        least_bound(rows)
    }
}

/// Centered rows with bounds on them.
#[derive(Clone, Copy)]
pub struct CenteredRhs<'a, const D: usize> {
    pub rows: &'a [[i32; D]],
    /// The bound that products are sized for.
    pub capacity: u64,
    /// The exact bound.
    pub lut: u64,
}

impl<'a, const D: usize> CenteredRhs<'a, D> {
    /// Whether the bounds are those of the rows.
    pub open spec fn wf(self) -> bool {
        &&& rows_within(self.rows@, self.rows@.len() as int, self.lut as int)
        &&& self.lut <= self.capacity
    }

    /// Rows with a claimed bound, which the exact bound overrides.
    pub fn new(rows: &'a [[i32; D]], claimed: u32) -> (r: Self)
        ensures
            r.wf(),
            r.rows@ == rows@,
            r.lut == least_bound(rows@),
            r.capacity == sized_bound(rows@, claimed),
    {
        let actual: u64 = centered_rows_abs_bound(rows, rows.len());
        let claimed: u64 = claimed as u64;
        assert(is_least_bound(rows@, actual as int));
        CenteredRhs {
            rows,
            capacity: if claimed > actual {
                claimed
            } else {
                actual
            },
            lut: actual,
        }
    }

    /// The bound that products are sized for.
    pub fn capacity(self) -> (c: u64)
        ensures
            c == self.capacity,
    {
        self.capacity
    }
}

/// What the transform arithmetic can hold.
pub trait TransformCapacity: Sized {
    /// How many terms bounded by `bound` a sum can hold, of the `len` that
    /// there are; none where it cannot hold one.
    spec fn safe_width_of(&self, len: usize, bound: u64) -> Option<usize>;

    fn safe_width(&self, len: usize, bound: u64) -> (r: Option<usize>)
        ensures
            r == self.safe_width_of(len, bound),
            r is Some ==> r->0 > 0,
    ;

    /// The same once the extra modulus is used as well.
    spec fn tail_width_of(&self, bound: u64) -> Option<usize>;

    fn tail_width(&self, bound: u64) -> (r: Option<usize>)
        ensures
            r == self.tail_width_of(bound),
    ;

    /// Whether centered terms of a bound need the extra modulus.
    spec fn needs_tail(&self, bound: u64) -> bool;

    /// The extra modulus is called for only where it makes a sum hold a term.
    /// Where no sum holds one, terms are multiplied out in the coefficient field.
    proof fn law_tail_makes_room(&self, bound: u64)
        ensures
            self.needs_tail(bound) ==> self.tail_width_of(bound) is Some && self.tail_width_of(
                bound,
            )->0 > 0,
    ;

    fn requires_tail(&self, bound: u64) -> (b: bool)
        ensures
            b == self.needs_tail(bound),
    ;

    /// Whether two transforms are the same.
    spec fn same_as(&self, other: Self) -> bool;

    fn same(&self, other: &Self) -> (b: bool)
        ensures
            b == self.same_as(*other),
    ;

    /// A transform is the same as itself.
    proof fn law_same(&self)
        ensures
            self.same_as(*self),
    ;

    /// The bytes of one transformed entry.
    fn entry_bytes(&self) -> (n: usize)
        ensures
            n > 0,
    ;
}

/// The number of entries that both products of a matrix reach.
pub open spec fn extent(n_b: int, t_len: int, n_a: int, z_len: int) -> int {
    if n_b * t_len > n_a * z_len {
        n_b * t_len
    } else {
        n_a * z_len
    }
}

/// The number of entries that both products of a matrix reach.
pub fn fused_quotient_matrix_extent(n_b: usize, t_len: usize, n_a: usize, z_len: usize) -> (r:
    Result<usize, AkitaError>)
    ensures
        match r {
            Ok(n) => n == extent(n_b as int, t_len as int, n_a as int, z_len as int),
            Err(e) => extent(n_b as int, t_len as int, n_a as int, z_len as int) > usize::MAX
                && e is InvalidSetup,
        },
{
    match (n_b.checked_mul(t_len), n_a.checked_mul(z_len)) {
        (Some(b), Some(a)) => Ok(
            if b > a {
                b
            } else {
                a
            },
        ),
        _ => Err(AkitaError::setup("fused quotient matrix extent overflow")),
    }
}

/// The plan of one run: shapes, bounds and chunks.
#[derive(Clone, Copy)]
pub struct FusedQuotientPlan<'a, const D: usize> {
    pub n_b: usize,
    pub n_a: usize,
    pub t_len: usize,
    pub z_len: usize,
    pub max_col: usize,
    pub t_digit_abs_bound: u64,
    pub z_rhs: CenteredRhs<'a, D>,
    pub t_chunk_width: Option<usize>,
    pub z_chunk_width: Option<usize>,
    pub matrix_extent: usize,
}

impl<'a, const D: usize> FusedQuotientPlan<'a, D> {
    /// Whether the parts of the plan fit each other.
    pub open spec fn wf(self) -> bool {
        &&& self.z_rhs.wf()
        &&& self.z_len <= self.z_rhs.rows@.len()
        &&& self.n_b == 0 ==> self.t_len == 0
        &&& self.n_a == 0 ==> self.z_len == 0
        &&& self.n_a > 0 ==> self.z_len == self.z_rhs.rows@.len()
        &&& self.max_col == if self.t_len > self.z_len {
            self.t_len
        } else {
            self.z_len
        }
        &&& self.matrix_extent == extent(
            self.n_b as int,
            self.t_len as int,
            self.n_a as int,
            self.z_len as int,
        )
        &&& self.t_chunk_width is Some ==> self.t_chunk_width->0 > 0
        &&& self.z_chunk_width is Some ==> self.z_chunk_width->0 > 0
    }

    /// Whether both products fit one chunk.
    pub open spec fn one_shot(self) -> bool {
        &&& self.t_chunk_width is Some && self.t_chunk_width->0 >= self.t_len
        &&& self.z_chunk_width is Some && self.z_chunk_width->0 >= self.z_len
    }

    /// Whether both products fit one chunk.
    pub fn is_one_shot(self) -> (b: bool)
        ensures
            b == self.one_shot(),
    {
        match (self.t_chunk_width, self.z_chunk_width) {
            (Some(t), Some(z)) => t >= self.t_len && z >= self.z_len,
            _ => false,
        }
    }

    /// The entries of a packed row, as the first and one past the last.
    pub fn row(self, row: usize, width: usize) -> (r: (usize, usize))
        requires
            (row + 1) * width <= usize::MAX,
        ensures
            r.0 == row * width,
            r.1 == (row + 1) * width,
    {
        proof {
            assert((row + 1) * width == row * width + width) by (nonlinear_arith);
            assert(0 <= row * width) by (nonlinear_arith)
                requires
                    0 <= row,
                    0 <= width,
            ;
        }
        let start: usize = row * width;
        (start, start + width)
    }

    /// The entries of a B row.
    pub fn b_row(self, row: usize) -> (r: (usize, usize))
        requires
            (row + 1) * self.t_len <= usize::MAX,
        ensures
            r.0 == row * self.t_len,
            r.1 == (row + 1) * self.t_len,
    {
        self.row(row, self.t_len)
    }

    /// The entries of an A row.
    pub fn a_row(self, row: usize) -> (r: (usize, usize))
        requires
            (row + 1) * self.z_len <= usize::MAX,
        ensures
            r.0 == row * self.z_len,
            r.1 == (row + 1) * self.z_len,
    {
        self.row(row, self.z_len)
    }

    /// The columns of a chunk, as the first and one past the last.
    pub fn chunk_range(len: usize, width: usize, chunk_index: usize) -> (r: (usize, usize))
        requires
            chunk_index * width <= len,
        ensures
            r.0 == chunk_cut(len as int, width as int, chunk_index as int),
            r.1 == chunk_cut(len as int, width as int, chunk_index + 1),
            r.0 <= r.1 <= len,
    {
        proof {
            assert((chunk_index + 1) * width == chunk_index * width + width) by (nonlinear_arith);
            assert(0 <= chunk_index * width) by (nonlinear_arith)
                requires
                    0 <= chunk_index,
                    0 <= width,
            ;
        }
        let start: usize = chunk_index * width;
        let end: usize = if len - start < width {
            len
        } else {
            start + width
        };
        (start, end)
    }
}

/// Where chunk `c` of a range begins.
pub open spec fn chunk_cut(len: int, width: int, c: int) -> int {
    if c * width < len {
        c * width
    } else {
        len
    }
}

/// The magnitude of a digit.
pub open spec fn digit_magnitude(x: i8) -> int {
    if x < 0 {
        -(x as int)
    } else {
        x as int
    }
}

/// Whether the first `len` digit vectors stay within a bound.
pub open spec fn digits_within<const D: usize>(rows: Seq<[i8; D]>, len: int, bound: int) -> bool {
    forall|j: int, k: int|
        0 <= j < len && j < rows.len() && 0 <= k < D ==> digit_magnitude(#[trigger] rows[j]@[k])
            <= bound
}

/// Whether the first `len` digit vectors stay within a bound.
pub fn digit_rows_within_digit_bound<const D: usize>(rows: &[[i8; D]], len: usize, bound: u64) -> (b:
    bool)
    ensures
        b == digits_within(rows@, len as int, bound as int),
{
    let mut j: usize = 0;
    while j < len && j < rows.len()
        invariant
            j <= rows@.len(),
            j <= len,
            digits_within(rows@, j as int, bound as int),
        decreases rows@.len() - j,
    {
        let mut k: usize = 0;
        while k < D
            invariant
                k <= D,
                j < len,
                j < rows@.len(),
                digits_within(rows@, j as int, bound as int),
                forall|i: int|
                    0 <= i < k ==> digit_magnitude(#[trigger] rows@[j as int]@[i]) <= bound,
            decreases D - k,
        {
            let wide: i64 = rows[j][k] as i64;
            let size: u64 = if wide < 0 {
                (-wide) as u64
            } else {
                wide as u64
            };
            if size > bound {
                assert(digit_magnitude(rows@[j as int]@[k as int]) > bound);
                return false;
            }
            k += 1;
        }
        j += 1;
    }
    true
}

/// The largest magnitude of a balanced digit of `log_basis` bits.
pub open spec fn balanced_bound(log_basis: int) -> int {
    if log_basis == 1 {
        1
    } else if log_basis == 2 {
        2
    } else if log_basis == 3 {
        4
    } else if log_basis == 4 {
        8
    } else if log_basis == 5 {
        16
    } else if log_basis == 6 {
        32
    } else if log_basis == 7 {
        64
    } else {
        128
    }
}

/// The largest magnitude of a balanced digit that fits a byte.
pub fn balanced_digit_abs_bound(log_basis: u32) -> (bound: u64)
    requires
        1 <= log_basis <= 8,
    ensures
        bound == balanced_bound(log_basis as int),
{
    if log_basis == 1 {
        1
    } else if log_basis == 2 {
        2
    } else if log_basis == 3 {
        4
    } else if log_basis == 4 {
        8
    } else if log_basis == 5 {
        16
    } else if log_basis == 6 {
        32
    } else if log_basis == 7 {
        64
    } else {
        128
    }
}

/// The bound on digits of a basis; a digit has to fit a byte.
pub fn fused_quotient_digit_bound(log_basis_outer: u32) -> (r: Result<u64, AkitaError>)
    ensures
        match r {
            Ok(bound) => 1 <= log_basis_outer <= 8 && bound == balanced_bound(
                log_basis_outer as int,
            ),
            Err(e) => !(1 <= log_basis_outer <= 8) && e is InvalidInput,
        },
{
    if log_basis_outer == 0 || log_basis_outer > 8 {
        return Err(AkitaError::input("digits of this basis do not fit a byte"));
    }
    Ok(balanced_digit_abs_bound(log_basis_outer))
}

/// The chunk width of the digit vectors; nothing to sum fits any chunk.
pub open spec fn planned_t_width<C: TransformCapacity>(
    capacity: C,
    t_len: usize,
    bound: u64,
) -> Option<usize> {
    if t_len == 0 {
        Some(1)
    } else {
        capacity.safe_width_of(t_len, bound)
    }
}

/// The chunk width of the centered vectors.
pub open spec fn planned_z_width<C: TransformCapacity>(
    capacity: C,
    z_len: usize,
    bound: u64,
) -> Option<usize> {
    if z_len == 0 {
        Some(1)
    } else if bound == 0 {
        Some(z_len)
    } else {
        capacity.safe_width_of(z_len, bound)
    }
}

/// The plan of a run over given vectors.
pub fn plan_fused_quotients<'a, C: TransformCapacity, const D: usize>(
    t_hat: &[[i8; D]],
    z_rhs: CenteredRhs<'a, D>,
    n_b: usize,
    n_a: usize,
    t_digit_abs_bound: u64,
    capacity: &C,
) -> (r: Result<FusedQuotientPlan<'a, D>, AkitaError>)
    requires
        z_rhs.wf(),
    ensures
        ({
            let t_len: usize = if n_b != 0 {
                t_hat@.len() as usize
            } else {
                0
            };
            let z_len: usize = if n_a != 0 {
                z_rhs.rows@.len() as usize
            } else {
                0
            };
            let in_range = digits_within(t_hat@, t_len as int, t_digit_abs_bound as int);
            let reach = extent(n_b as int, t_len as int, n_a as int, z_len as int);
            match r {
                Ok(plan) => {
                    &&& in_range
                    &&& plan.wf()
                    &&& plan.n_b == n_b
                    &&& plan.n_a == n_a
                    &&& plan.t_len == t_len
                    &&& plan.z_len == z_len
                    &&& plan.t_digit_abs_bound == t_digit_abs_bound
                    &&& plan.z_rhs == z_rhs
                    &&& plan.t_chunk_width == planned_t_width(*capacity, t_len, t_digit_abs_bound)
                    &&& plan.z_chunk_width == planned_z_width(*capacity, z_len, z_rhs.capacity)
                },
                Err(e) => if !in_range {
                    e is InvalidInput
                } else {
                    reach > usize::MAX && e is InvalidSetup
                },
            }
        }),
{
    let t_len: usize = if n_b != 0 {
        t_hat.len()
    } else {
        0
    };
    let z_len: usize = if n_a != 0 {
        z_rhs.rows.len()
    } else {
        0
    };
    if !digit_rows_within_digit_bound(t_hat, t_len, t_digit_abs_bound) {
        return Err(
            AkitaError::input("fused quotient t_hat contains digits outside its log_basis range"),
        );
    }
    let t_chunk_width = if t_len == 0 {
        Some(1)
    } else {
        capacity.safe_width(t_len, t_digit_abs_bound)
    };
    let z_chunk_width = if z_len == 0 {
        Some(1)
    } else if z_rhs.capacity == 0 {
        Some(z_len)
    } else {
        capacity.safe_width(z_len, z_rhs.capacity)
    };
    let matrix_extent: usize = match fused_quotient_matrix_extent(n_b, t_len, n_a, z_len) {
        Ok(n) => n,
        Err(e) => {
            return Err(e);
        },
    };
    Ok(
        FusedQuotientPlan {
            n_b,
            n_a,
            t_len,
            z_len,
            max_col: if t_len > z_len {
                t_len
            } else {
                z_len
            },
            t_digit_abs_bound,
            z_rhs,
            t_chunk_width,
            z_chunk_width,
            matrix_extent,
        },
    )
}

// ---------------------------------------------------------------------------
// Kernels
// ---------------------------------------------------------------------------

/// The rows of both products.
pub struct FusedQuotientRows<F: Field, const D: usize> {
    pub b_cyclic: Vec<CyclotomicRing<F, D>>,
    pub a_quotients: Vec<CyclotomicRing<F, D>>,
}

impl<F: Field, const D: usize> FusedQuotientRows<F, D> {
    /// Whether these are the rows of a matrix with vectors of some length.
    pub open spec fn are(
        self,
        matrix: spec_fn(int) -> Seq<F>,
        t: Seq<[i8; D]>,
        z: Seq<[i32; D]>,
        n_b: int,
        t_len: int,
        n_a: int,
        z_len: int,
    ) -> bool {
        &&& holds_sums(self.b_cyclic@, b_row_terms(matrix, t, t_len), n_b, 0, t_len)
        &&& holds_sums(self.a_quotients@, a_row_terms(matrix, z, z_len), n_a, 0, z_len)
    }
}

/// What a matrix of `held` elements is refused with where `needed` are read.
pub open spec fn shortage_text(matrix: Seq<char>, needed: nat, held: nat) -> Seq<char> {
    matrix + " needs "@ + text::decimal(needed) + " elements, got "@ + text::decimal(held)
}

fn shortage(matrix: &str, needed: usize, held: usize) -> (e: AkitaError)
    ensures
        e.is_setup(shortage_text(matrix@, needed as nat, held as nat)),
{
    let mut out = message(matrix);
    push_text(&mut out, message(" needs "));
    push_decimal(&mut out, needed as u128);
    push_text(&mut out, message(" elements, got "));
    push_decimal(&mut out, held as u128);
    AkitaError::InvalidSetup(out)
}

impl<'a, F: Field, const D: usize> FusedMatrixSource<'a, F, D> {
    /// Whether the source reaches as far as a plan does.
    pub open spec fn reaches(self, plan: FusedQuotientPlan<'_, D>) -> bool {
        &&& plan.matrix_extent <= self.cyclic_len()
        &&& plan.n_a * plan.z_len <= usize::MAX
        &&& plan.n_a * plan.z_len <= self.negacyclic_len()
    }

    /// Refuses a plan that the source does not reach.
    pub fn validate(&self, plan: FusedQuotientPlan<'_, D>) -> (r: Result<(), AkitaError>)
        ensures
            match r {
                Ok(()) => self.reaches(plan),
                Err(e) => !self.reaches(plan) && e.is_setup(
                    if self.cyclic_len() < plan.matrix_extent {
                        shortage_text(
                            "fused quotient cyclic matrix"@,
                            plan.matrix_extent as nat,
                            self.cyclic_len(),
                        )
                    } else if plan.n_a * plan.z_len > usize::MAX {
                        "fused quotient negacyclic extent overflow"@
                    } else {
                        shortage_text(
                            "fused quotient negacyclic matrix"@,
                            (plan.n_a * plan.z_len) as nat,
                            self.negacyclic_len(),
                        )
                    },
                ),
            },
    {
        let (cyclic_len, negacyclic_len): (usize, usize) = match self {
            FusedMatrixSource::Cached { negacyclic, cyclic } => (cyclic.len(), negacyclic.len()),
            FusedMatrixSource::Field(matrix) => (matrix.len(), matrix.len()),
        };
        if cyclic_len < plan.matrix_extent {
            return Err(
                shortage("fused quotient cyclic matrix", plan.matrix_extent, cyclic_len),
            );
        }
        match plan.n_a.checked_mul(plan.z_len) {
            Some(needed) => {
                if negacyclic_len < needed {
                    return Err(
                        shortage("fused quotient negacyclic matrix", needed, negacyclic_len),
                    );
                }
                Ok(())
            },
            None => Err(AkitaError::setup("fused quotient negacyclic extent overflow")),
        }
    }
}

/// Cuts do not decrease and end at the length.
proof fn lemma_cuts(len: int, width: int, n: int)
    requires
        0 <= len,
        0 < width,
        n == checked::ceil_div(len, width),
    ensures
        chunk_cut(len, width, 0) == 0,
        chunk_cut(len, width, n) == len,
        forall|c: int|
            0 <= c < n ==> #[trigger] chunk_cut(len, width, c) <= chunk_cut(len, width, c + 1)
                && c * width <= len,
{
    assert(0 * width == 0);
    assert(n * width >= len && (n > 0 ==> (n - 1) * width < len)) by {
        lemma_ceil_div(len, width);
    }
    assert forall|c: int| 0 <= c < n implies #[trigger] chunk_cut(len, width, c) <= chunk_cut(
        len,
        width,
        c + 1,
    ) && c * width <= len by {
        assert(c * width <= (n - 1) * width && c * width <= (c + 1) * width) by (nonlinear_arith)
            requires
                0 <= c < n,
                0 < width,
        ;
    }
}

proof fn lemma_ceil_div(len: int, width: int)
    requires
        0 <= len,
        0 < width,
    ensures
        checked::ceil_div(len, width) * width >= len,
        checked::ceil_div(len, width) > 0 ==> (checked::ceil_div(len, width) - 1) * width < len,
        checked::ceil_div(len, width) >= 0,
{
    let n = checked::ceil_div(len, width);
    vstd::arithmetic::div_mod::lemma_fundamental_div_mod(len + width - 1, width);
    vstd::arithmetic::div_mod::lemma_mod_bound(len + width - 1, width);
    vstd::arithmetic::div_mod::lemma_div_pos_is_pos(len + width - 1, width);
    assert((n - 1) * width == n * width - width) by (nonlinear_arith);
    assert(n * width == width * n) by (nonlinear_arith);
}

/// The B rows, chunk by chunk.
pub fn accumulate_cyclic_i8_rows<F: Field, const D: usize>(
    source: &FusedMatrixSource<'_, F, D>,
    rhs: &[[i8; D]],
    plan: FusedQuotientPlan<'_, D>,
    chunk_width: usize,
) -> (r: Vec<CyclotomicRing<F, D>>)
    requires
        plan.wf(),
        plan.t_len <= rhs@.len(),
        source.reaches(plan),
        chunk_width > 0,
    ensures
        holds_sums(
            r@,
            b_row_terms(source.matrix(), rhs@, plan.t_len as int),
            plan.n_b as int,
            0,
            plan.t_len as int,
        ),
{
    let len: usize = plan.t_len;
    let num_rows: usize = plan.n_b;
    let num_chunks: usize = checked::div_ceil(len, chunk_width);
    let ghost terms = b_row_terms(source.matrix(), rhs@, len as int);
    let ghost cut = |c: int| chunk_cut(len as int, chunk_width as int, c);
    proof {
        lemma_cuts(len as int, chunk_width as int, num_chunks as int);
    }
    let work = |c: usize| -> (out: Vec<CyclotomicRing<F, D>>)
        requires
            c < num_chunks,
        ensures
            holds_sums(
                out@,
                b_row_terms(source.matrix(), rhs@, len as int),
                num_rows as int,
                chunk_cut(len as int, chunk_width as int, c as int),
                chunk_cut(len as int, chunk_width as int, c + 1),
            ),
        {
            proof {
                lemma_cuts(len as int, chunk_width as int, num_chunks as int);
                assert(chunk_cut(len as int, chunk_width as int, c as int) <= len);
            }
            let (lo, hi): (usize, usize) = FusedQuotientPlan::<D>::chunk_range(len, chunk_width, c);
            cyclic_columns(source, rhs, num_rows, len, lo, hi)
        };
    let partials = par_map_range(num_chunks, &work);
    proof {
        assert forall|p: int| 0 <= p < partials@.len() implies cut(p) <= cut(p + 1) && holds_sums(
            (#[trigger] partials@[p])@,
            terms,
            num_rows as int,
            cut(p),
            cut(p + 1),
        ) by {
            assert(chunk_cut(len as int, chunk_width as int, p) <= chunk_cut(
                len as int,
                chunk_width as int,
                p + 1,
            ));
            assert(call_ensures(work, (p as usize,), partials@[(p as usize) as int]));
        }
    }
    add_ranges(&partials, num_rows, Ghost(terms), Ghost(cut))
}

/// The carries of one pair of elements.
fn carry_of<F: Field, const D: usize>(
    lhs: &CyclotomicRing<F, D>,
    rhs: &CyclotomicRing<F, D>,
    one_half: F,
) -> (r: CyclotomicRing<F, D>)
    requires
        cyclic::is_half(one_half),
    ensures
        forall|k: int| 0 <= k < D ==> #[trigger] r@[k] == cyclic::carry_coeff(lhs@, rhs@, k),
{
    let mut neg = CyclotomicRing::<F, D>::zero();
    lhs.mul_accumulate_into(rhs, &mut neg);
    let mut cyc = CyclotomicRing::<F, D>::zero();
    add_cyclic_product_into(&mut cyc, lhs, rhs);
    let r = quotient_from_cyclic_and_negacyclic(&cyc, &neg, one_half);
    proof {
        assert forall|k: int| 0 <= k < D implies #[trigger] r@[k] == cyclic::carry_coeff(
            lhs@,
            rhs@,
            k,
        ) by {
            let neg_coeff = cyclotomic::product_coeff(lhs@, rhs@, k);
            let cyc_coeff = cyclic::cyclic_coeff(lhs@, rhs@, k);
            assert(cyclotomic::accumulated(F::zero_spec(), neg@[k], neg_coeff));
            assert(cyclotomic::accumulated(F::zero_spec(), cyc@[k], cyc_coeff));
            rl::lemma_results_reduced(F::zero_spec(), F::zero_spec());
            rl::lemma_sum_reduced(cyclotomic::product_term(lhs@, rhs@, k), 0, D as int);
            rl::lemma_sum_reduced(cyclic::cyclic_term(lhs@, rhs@, k), 0, D as int);
            rl::lemma_sum_reduced(cyclic::carry_term(lhs@, rhs@, k), 0, D as int);
            rl::lemma_zero_add(neg_coeff);
            rl::lemma_zero_add(cyc_coeff);
            cyclic::law_products_differ_by_carries(lhs@, rhs@, k);
            cyclic::lemma_half_difference(
                cyc@[k],
                neg@[k],
                cyclic::carry_coeff(lhs@, rhs@, k),
                one_half,
            );
        }
    }
    r
}

/// The carries of a product with a zero vector vanish.
pub proof fn lemma_carry_zero<F: Field>(a: Seq<F>, b: Seq<F>, i: int)
    requires
        a.len() == b.len(),
        0 <= i < a.len(),
        forall|j: int| 0 <= j < b.len() ==> #[trigger] b[j] == F::zero_spec(),
    ensures
        cyclic::carry_coeff(a, b, i) == F::zero_spec(),
{
    assert forall|j: int| 0 <= j < a.len() implies #[trigger] cyclic::carry_term(a, b, i)(j)
        == F::zero_spec() by {
        rl::lemma_mul_identities(a[j]);
        if j > i {
            assert(b[i - j + b.len()] == F::zero_spec());
        }
    }
    rl::lemma_sum_zero(cyclic::carry_term(a, b, i), 0, a.len() as int);
}

/// One A row, product by product.
fn field_row<F: Field, const D: usize>(
    source: &FusedMatrixSource<'_, F, D>,
    z: &[[i32; D]],
    num_rows: usize,
    width: usize,
    row: usize,
    one_half: F,
) -> (out: CyclotomicRing<F, D>)
    requires
        cyclic::is_half(one_half),
        source.wf(),
        row < num_rows,
        width <= z@.len(),
        num_rows * width <= source.negacyclic_len(),
        num_rows * width <= usize::MAX,
    ensures
        forall|k: int|
            0 <= k < D ==> #[trigger] out@[k] == rl::sum_range(
                a_row_terms(source.matrix(), z@, width as int)(row as int, k),
                0,
                width as int,
            ),
{
    let ghost terms = a_row_terms(source.matrix(), z@, width as int);
    let mut out = CyclotomicRing::<F, D>::zero();
    let mut j: usize = 0;
    while j < width
        invariant
            cyclic::is_half(one_half),
            source.wf(),
            row < num_rows,
            j <= width,
            width <= z@.len(),
            num_rows * width <= source.negacyclic_len(),
            num_rows * width <= usize::MAX,
            terms == a_row_terms(source.matrix(), z@, width as int),
            forall|k: int|
                0 <= k < D ==> #[trigger] out@[k] == rl::sum_range(
                    terms(row as int, k),
                    0,
                    j as int,
                ),
        decreases width - j,
    {
        proof {
            lemma_index_fits(row as int, num_rows as int, width as int, j as int);
        }
        let ghost before = out@;
        if is_zero_centered_row(&z[j]) {
            proof {
                lemma_lift_zero::<F>(z@[j as int]@);
                assert forall|k: int| 0 <= k < D implies #[trigger] out@[k]
                    == rl::sum_range(terms(row as int, k), 0, j + 1) by {
                    assert((source.matrix())(row * width + j).len() == D);
                    lemma_carry_zero(
                        (source.matrix())(row * width + j),
                        lift32::<F>(z@[j as int]@),
                        k,
                    );
                    lemma_skip_sum(terms(row as int, k), 0, j as int);
                }
            }
        } else {
            let centered = centered_i32_ring::<F, D>(&z[j]);
            let lhs = source.negacyclic_entry(row * width + j);
            let carry = carry_of(lhs, &centered, one_half);
            out.add_assign(&carry);
            proof {
                assert forall|k: int| 0 <= k < D implies #[trigger] out@[k]
                    == rl::sum_range(terms(row as int, k), 0, j + 1) by {
                    assert(before[k] == rl::sum_range(terms(row as int, k), 0, j as int));
                    assert(carry@[k] == terms(row as int, k)(j as int));
                }
            }
        }
        j += 1;
    }
    out
}

/// The A rows, product by product.
pub fn accumulate_centered_quotient_rows_field<F: Field, const D: usize>(
    source: &FusedMatrixSource<'_, F, D>,
    plan: FusedQuotientPlan<'_, D>,
) -> (r: Vec<CyclotomicRing<F, D>>)
    requires
        cyclic::halvable::<F>(),
        source.wf(),
        plan.wf(),
        source.reaches(plan),
    ensures
        holds_sums(
            r@,
            a_row_terms(source.matrix(), plan.z_rhs.rows@, plan.z_len as int),
            plan.n_a as int,
            0,
            plan.z_len as int,
        ),
{
    let one_half: F = half();
    let num_rows: usize = plan.n_a;
    let width: usize = plan.z_len;
    let z = plan.z_rhs.rows;
    let ghost terms = a_row_terms(source.matrix(), z@, width as int);
    let work = |row: usize| -> (out: CyclotomicRing<F, D>)
        requires
            row < num_rows,
        ensures
            forall|k: int|
                0 <= k < D ==> #[trigger] out@[k] == rl::sum_range(
                    a_row_terms(source.matrix(), z@, width as int)(row as int, k),
                    0,
                    width as int,
                ),
        { field_row(source, z, num_rows, width, row, one_half) };
    let rows = par_map_range(num_rows, &work);
    proof {
        assert forall|r: int, k: int| 0 <= r < num_rows && 0 <= k < D implies #[trigger] rows@[r]@[
        k] == rl::sum_range(terms(r, k), 0, width as int) by {
            assert(call_ensures(work, (r as usize,), rows@[(r as usize) as int]));
        }
    }
    rows
}

/// The A rows, chunk by chunk; where not even one term can be held, product by
/// product.
pub fn accumulate_centered_quotient_rows<F: Field, const D: usize>(
    source: &FusedMatrixSource<'_, F, D>,
    plan: FusedQuotientPlan<'_, D>,
) -> (r: Vec<CyclotomicRing<F, D>>)
    requires
        cyclic::halvable::<F>(),
        source.wf(),
        plan.wf(),
        source.reaches(plan),
    ensures
        holds_sums(
            r@,
            a_row_terms(source.matrix(), plan.z_rhs.rows@, plan.z_len as int),
            plan.n_a as int,
            0,
            plan.z_len as int,
        ),
{
    let chunk_width: usize = match plan.z_chunk_width {
        Some(width) => width,
        None => {
            return accumulate_centered_quotient_rows_field(source, plan);
        },
    };
    centered_chunks(source, plan.z_rhs.rows, plan.n_a, plan.z_len, chunk_width)
}

/// The carries over columns `lo..hi`.
fn carry_columns<F: Field, const D: usize>(
    source: &FusedMatrixSource<'_, F, D>,
    z: &[[i32; D]],
    num_rows: usize,
    width: usize,
    lo: usize,
    hi: usize,
    one_half: F,
) -> (r: Vec<CyclotomicRing<F, D>>)
    requires
        cyclic::is_half(one_half),
        source.wf(),
        lo <= hi <= width,
        width <= z@.len(),
        num_rows * width <= source.cyclic_len(),
        num_rows * width <= source.negacyclic_len(),
        num_rows * width <= usize::MAX,
    ensures
        holds_sums(
            r@,
            a_row_terms(source.matrix(), z@, width as int),
            num_rows as int,
            lo as int,
            hi as int,
        ),
{
    let (neg, cyc) = pair_columns(source, z, num_rows, width, lo, hi);
    quotient_rows(
        &neg,
        &cyc,
        one_half,
        Ghost(source.matrix()),
        Ghost(z@),
        Ghost(num_rows as int),
        Ghost(width as int),
        Ghost(lo as int),
        Ghost(hi as int),
    )
}

/// The carries of a matrix with centered vectors, chunk by chunk.
pub fn centered_chunks<F: Field, const D: usize>(
    source: &FusedMatrixSource<'_, F, D>,
    z: &[[i32; D]],
    num_rows: usize,
    len: usize,
    chunk_width: usize,
) -> (r: Vec<CyclotomicRing<F, D>>)
    requires
        cyclic::halvable::<F>(),
        source.wf(),
        len <= z@.len(),
        num_rows * len <= source.cyclic_len(),
        num_rows * len <= source.negacyclic_len(),
        num_rows * len <= usize::MAX,
        chunk_width > 0,
    ensures
        holds_sums(
            r@,
            a_row_terms(source.matrix(), z@, len as int),
            num_rows as int,
            0,
            len as int,
        ),
{
    let one_half: F = half();
    let num_chunks: usize = checked::div_ceil(len, chunk_width);
    let ghost terms = a_row_terms(source.matrix(), z@, len as int);
    let ghost cut = |c: int| chunk_cut(len as int, chunk_width as int, c);
    proof {
        lemma_cuts(len as int, chunk_width as int, num_chunks as int);
    }
    let work = |c: usize| -> (out: Vec<CyclotomicRing<F, D>>)
        requires
            c < num_chunks,
        ensures
            holds_sums(
                out@,
                a_row_terms(source.matrix(), z@, len as int),
                num_rows as int,
                chunk_cut(len as int, chunk_width as int, c as int),
                chunk_cut(len as int, chunk_width as int, c + 1),
            ),
        {
            proof {
                lemma_cuts(len as int, chunk_width as int, num_chunks as int);
                assert(chunk_cut(len as int, chunk_width as int, c as int) <= len);
            }
            let (lo, hi): (usize, usize) = FusedQuotientPlan::<D>::chunk_range(len, chunk_width, c);
            carry_columns(source, z, num_rows, len, lo, hi, one_half)
        };
    let partials = par_map_range(num_chunks, &work);
    proof {
        assert forall|p: int| 0 <= p < partials@.len() implies cut(p) <= cut(p + 1) && holds_sums(
            (#[trigger] partials@[p])@,
            terms,
            num_rows as int,
            cut(p),
            cut(p + 1),
        ) by {
            assert(chunk_cut(len as int, chunk_width as int, p) <= chunk_cut(
                len as int,
                chunk_width as int,
                p + 1,
            ));
            assert(call_ensures(work, (p as usize,), partials@[(p as usize) as int]));
        }
    }
    add_ranges(&partials, num_rows, Ghost(terms), Ghost(cut))
}

/// The least number of tiles that a run is cut into.
pub const MIN_FUSED_TILES: usize = 30;

/// The cache that a tile of transformed entries should fit, on any machine. The
/// rows do not depend on how they are cut into tiles.
pub const FUSED_L2_CACHE_BYTES: usize = 1048576;

/// The number of columns of a tile: what the cache holds, but no more than
/// leaves the least number of tiles.
pub fn tile_width(max_col: usize, entry_bytes: usize) -> (w: usize)
    requires
        entry_bytes > 0,
    ensures
        ({
            let fitting = FUSED_L2_CACHE_BYTES as int / entry_bytes as int;
            let sharing = checked::ceil_div(max_col as int, MIN_FUSED_TILES as int);
            let base = if fitting < 1 {
                1
            } else {
                fitting
            };
            let share = if sharing < 1 {
                1
            } else {
                sharing
            };
            w == if base < share {
                base
            } else {
                share
            }
        }),
        w > 0,
{
    let fitting: usize = FUSED_L2_CACHE_BYTES / entry_bytes;
    let base: usize = if fitting < 1 {
        1
    } else {
        fitting
    };
    let sharing: usize = checked::div_ceil(max_col, MIN_FUSED_TILES);
    let share: usize = if sharing < 1 {
        1
    } else {
        sharing
    };
    if base < share {
        base
    } else {
        share
    }
}

/// The sums of one tile.
struct TileSums<F: Field, const D: usize> {
    b: Vec<CyclotomicRing<F, D>>,
    a_negacyclic: Vec<CyclotomicRing<F, D>>,
    a_cyclic: Vec<CyclotomicRing<F, D>>,
}

/// Where tile `c` begins within a product that may be narrower than the run.
pub open spec fn tile_cut(max_col: int, tile: int, len: int, c: int) -> int {
    let cut = chunk_cut(max_col, tile, c);
    if cut < len {
        cut
    } else {
        len
    }
}

impl<F: Field, const D: usize> TileSums<F, D> {
    spec fn are(
        self,
        matrix: spec_fn(int) -> Seq<F>,
        t: Seq<[i8; D]>,
        plan: FusedQuotientPlan<'_, D>,
        tile: int,
        c: int,
    ) -> bool {
        let z = plan.z_rhs.rows@;
        let t_len = plan.t_len as int;
        let z_len = plan.z_len as int;
        let max_col = plan.max_col as int;
        &&& holds_sums(
            self.b@,
            b_row_terms(matrix, t, t_len),
            plan.n_b as int,
            tile_cut(max_col, tile, t_len, c),
            tile_cut(max_col, tile, t_len, c + 1),
        )
        &&& holds_sums(
            self.a_negacyclic@,
            a_negacyclic_row_terms(matrix, z, z_len),
            plan.n_a as int,
            tile_cut(max_col, tile, z_len, c),
            tile_cut(max_col, tile, z_len, c + 1),
        )
        &&& holds_sums(
            self.a_cyclic@,
            a_cyclic_row_terms(matrix, z, z_len),
            plan.n_a as int,
            tile_cut(max_col, tile, z_len, c),
            tile_cut(max_col, tile, z_len, c + 1),
        )
    }
}

fn clip(value: usize, len: usize) -> (r: usize)
    ensures
        r == if value < len {
            value
        } else {
            len
        },
{
    if value < len {
        value
    } else {
        len
    }
}

fn tile_sums<F: Field, const D: usize>(
    source: &FusedMatrixSource<'_, F, D>,
    t_hat: &[[i8; D]],
    plan: FusedQuotientPlan<'_, D>,
    tile: usize,
    num_tiles: usize,
    c: usize,
) -> (r: TileSums<F, D>)
    requires
        source.wf(),
        plan.wf(),
        plan.t_len <= t_hat@.len(),
        source.reaches(plan),
        tile > 0,
        num_tiles == checked::ceil_div(plan.max_col as int, tile as int),
        c < num_tiles,
    ensures
        r.are(source.matrix(), t_hat@, plan, tile as int, c as int),
{
    proof {
        lemma_cuts(plan.max_col as int, tile as int, num_tiles as int);
        assert(chunk_cut(plan.max_col as int, tile as int, c as int) <= plan.max_col);
    }
    let (lo, hi): (usize, usize) = FusedQuotientPlan::<D>::chunk_range(plan.max_col, tile, c);
    let b = cyclic_columns(
        source,
        t_hat,
        plan.n_b,
        plan.t_len,
        clip(lo, plan.t_len),
        clip(hi, plan.t_len),
    );
    let (a_negacyclic, a_cyclic) = pair_columns(
        source,
        plan.z_rhs.rows,
        plan.n_a,
        plan.z_len,
        clip(lo, plan.z_len),
        clip(hi, plan.z_len),
    );
    TileSums { b, a_negacyclic, a_cyclic }
}

fn copy_rows<F: Field, const D: usize>(rows: &Vec<CyclotomicRing<F, D>>) -> (r: Vec<
    CyclotomicRing<F, D>,
>)
    ensures
        r@ == rows@,
{
    crate::assignments::copy_list(rows)
}

/// Both products in one pass over the columns.
pub fn fused_split_eq_quotients_one_shot<F: Field, const D: usize>(
    source: &FusedMatrixSource<'_, F, D>,
    t_hat: &[[i8; D]],
    plan: FusedQuotientPlan<'_, D>,
    entry_bytes: usize,
) -> (r: FusedQuotientRows<F, D>)
    requires
        cyclic::halvable::<F>(),
        source.wf(),
        plan.wf(),
        plan.t_len <= t_hat@.len(),
        source.reaches(plan),
        entry_bytes > 0,
    ensures
        r.are(
            source.matrix(),
            t_hat@,
            plan.z_rhs.rows@,
            plan.n_b as int,
            plan.t_len as int,
            plan.n_a as int,
            plan.z_len as int,
        ),
{
    let tile: usize = tile_width(plan.max_col, entry_bytes);
    let num_tiles: usize = checked::div_ceil(plan.max_col, tile);
    let ghost matrix = source.matrix();
    let ghost z = plan.z_rhs.rows@;
    let ghost max_col = plan.max_col as int;
    let ghost t_len = plan.t_len as int;
    let ghost z_len = plan.z_len as int;
    let ghost width = tile as int;
    let work = |c: usize| -> (out: TileSums<F, D>)
        requires
            c < num_tiles,
        ensures
            out.are(source.matrix(), t_hat@, plan, tile as int, c as int),
        { tile_sums(source, t_hat, plan, tile, num_tiles, c) };
    let tiles = par_map_range(num_tiles, &work);
    let mut b_parts: Vec<Vec<CyclotomicRing<F, D>>> = Vec::new();
    let mut neg_parts: Vec<Vec<CyclotomicRing<F, D>>> = Vec::new();
    let mut cyc_parts: Vec<Vec<CyclotomicRing<F, D>>> = Vec::new();
    let ghost t_cut = |c: int| tile_cut(max_col, width, t_len, c);
    let ghost z_cut = |c: int| tile_cut(max_col, width, z_len, c);
    let ghost b_terms_all = b_row_terms(matrix, t_hat@, t_len);
    let ghost neg_terms = a_negacyclic_row_terms(matrix, z, z_len);
    let ghost cyc_terms = a_cyclic_row_terms(matrix, z, z_len);
    proof {
        lemma_cuts(max_col, width, num_tiles as int);
        assert forall|p: int| 0 <= p < tiles@.len() implies (#[trigger] tiles@[p]).are(
            matrix,
            t_hat@,
            plan,
            width,
            p,
        ) by {
            assert(call_ensures(work, (p as usize,), tiles@[(p as usize) as int]));
        }
    }
    let mut p: usize = 0;
    while p < tiles.len()
        invariant
            p <= tiles@.len(),
            tiles@.len() == num_tiles,
            matrix == source.matrix(),
            z == plan.z_rhs.rows@,
            max_col == plan.max_col,
            t_len == plan.t_len,
            z_len == plan.z_len,
            width > 0,
            num_tiles == checked::ceil_div(max_col, width),
            0 <= max_col,
            t_cut == (|c: int| tile_cut(max_col, width, t_len, c)),
            z_cut == (|c: int| tile_cut(max_col, width, z_len, c)),
            b_terms_all == b_row_terms(matrix, t_hat@, t_len),
            neg_terms == a_negacyclic_row_terms(matrix, z, z_len),
            cyc_terms == a_cyclic_row_terms(matrix, z, z_len),
            b_parts@.len() == p,
            neg_parts@.len() == p,
            cyc_parts@.len() == p,
            forall|q: int|
                0 <= q < tiles@.len() ==> (#[trigger] tiles@[q]).are(
                    matrix,
                    t_hat@,
                    plan,
                    width,
                    q,
                ),
            ranges_hold(b_parts@, b_terms_all, plan.n_b as int, t_cut),
            ranges_hold(neg_parts@, neg_terms, plan.n_a as int, z_cut),
            ranges_hold(cyc_parts@, cyc_terms, plan.n_a as int, z_cut),
        decreases tiles@.len() - p,
    {
        proof {
            lemma_cuts(max_col, width, num_tiles as int);
            assert(chunk_cut(max_col, width, p as int) <= chunk_cut(max_col, width, p + 1));
            assert(tiles@[p as int].are(matrix, t_hat@, plan, width, p as int));
        }
        b_parts.push(copy_rows(&tiles[p].b));
        neg_parts.push(copy_rows(&tiles[p].a_negacyclic));
        cyc_parts.push(copy_rows(&tiles[p].a_cyclic));
        p += 1;
    }
    let b_cyclic = add_ranges(&b_parts, plan.n_b, Ghost(b_terms_all), Ghost(t_cut));
    let neg = add_ranges(&neg_parts, plan.n_a, Ghost(neg_terms), Ghost(z_cut));
    let cyc = add_ranges(&cyc_parts, plan.n_a, Ghost(cyc_terms), Ghost(z_cut));
    let one_half: F = half();
    let a_quotients = quotient_rows(
        &neg,
        &cyc,
        one_half,
        Ghost(matrix),
        Ghost(z),
        Ghost(plan.n_a as int),
        Ghost(z_len),
        Ghost(0),
        Ghost(z_len),
    );
    FusedQuotientRows { b_cyclic, a_quotients }
}

// ---------------------------------------------------------------------------
// Laws
// ---------------------------------------------------------------------------

/// Rows depend only on the entries that they reach: matrices that agree there
/// have the same rows, however the entries are stored.
pub proof fn law_rows_depend_on_reached_entries<F: Field, const D: usize>(
    rows: FusedQuotientRows<F, D>,
    m1: spec_fn(int) -> Seq<F>,
    m2: spec_fn(int) -> Seq<F>,
    t: Seq<[i8; D]>,
    z: Seq<[i32; D]>,
    n_b: int,
    t_len: int,
    n_a: int,
    z_len: int,
)
    requires
        rows.are(m1, t, z, n_b, t_len, n_a, z_len),
        0 <= t_len,
        0 <= z_len,
        forall|i: int| 0 <= i < n_b * t_len ==> #[trigger] m1(i) == m2(i),
        forall|i: int| 0 <= i < n_a * z_len ==> #[trigger] m1(i) == m2(i),
    ensures
        rows.are(m2, t, z, n_b, t_len, n_a, z_len),
{
    assert forall|r: int, k: int| 0 <= r < n_b && 0 <= k < D implies #[trigger] rows.b_cyclic@[r]@[
    k] == rl::sum_range(b_row_terms(m2, t, t_len)(r, k), 0, t_len) by {
        let f = b_row_terms(m1, t, t_len)(r, k);
        let g = b_row_terms(m2, t, t_len)(r, k);
        assert forall|j: int| 0 <= j < t_len implies #[trigger] f(j) == g(j) by {
            lemma_index_fits(r, n_b, t_len, j);
            assert(m1(r * t_len + j) == m2(r * t_len + j));
        }
        rl::lemma_sum_congruent(f, g, 0, t_len);
    }
    lemma_carries_agree(rows.a_quotients@, m1, m2, z, n_a, z_len);
}

/// The carries of matrices that agree on the entries reached.
pub proof fn lemma_carries_agree<F: Field, const D: usize>(
    rows: Seq<CyclotomicRing<F, D>>,
    m1: spec_fn(int) -> Seq<F>,
    m2: spec_fn(int) -> Seq<F>,
    z: Seq<[i32; D]>,
    n_a: int,
    z_len: int,
)
    requires
        holds_sums(rows, a_row_terms(m1, z, z_len), n_a, 0, z_len),
        0 <= z_len,
        forall|i: int| 0 <= i < n_a * z_len ==> #[trigger] m1(i) == m2(i),
    ensures
        holds_sums(rows, a_row_terms(m2, z, z_len), n_a, 0, z_len),
{
    assert forall|r: int, k: int| 0 <= r < n_a && 0 <= k < D implies #[trigger] rows[r]@[k]
        == rl::sum_range(a_row_terms(m2, z, z_len)(r, k), 0, z_len) by {
        let f = a_row_terms(m1, z, z_len)(r, k);
        let g = a_row_terms(m2, z, z_len)(r, k);
        assert forall|j: int| 0 <= j < z_len implies #[trigger] f(j) == g(j) by {
            lemma_index_fits(r, n_a, z_len, j);
            assert(m1(r * z_len + j) == m2(r * z_len + j));
        }
        rl::lemma_sum_congruent(f, g, 0, z_len);
    }
}

/// The rows of a run hold their products. Coefficient by coefficient, a B row is
/// the sum of the products modulo `X^D - 1` of its own entries of the matrix with
/// the digit vectors. An A row holds half of what the products of its own entries
/// with the centered vectors modulo `X^D - 1` exceed those modulo `X^D + 1` by.
pub proof fn law_rows_hold_their_products<F: Field, const D: usize>(
    rows: FusedQuotientRows<F, D>,
    matrix: spec_fn(int) -> Seq<F>,
    t: Seq<[i8; D]>,
    z: Seq<[i32; D]>,
    n_b: int,
    t_len: int,
    n_a: int,
    z_len: int,
    row: int,
    k: int,
)
    requires
        rows.are(matrix, t, z, n_b, t_len, n_a, z_len),
        0 <= t_len,
        0 <= z_len,
        0 <= k < D,
        forall|i: int| 0 <= i ==> (#[trigger] matrix(i)).len() == D,
    ensures
        rows.b_cyclic@.len() == n_b,
        rows.a_quotients@.len() == n_a,
        0 <= row < n_b ==> rows.b_cyclic@[row]@[k] == rl::sum_range(
            |j: int|
                cyclic::cyclic_coeff(
                    matrix(t_len * row + j),
                    Seq::new(D as nat, |i: int| F::of_int(t[j]@[i] as int)),
                    k,
                ),
            0,
            t_len,
        ),
        0 <= row < n_a ==> {
            let carry = rows.a_quotients@[row]@[k];
            rl::sum_range(
                |j: int|
                    cyclotomic::product_coeff(
                        matrix(z_len * row + j),
                        Seq::new(D as nat, |i: int| F::of_int(z[j]@[i] as int)),
                        k,
                    ),
                0,
                z_len,
            ) + (carry + carry) == rl::sum_range(
                |j: int|
                    cyclic::cyclic_coeff(
                        matrix(z_len * row + j),
                        Seq::new(D as nat, |i: int| F::of_int(z[j]@[i] as int)),
                        k,
                    ),
                0,
                z_len,
            )
        },
{
    assert(t_len * row == row * t_len) by (nonlinear_arith);
    assert(z_len * row == row * z_len) by (nonlinear_arith);
    if 0 <= row < n_b {
        let f = b_row_terms(matrix, t, t_len)(row, k);
        let g = |j: int|
            cyclic::cyclic_coeff(
                matrix(t_len * row + j),
                Seq::new(D as nat, |i: int| F::of_int(t[j]@[i] as int)),
                k,
            );
        assert forall|j: int| 0 <= j < t_len implies #[trigger] f(j) == g(j) by {
            assert(lift8::<F>(t[j]@) =~= Seq::new(D as nat, |i: int| F::of_int(t[j]@[i] as int)));
        }
        rl::lemma_sum_congruent(f, g, 0, t_len);
        assert(rows.b_cyclic@[row]@[k] == rl::sum_range(f, 0, t_len));
    }
    if 0 <= row < n_a {
        let f = a_row_terms(matrix, z, z_len)(row, k);
        let twice = |j: int| f(j) + f(j);
        let low = |j: int|
            cyclotomic::product_coeff(
                matrix(z_len * row + j),
                Seq::new(D as nat, |i: int| F::of_int(z[j]@[i] as int)),
                k,
            );
        let high = |j: int|
            cyclic::cyclic_coeff(
                matrix(z_len * row + j),
                Seq::new(D as nat, |i: int| F::of_int(z[j]@[i] as int)),
                k,
            );
        assert(0 <= z_len * row) by (nonlinear_arith)
            requires
                0 <= z_len,
                0 <= row,
        ;
        assert forall|j: int| 0 <= j < z_len implies #[trigger] high(j) == low(j) + twice(j) by {
            let b = Seq::new(D as nat, |i: int| F::of_int(z[j]@[i] as int));
            assert(lift32::<F>(z[j]@) =~= b);
            assert(matrix(z_len * row + j).len() == D);
            cyclic::law_products_differ_by_carries(matrix(z_len * row + j), b, k);
        }
        rl::lemma_sum_add(f, f, twice, 0, z_len);
        rl::lemma_sum_add(low, twice, high, 0, z_len);
        assert(rows.a_quotients@[row]@[k] == rl::sum_range(f, 0, z_len));
    }
}

/// A matrix reaches as far as each of its products, and no farther than both.
pub proof fn law_extents_cover_both_products(n_b: int, t_len: int, n_a: int, z_len: int)
    ensures
        extent(n_b, t_len, n_a, z_len) >= n_b * t_len,
        extent(n_b, t_len, n_a, z_len) >= n_a * z_len,
        extent(n_b, t_len, n_a, z_len) == n_b * t_len || extent(n_b, t_len, n_a, z_len) == n_a
            * z_len,
{
}

/// A balanced digit is at most half of its base in magnitude: two to the number
/// of its bits without one.
pub proof fn law_balanced_bounds_are_halves(log_basis: int)
    requires
        1 <= log_basis <= 8,
    ensures
        2 * balanced_bound(log_basis) == vstd::arithmetic::power2::pow2(log_basis as nat),
{
    vstd::arithmetic::power2::lemma2_to64();
}

/// Vectors are within a bound exactly when every coefficient lies between the
/// bound and its negative.
pub proof fn law_bounds_are_two_sided<const D: usize>(
    t: Seq<[i8; D]>,
    z: Seq<[i32; D]>,
    bound: int,
)
    ensures
        digits_within(t, t.len() as int, bound) <==> forall|j: int, k: int|
            0 <= j < t.len() && 0 <= k < D ==> -bound <= #[trigger] t[j]@[k] <= bound,
        rows_within(z, z.len() as int, bound) <==> forall|j: int, k: int|
            0 <= j < z.len() && 0 <= k < D ==> -bound <= #[trigger] z[j]@[k] <= bound,
{
}

/// A run that fits one chunk has both of its lengths within their widths, and the
/// chunks of a range follow each other from its start to its end.
pub proof fn law_chunks_cover_their_range(len: int, width: int, c: int)
    requires
        0 <= len,
        0 < width,
        0 <= c,
    ensures
        chunk_cut(len, width, 0) == 0,
        0 <= chunk_cut(len, width, c + 1) - chunk_cut(len, width, c) <= width,
        c * width >= len ==> chunk_cut(len, width, c) == len,
        (c + 1) * width <= len ==> chunk_cut(len, width, c + 1) - chunk_cut(len, width, c) == width,
{
    assert((c + 1) * width == c * width + width) by (nonlinear_arith);
    assert(0 * width == 0) by (nonlinear_arith);
    assert(0 <= c * width) by (nonlinear_arith)
        requires
            0 <= c,
            0 < width,
    ;
}

/// The least bound on some rows is their largest magnitude: no coefficient exceeds it
/// either way, and where it is not zero some coefficient reaches it.
pub proof fn law_least_bounds_are_reached<const D: usize>(rows: Seq<[i32; D]>)
    ensures
        least_bound(rows) >= 0,
        forall|j: int, k: int|
            0 <= j < rows.len() && 0 <= k < D ==> -least_bound(rows) <= #[trigger] rows[j]@[k]
                <= least_bound(rows),
        least_bound(rows) > 0 ==> exists|j: int, k: int|
            0 <= j < rows.len() && 0 <= k < D && (#[trigger] rows[j]@[k] == least_bound(rows)
                || rows[j]@[k] == -least_bound(rows)),
{
    let n = rows.len() as int;
    assert(rows_within(rows, n, 0x8000_0000));
    let m = lemma_least_bound_exists(rows, 0x8000_0000);
    let b = least_bound(rows);
    assert(is_least_bound(rows, b));
    assert forall|j: int, k: int| 0 <= j < rows.len() && 0 <= k < D implies -b
        <= #[trigger] rows[j]@[k] <= b by {
        assert(magnitude(rows[j]@[k]) <= b);
    }
    if b > 0 && !(exists|j: int, k: int|
        0 <= j < rows.len() && 0 <= k < D && (#[trigger] rows[j]@[k] == b || rows[j]@[k] == -b)) {
        assert(rows_within(rows, n, b - 1)) by {
            assert forall|j: int, k: int| 0 <= j < n && j < rows.len() && 0 <= k < D implies
                magnitude(#[trigger] rows[j]@[k]) <= b - 1 by {
                assert(magnitude(rows[j]@[k]) <= b);
            }
        }
    }
}

proof fn lemma_least_bound_exists<const D: usize>(rows: Seq<[i32; D]>, b: int) -> (m: int)
    requires
        0 <= b,
        rows_within(rows, rows.len() as int, b),
    ensures
        is_least_bound(rows, m),
    decreases b,
{
    let n = rows.len() as int;
    if b > 0 && rows_within(rows, n, b - 1) {
        lemma_least_bound_exists(rows, b - 1)
    } else {
        assert forall|bound: int| 0 <= bound && #[trigger] rows_within(rows, n, bound) implies b
            <= bound by {
            if bound < b {
                assert forall|j: int, k: int| 0 <= j < n && j < rows.len() && 0 <= k < D implies
                    magnitude(#[trigger] rows[j]@[k]) <= b - 1 by {
                    assert(magnitude(rows[j]@[k]) <= bound);
                }
                assert(rows_within(rows, n, b - 1));
            }
        }
        b
    }
}

} // verus!
