//! Products of the compression row with batches of negative-binary vectors.

use crate::cyclotomic::CyclotomicRing;
use crate::error::{message, AkitaError};
use crate::field::Field;
use crate::fused;
use crate::fused::{PreparedBase, PreparedNttCache};
use crate::quotients;
use crate::quotients::{FusedMatrixSource, TransformCapacity};
use crate::relation::{digit_products, CpuBackend, CpuPreparedSetup, DigitRelationRows};
use crate::text;
use crate::text::{push_decimal, push_text};
use vstd::prelude::*;

verus! {

/// Whether a batch has vectors, all of one width that is not zero.
pub open spec fn batch_shaped<const D: usize>(batch: Seq<&[[i8; D]]>) -> bool {
    &&& batch.len() > 0
    &&& batch[0]@.len() > 0
    &&& forall|i: int| 0 <= i < batch.len() ==> (#[trigger] batch[i])@.len() == batch[0]@.len()
}

/// What a batch is refused with whose width is not the one asked for.
pub open spec fn width_mismatch_text(actual: nat, asked: nat) -> Seq<char> {
    "compression digit width "@ + text::decimal(actual) + " does not match requested width "@
        + text::decimal(asked)
}

fn width_mismatch(actual: usize, asked: usize) -> (e: AkitaError)
    ensures
        e.is_input(width_mismatch_text(actual as nat, asked as nat)),
{
    let mut out = message("compression digit width ");
    push_decimal(&mut out, actual as u128);
    push_text(&mut out, message(" does not match requested width "));
    push_decimal(&mut out, asked as u128);
    AkitaError::InvalidInput(out)
}

/// Whether every digit is 0 or -1.
pub open spec fn negative_binary<const D: usize>(rows: Seq<[i8; D]>) -> bool {
    forall|j: int, k: int|
        0 <= j < rows.len() && 0 <= k < D ==> -1 <= #[trigger] rows[j]@[k] <= 0
}

/// The width of a batch.
pub fn validate_compression_batch_shape<const D: usize>(digit_vectors: &[&[[i8; D]]]) -> (r: Result<
    usize,
    AkitaError,
>)
    ensures
        match r {
            Ok(width) => batch_shaped(digit_vectors@) && width == digit_vectors@[0]@.len(),
            Err(e) => !batch_shaped(digit_vectors@) && e.is_input(
                if digit_vectors@.len() == 0 || digit_vectors@[0]@.len() == 0 {
                    "compression batch must contain nonempty digit vectors"@
                } else {
                    "compression batch digit vectors must have one exact shape"@
                },
            ),
        },
{
    if digit_vectors.len() == 0 {
        return Err(AkitaError::input("compression batch must contain nonempty digit vectors"));
    }
    let width: usize = digit_vectors[0].len();
    if width == 0 {
        return Err(AkitaError::input("compression batch must contain nonempty digit vectors"));
    }
    let mut i: usize = 0;
    while i < digit_vectors.len()
        invariant
            i <= digit_vectors@.len(),
            digit_vectors@.len() > 0,
            width == digit_vectors@[0]@.len(),
            width > 0,
            forall|m: int| 0 <= m < i ==> (#[trigger] digit_vectors@[m])@.len() == width,
        decreases digit_vectors@.len() - i,
    {
        if digit_vectors[i].len() != width {
            assert(digit_vectors@[i as int]@.len() != width);
            return Err(
                AkitaError::input("compression batch digit vectors must have one exact shape"),
            );
        }
        i += 1;
    }
    Ok(width)
}

/// Whether every digit is 0 or -1.
fn check_negative_binary<const D: usize>(rows: &[[i8; D]]) -> (b: bool)
    ensures
        b == negative_binary(rows@),
{
    let mut j: usize = 0;
    while j < rows.len()
        invariant
            j <= rows@.len(),
            forall|i: int, k: int|
                0 <= i < j && 0 <= k < D ==> -1 <= #[trigger] rows@[i]@[k] <= 0,
        decreases rows@.len() - j,
    {
        let mut k: usize = 0;
        while k < D
            invariant
                k <= D,
                j < rows@.len(),
                forall|i: int| 0 <= i < k ==> -1 <= #[trigger] rows@[j as int]@[i] <= 0,
            decreases D - k,
        {
            let digit: i8 = rows[j][k];
            if digit < -1 || digit > 0 {
                assert(!(-1 <= rows@[j as int]@[k as int] <= 0));
                return false;
            }
            k += 1;
        }
        j += 1;
    }
    true
}

/// Whether every vector of a batch is negative-binary.
pub open spec fn batch_binary<const D: usize>(batch: Seq<&[[i8; D]]>) -> bool {
    forall|i: int| 0 <= i < batch.len() ==> negative_binary((#[trigger] batch[i])@)
}

/// Whether lists of products are those of a batch, in order.
pub open spec fn products_are<F: Field, const D: usize>(
    products: Seq<DigitRelationRows<F, D>>,
    matrix: spec_fn(int) -> Seq<F>,
    batch: Seq<&[[i8; D]]>,
) -> bool {
    &&& products.len() == batch.len()
    &&& forall|i: int|
        0 <= i < products.len() ==> (#[trigger] products[i]).are(matrix, batch[i]@, 1)
}

/// The products of the first row of a prepared matrix with every vector of a
/// batch, modulo `X^D + 1` and modulo `X^D - 1`.
pub fn mat_vec_mul_ntt_compression_i8<F: Field, C: TransformCapacity, const D: usize>(
    slot: &PreparedNttCache<F, C, D>,
    input_width: usize,
    digit_vectors: &[&[[i8; D]]],
) -> (r: Result<Vec<DigitRelationRows<F, D>>, AkitaError>)
    requires
        fused::negacyclic_prefix(*slot, 1) is Some && fused::cyclic_prefix(*slot) is Some
            ==> quotients::one_matrix(
            fused::negacyclic_prefix(*slot, 1)->0,
            fused::cyclic_prefix(*slot)->0,
        ),
    ensures
        ({
            let neg = fused::negacyclic_prefix(*slot, 1);
            let cyc = fused::cyclic_prefix(*slot);
            let batch = digit_vectors@;
            let fitting = batch_shaped(batch) && batch[0]@.len() == input_width && batch_binary(
                batch,
            );
            let covered = neg is Some && cyc is Some && input_width <= neg->0.len() && input_width
                <= cyc->0.len();
            match r {
                Ok(products) => fitting && covered && products_are(
                    products@,
                    quotients::prepared_matrix(neg->0, cyc->0),
                    batch,
                ),
                Err(e) => !(fitting && covered) && if fitting {
                    e is InvalidSetup
                } else {
                    e is InvalidInput && (batch_shaped(batch) && batch[0]@.len() != input_width
                        ==> e.is_input(
                        width_mismatch_text(batch[0]@.len(), input_width as nat),
                    ))
                },
            }
        }),
{
    let actual_width: usize = match validate_compression_batch_shape(digit_vectors) {
        Ok(width) => width,
        Err(e) => {
            return Err(e);
        },
    };
    if actual_width != input_width {
        return Err(width_mismatch(actual_width, input_width));
    }
    let mut i: usize = 0;
    while i < digit_vectors.len()
        invariant
            i <= digit_vectors@.len(),
            batch_shaped(digit_vectors@),
            digit_vectors@[0]@.len() == input_width,
            forall|m: int| 0 <= m < i ==> negative_binary((#[trigger] digit_vectors@[m])@),
        decreases digit_vectors@.len() - i,
    {
        if !check_negative_binary(digit_vectors[i]) {
            assert(!negative_binary(digit_vectors@[i as int]@));
            return Err(
                AkitaError::input("compression digits are out of range for negative binary"),
            );
        }
        i += 1;
    }
    let base = match &slot.base {
        Some(base) => base,
        None => {
            return Err(
                AkitaError::setup("compression requires a paired base-profile NTT cache"),
            );
        },
    };
    let negacyclic = match &base.negacyclic {
        Some(list) => list,
        None => {
            return Err(AkitaError::setup("negacyclic NTT domain not prepared"));
        },
    };
    let cyclic = match &base.cyclic {
        Some(list) => list,
        None => {
            return Err(AkitaError::setup("cyclic NTT domain not prepared"));
        },
    };
    if negacyclic.len() < input_width {
        return Err(AkitaError::setup("compression negacyclic NTT prefix is too short"));
    }
    if cyclic.len() < input_width {
        return Err(AkitaError::setup("compression cyclic NTT prefix is too short"));
    }
    let source = FusedMatrixSource::Cached { negacyclic, cyclic };
    let mut products: Vec<DigitRelationRows<F, D>> = Vec::new();
    let mut k: usize = 0;
    while k < digit_vectors.len()
        invariant
            k <= digit_vectors@.len(),
            source.wf(),
            batch_shaped(digit_vectors@),
            digit_vectors@[0]@.len() == input_width,
            input_width <= source.cyclic_len(),
            input_width <= source.negacyclic_len(),
            products@.len() == k,
            forall|m: int|
                0 <= m < k ==> (#[trigger] products@[m]).are(
                    source.matrix(),
                    digit_vectors@[m]@,
                    1,
                ),
        decreases digit_vectors@.len() - k,
    {
        assert(digit_vectors@[k as int]@.len() == input_width);
        products.push(digit_products(&source, 1, digit_vectors[k]));
        k += 1;
    }
    Ok(products)
}

impl CpuBackend {
    /// The products of the first row of the shared matrix with every vector of
    /// a batch.
    pub fn compression_rows_products<F: Field, C: TransformCapacity + Copy, const D: usize>(
        &self,
        prepared: &CpuPreparedSetup<F, C, D>,
        digit_vectors: &[&[[i8; D]]],
    ) -> (r: Result<Vec<DigitRelationRows<F, D>>, AkitaError>)
        ensures
            ({
                let batch = digit_vectors@;
                let fitting = batch_shaped(batch) && batch_binary(batch);
                let covered = batch[0]@.len() <= prepared.matrix@.len();
                match r {
                    Ok(products) => fitting && covered && products_are(
                        products@,
                        quotients::field_matrix(prepared.matrix@),
                        batch,
                    ),
                    Err(e) => !(fitting && covered) && (batch_shaped(batch) && !covered
                        ==> e is InvalidSetup) && (!batch_shaped(batch) || covered
                        ==> e is InvalidInput),
                }
            }),
    {
        let input_width: usize = match validate_compression_batch_shape(digit_vectors) {
            Ok(width) => width,
            Err(e) => {
                return Err(e);
            },
        };
        if input_width > prepared.matrix.len() {
            return Err(AkitaError::setup("compression row exceeds the shared matrix"));
        }
        let list = crate::relation::prefix(&prepared.matrix, input_width);
        let other = crate::relation::prefix(&prepared.matrix, input_width);
        let slot = PreparedNttCache {
            base: Some(
                PreparedBase {
                    profile: prepared.profile,
                    params: prepared.params,
                    negacyclic: Some(list),
                    cyclic: Some(other),
                },
            ),
            tail: None,
        };
        let products = mat_vec_mul_ntt_compression_i8(&slot, input_width, digit_vectors);
        proof {
            if products is Ok {
                let lists = (products->Ok_0)@;
                let short = prepared.matrix@.take(input_width as int);
                assert forall|i: int| 0 <= i < lists.len() implies (#[trigger] lists[i]).are(
                    quotients::field_matrix(prepared.matrix@),
                    digit_vectors@[i]@,
                    1,
                ) by {
                    crate::relation::lemma_d_rows_agree(
                        lists[i],
                        quotients::prepared_matrix(short, short),
                        quotients::field_matrix(prepared.matrix@),
                        digit_vectors@[i]@,
                        1,
                    );
                }
            }
        }
        products
    }
}

/// A batch of digit vectors fits where it has vectors, all of one width that is
/// not zero, and every digit is zero or minus one.
pub proof fn law_batches_of_negative_binary_digits<const D: usize>(batch: Seq<&[[i8; D]]>)
    ensures
        batch_shaped(batch) && batch_binary(batch) <==> batch.len() > 0 && batch[0]@.len() > 0 && (
        forall|i: int| 0 <= i < batch.len() ==> (#[trigger] batch[i])@.len() == batch[0]@.len())
            && (forall|i: int, j: int, k: int|
            0 <= i < batch.len() && 0 <= j < batch[i]@.len() && 0 <= k < D
                ==> #[trigger] batch[i]@[j]@[k] == 0 || batch[i]@[j]@[k] == -1),
{
    if batch_binary(batch) {
        assert forall|i: int, j: int, k: int|
            0 <= i < batch.len() && 0 <= j < batch[i]@.len() && 0 <= k < D
                implies #[trigger] batch[i]@[j]@[k] == 0 || batch[i]@[j]@[k] == -1 by {
            assert(negative_binary(batch[i]@));
        }
    }
}

} // verus!
