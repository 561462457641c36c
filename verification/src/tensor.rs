//! The tensor value object: an inferred rank and shape over a flat, row-major
//! value vector, with flat and multi-dimensional indexing.

use crate::fundamental::Field;
use crate::shape::as_ints;
use crate::shape::seq_int_product;
use crate::TensorError;
use vstd::prelude::*;

verus! {

/// Product of the axis sizes from axis `i` on; the row-major stride of axis
/// `i - 1`.
pub open spec fn suffix_product(shape: Seq<int>, i: int) -> int
    decreases shape.len() - i,
{
    if i < 0 || i >= shape.len() {
        1
    } else {
        shape[i] * suffix_product(shape, i + 1)
    }
}

/// The flat, row-major offset of a multi-dimensional index: the sum, over the
/// first `k` index entries, of the entry times the stride of its axis.
pub open spec fn flat_offset(indices: Seq<int>, shape: Seq<int>, k: int) -> int
    decreases k,
{
    if k <= 0 {
        0
    } else {
        flat_offset(indices, shape, k - 1) + indices[k - 1] * suffix_product(shape, k)
    }
}

pub proof fn lemma_suffix_product_pos(shape: Seq<int>, i: int)
    requires
        forall|q: int| 0 <= q < shape.len() ==> shape[q] >= 1,
    ensures
        suffix_product(shape, i) >= 1,
    decreases shape.len() - i,
{
    if 0 <= i < shape.len() {
        lemma_suffix_product_pos(shape, i + 1);
        assert(shape[i] * suffix_product(shape, i + 1) >= 1 * 1) by (nonlinear_arith)
            requires
                shape[i] >= 1,
                suffix_product(shape, i + 1) >= 1,
        ;
    }
}

/// With nonnegative index entries and positive axis sizes, longer prefixes of
/// the index only grow the offset.
pub proof fn lemma_flat_offset_monotone(indices: Seq<int>, shape: Seq<int>, k1: int, k2: int)
    requires
        forall|q: int| 0 <= q < indices.len() ==> indices[q] >= 0,
        forall|q: int| 0 <= q < shape.len() ==> shape[q] >= 1,
        0 <= k1 <= k2 <= indices.len(),
    ensures
        flat_offset(indices, shape, k1) <= flat_offset(indices, shape, k2),
    decreases k2 - k1,
{
    if k1 < k2 {
        lemma_suffix_product_pos(shape, k2);
        assert(indices[k2 - 1] * suffix_product(shape, k2) >= 0) by (nonlinear_arith)
            requires
                indices[k2 - 1] >= 0,
                suffix_product(shape, k2) >= 1,
        ;
        lemma_flat_offset_monotone(indices, shape, k1, k2 - 1);
    }
}

/// The product of the axis sizes from axis `i` on is the product of the
/// remaining shape.
pub proof fn lemma_suffix_product_is_product(shape: Seq<int>, i: int)
    requires
        0 <= i <= shape.len(),
    ensures
        suffix_product(shape, i) == seq_int_product(shape.skip(i)),
    decreases shape.len() - i,
{
    if i == shape.len() {
        assert(shape.skip(i) =~= Seq::<int>::empty());
    } else {
        lemma_suffix_product_is_product(shape, i + 1);
        assert(shape.skip(i).drop_first() =~= shape.skip(i + 1));
        crate::shape::lemma_product_cons(shape.skip(i));
        assert(shape.skip(i)[0] == shape[i]);
    }
}

/// Telescoping bound: an index within the shape on every axis keeps the
/// offset sum below the remaining capacity.
proof fn lemma_flat_offset_bound(indices: Seq<int>, shape: Seq<int>, k: int)
    requires
        indices.len() <= shape.len(),
        forall|i: int| 0 <= i < shape.len() ==> shape[i] >= 1,
        forall|i: int| 0 <= i < indices.len() ==> 0 <= #[trigger] indices[i] < shape[i],
        0 <= k <= indices.len(),
    ensures
        flat_offset(indices, shape, k) <= suffix_product(shape, 0) - suffix_product(shape, k),
    decreases k,
{
    if k > 0 {
        lemma_flat_offset_bound(indices, shape, k - 1);
        lemma_suffix_product_pos(shape, k);
        assert(suffix_product(shape, k - 1) == shape[k - 1] * suffix_product(shape, k));
        assert(indices[k - 1] * suffix_product(shape, k) <= (shape[k - 1] - 1) * suffix_product(
            shape,
            k,
        )) by (nonlinear_arith)
            requires
                indices[k - 1] <= shape[k - 1] - 1,
                suffix_product(shape, k) >= 1,
        ;
        assert((shape[k - 1] - 1) * suffix_product(shape, k) == shape[k - 1] * suffix_product(
            shape,
            k,
        ) - suffix_product(shape, k)) by (nonlinear_arith);
    }
}

/// A full multi-dimensional index that stays within the shape on every axis
/// selects a flat offset inside the value range: on a tensor, where the
/// values number `product(shape)`, such a lookup always succeeds.
pub proof fn lemma_full_index_in_range(indices: Seq<int>, shape: Seq<int>)
    requires
        indices.len() == shape.len(),
        forall|i: int| 0 <= i < shape.len() ==> shape[i] >= 1,
        forall|i: int| 0 <= i < indices.len() ==> 0 <= #[trigger] indices[i] < shape[i],
    ensures
        0 <= flat_offset(indices, shape, indices.len() as int) < seq_int_product(shape),
{
    let k = indices.len() as int;
    lemma_flat_offset_bound(indices, shape, k);
    lemma_flat_offset_monotone(indices, shape, 0, k);
    lemma_suffix_product_is_product(shape, 0);
    assert(shape.skip(0) =~= shape);
    assert(suffix_product(shape, k) == 1);
}

/// An immutable multi-dimensional array: the flattened scalars of a parsed
/// literal in row-major order, together with the inferred per-axis sizes,
/// the rank and the element count of the innermost axis.
#[derive(Debug)]
pub struct Tensor<T: Field> {
    rank: usize,
    shape: Vec<usize>,
    dimensions: usize,
    value: Vec<T>,
}

impl<T: Field> Tensor<T> {
    /// Every tensor has at least one axis, every axis size is positive, the
    /// stored scalars number exactly the product of the axis sizes, the rank
    /// never exceeds the number of axes, and the element count is positive.
    #[verifier::type_invariant]
    pub closed spec fn wf(self) -> bool {
        &&& self.shape@.len() >= 1
        &&& forall|i: int| 0 <= i < self.shape@.len() ==> self.shape@[i] >= 1
        &&& seq_int_product(as_ints(self.shape@)) == self.value@.len()
        &&& self.rank as int <= self.shape@.len()
        &&& self.dimensions >= 1
    }

    pub closed spec fn spec_rank(self) -> usize {
        self.rank
    }

    pub closed spec fn spec_shape(self) -> Seq<usize> {
        self.shape@
    }

    pub closed spec fn spec_dimensions(self) -> usize {
        self.dimensions
    }

    pub closed spec fn spec_value(self) -> Seq<T> {
        self.value@
    }

    /// Assemble a tensor from already-normalized parts.
    pub(crate) fn new(rank: usize, shape: Vec<usize>, dimensions: usize, value: Vec<T>) -> (t:
        Tensor<T>)
        requires
            shape@.len() >= 1,
            forall|i: int| 0 <= i < shape@.len() ==> shape@[i] >= 1,
            seq_int_product(as_ints(shape@)) == value@.len(),
            rank as int <= shape@.len(),
            dimensions >= 1,
        ensures
            t.spec_rank() == rank,
            t.spec_shape() == shape@,
            t.spec_dimensions() == dimensions,
            t.spec_value() == value@,
    {
        Tensor { rank, shape, dimensions, value }
    }

    /// The per-axis sizes, outermost axis first: at least one axis, each of
    /// positive size, multiplying out to the number of stored scalars, and
    /// never fewer axes than the rank.
    pub fn shape(&self) -> (r: &Vec<usize>)
        ensures
            r@ == self.spec_shape(),
            r@.len() >= 1,
            forall|i: int| 0 <= i < r@.len() ==> #[trigger] r@[i] >= 1,
            seq_int_product(as_ints(r@)) == self.spec_value().len(),
            self.spec_rank() as int <= r@.len(),
    {
        proof {
            use_type_invariant(self);
        }
        &(self.shape)
    }

    /// The number of axes after degenerate-case normalization; it never
    /// exceeds the length of the shape.
    pub fn rank(&self) -> (r: usize)
        ensures
            r == self.spec_rank(),
            r as int <= self.spec_shape().len(),
    {
        proof {
            use_type_invariant(self);
        }
        self.rank
    }

    /// The element count of the innermost axis, adjusted for degenerate
    /// vectors; always positive.
    pub fn dimensions(&self) -> (r: usize)
        ensures
            r == self.spec_dimensions(),
            r >= 1,
    {
        proof {
            use_type_invariant(self);
        }
        self.dimensions
    }

    /// The flattened scalars in depth-first, row-major order; their number is
    /// the product of the axis sizes.
    pub fn value(&self) -> (r: &Vec<T>)
        ensures
            r@ == self.spec_value(),
            r@.len() == seq_int_product(as_ints(self.spec_shape())),
    {
        proof {
            use_type_invariant(self);
        }
        &(self.value)
    }

    /// The scalar at a flat, row-major offset.
    pub fn flat_index(&self, index: usize) -> (r: Result<T, TensorError>)
        ensures
            index < self.spec_value().len() ==> r == Ok::<T, TensorError>(
                self.spec_value()[index as int],
            ),
            index >= self.spec_value().len() ==> r == Err::<T, TensorError>(
                TensorError::IndexOutOfRange,
            ),
    {
        if index < self.value.len() {
            Ok(self.value[index])
        } else {
            Err(TensorError::IndexOutOfRange)
        }
    }

    /// Look a scalar up by a multi-dimensional index, one entry per leading
    /// axis; trailing axes count as fully selected. Per index entry the
    /// accumulator starts at the entry, and every deeper axis `j` adds
    /// `tmp * (shape[j] - 1)`, which multiplies the entry by the product of
    /// the deeper axis sizes — the row-major stride of its axis. The summed
    /// offset selects the scalar, or falls outside the values and fails.
    #[verifier::loop_isolation(false)]
    pub fn index(&self, indices: &[usize]) -> (r: Result<T, TensorError>)
        requires
            indices@.len() <= self.spec_shape().len(),
        ensures
            ({
                let off = flat_offset(
                    as_ints(indices@),
                    as_ints(self.spec_shape()),
                    indices@.len() as int,
                );
                &&& off < self.spec_value().len() ==> r == Ok::<T, TensorError>(
                    self.spec_value()[off],
                )
                &&& off >= self.spec_value().len() ==> r == Err::<T, TensorError>(
                    TensorError::IndexOutOfRange,
                )
                &&& ({
                    let within = forall|q: int|
                        #![trigger indices@[q]]
                        0 <= q < indices@.len() ==> (indices@[q] as int) < (
                        self.spec_shape()[q] as int);
                    (indices@.len() == self.spec_shape().len() && within) ==> off
                        < self.spec_value().len()
                })
            }),
    {
        proof {
            use_type_invariant(self);
        }
        let ghost ishape = as_ints(self.shape@);
        let ghost iidx = as_ints(indices@);
        proof {
            assert forall|q: int| 0 <= q < iidx.len() implies #[trigger] iidx[q] >= 0 by {
                assert(iidx[q] == indices@[q] as int);
            }
            assert forall|q: int| 0 <= q < ishape.len() implies #[trigger] ishape[q] >= 1 by {
                assert(ishape[q] == self.shape@[q] as int);
            }
            lemma_full_index_fits(iidx, ishape, self.value@.len() as int);
        }
        let m = self.shape.len();
        let k = indices.len();
        let vlen = self.value.len();
        let mut offset: usize = 0;
        let mut i: usize = 0;
        while i < k
            invariant
                i <= k,
                offset as int == flat_offset(iidx, ishape, i as int),
            decreases k - i,
        {
            let mut tmp = indices[i];
            let ghost entry = iidx[i as int];
            proof {
                assert(entry == indices@[i as int] as int);
            }
            let mut j = i;
            while j < m
                invariant
                    i <= j <= m,
                    j == i ==> tmp as int == entry,
                    j > i ==> tmp as int * suffix_product(ishape, j as int) == entry
                        * suffix_product(ishape, i as int + 1),
                decreases m - j,
            {
                if j != i {
                    let axis = self.shape[j];
                    proof {
                        lemma_suffix_product_pos(ishape, j as int + 1);
                        assert(suffix_product(ishape, j as int) == axis as int * suffix_product(
                            ishape,
                            j as int + 1,
                        ));
                    }
                    // The term alone exceeding `usize` puts the whole offset
                    // out of range.
                    let part = match tmp.checked_mul(axis - 1) {
                        Some(p) => p,
                        None => {
                            proof {
                                assert(tmp as int * axis as int > usize::MAX as int)
                                    by (nonlinear_arith)
                                    requires
                                        tmp as int * (axis as int - 1) > usize::MAX as int,
                                        tmp as int >= 0,
                                        axis as int >= 1,
                                ;
                                lemma_index_term_overflow(
                                    iidx,
                                    ishape,
                                    i as int,
                                    j as int,
                                    tmp as int,
                                    k as int,
                                );
                            }
                            return Err(TensorError::IndexOutOfRange);
                        },
                    };
                    let grown = match tmp.checked_add(part) {
                        Some(g) => g,
                        None => {
                            proof {
                                assert(tmp as int * axis as int > usize::MAX as int)
                                    by (nonlinear_arith)
                                    requires
                                        tmp as int + part as int > usize::MAX as int,
                                        part as int == tmp as int * (axis as int - 1),
                                ;
                                lemma_index_term_overflow(
                                    iidx,
                                    ishape,
                                    i as int,
                                    j as int,
                                    tmp as int,
                                    k as int,
                                );
                            }
                            return Err(TensorError::IndexOutOfRange);
                        },
                    };
                    proof {
                        assert(grown as int == tmp as int * axis as int) by (nonlinear_arith)
                            requires
                                grown as int == tmp as int + part as int,
                                part as int == tmp as int * (axis as int - 1),
                        ;
                        if j > i {
                            assert((tmp as int * axis as int) * suffix_product(
                                ishape,
                                j as int + 1,
                            ) == tmp as int * suffix_product(ishape, j as int))
                                by (nonlinear_arith)
                                requires
                                    suffix_product(ishape, j as int) == axis as int
                                        * suffix_product(ishape, j as int + 1),
                            ;
                        }
                    }
                    tmp = grown;
                }
                j = j + 1;
            }
            proof {
                assert(suffix_product(ishape, m as int) == 1);
                if i + 1 > m {
                    assert(suffix_product(ishape, i as int + 1) == 1);
                }
                assert(tmp as int == entry * suffix_product(ishape, i as int + 1));
                lemma_flat_offset_monotone(iidx, ishape, i as int + 1, k as int);
                assert(flat_offset(iidx, ishape, i as int + 1) == offset + tmp);
            }
            offset = match offset.checked_add(tmp) {
                Some(o) => o,
                None => {
                    return Err(TensorError::IndexOutOfRange);
                },
            };
            i = i + 1;
        }
        if offset < vlen {
            Ok(self.value[offset])
        } else {
            Err(TensorError::IndexOutOfRange)
        }
    }
}

/// A full index that is within the shape on every axis reaches an offset
/// below the number of stored values.
proof fn lemma_full_index_fits(indices: Seq<int>, shape: Seq<int>, vlen: int)
    requires
        forall|q: int| 0 <= q < indices.len() ==> #[trigger] indices[q] >= 0,
        forall|q: int| 0 <= q < shape.len() ==> #[trigger] shape[q] >= 1,
        seq_int_product(shape) == vlen,
    ensures
        indices.len() == shape.len() && (forall|q: int|
            0 <= q < indices.len() ==> #[trigger] indices[q] < shape[q]) ==> flat_offset(
            indices,
            shape,
            indices.len() as int,
        ) < vlen,
{
    if indices.len() == shape.len() && (forall|q: int|
        0 <= q < indices.len() ==> #[trigger] indices[q] < shape[q]) {
        lemma_full_index_in_range(indices, shape);
    }
}

/// When one stride term of the offset sum exceeds `usize`, the whole offset
/// does.
proof fn lemma_index_term_overflow(
    indices: Seq<int>,
    shape: Seq<int>,
    i: int,
    j: int,
    tmp: int,
    k: int,
)
    requires
        forall|q: int| 0 <= q < indices.len() ==> indices[q] >= 0,
        forall|q: int| 0 <= q < shape.len() ==> shape[q] >= 1,
        0 <= i < k <= indices.len(),
        i < j < shape.len(),
        tmp * suffix_product(shape, j) == indices[i] * suffix_product(shape, i + 1),
        tmp >= 0,
        tmp * shape[j] > usize::MAX,
    ensures
        flat_offset(indices, shape, k) > usize::MAX,
{
    lemma_suffix_product_pos(shape, j + 1);
    assert(suffix_product(shape, j) == shape[j] * suffix_product(shape, j + 1));
    assert(tmp * suffix_product(shape, j) >= tmp * shape[j]) by (nonlinear_arith)
        requires
            suffix_product(shape, j) == shape[j] * suffix_product(shape, j + 1),
            suffix_product(shape, j + 1) >= 1,
            shape[j] >= 1,
            tmp >= 0,
    ;
    assert(flat_offset(indices, shape, i + 1) == flat_offset(indices, shape, i) + indices[i]
        * suffix_product(shape, i + 1));
    lemma_flat_offset_monotone(indices, shape, 0, i);
    assert(flat_offset(indices, shape, i) >= 0);
    lemma_flat_offset_monotone(indices, shape, i + 1, k);
}

} // verus!
