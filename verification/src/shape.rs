//! The shape collector and the shape normalizer. The collector walks the
//! parse tree depth-first, flattening the scalar values and counting the
//! composite groups at each nesting depth; the normalizer turns those counts
//! into per-axis sizes, a rank and an element count. A rectangular literal
//! provably normalizes to exactly its per-axis sizes.

use crate::ast::clevels;
use crate::ast::clevels_range;
use crate::ast::comps;
use crate::ast::comps_range;
use crate::ast::lemma_clevels_range_le;
use crate::ast::lemma_comps_range_monotone;
use crate::ast::lemma_tokens_range_prefix;
use crate::ast::lemma_view_children_index;
use crate::ast::tokens;
use crate::ast::tokens_range;
use crate::ast::Ast;
use crate::ast::Node;
use crate::fundamental::Field;
use crate::TensorError;
use vstd::prelude::*;

verus! {

/// Entry `j` of a count vector, taking absent entries as zero.
pub open spec fn padded(s: Seq<usize>, j: int) -> int {
    if 0 <= j < s.len() {
        s[j] as int
    } else {
        0
    }
}

/// Walk the tree rooted at `node`, standing at depth `depth`, in depth-first
/// document order: count each composite node at depth `d > 0` into
/// `raw[d - 1]`, and append each parsed scalar to `values`. A scalar whose
/// token is not a valid literal of `T` stops the walk with
/// `ScalarParseError`.
#[verifier::loop_isolation(false)]
pub fn collect<T: Field>(
    node: &Node,
    depth: usize,
    raw: &mut Vec<usize>,
    values: &mut Vec<T>,
) -> (r: Result<(), TensorError>)
    requires
        depth as int <= old(raw)@.len() + 1,
        depth + clevels(node@) <= usize::MAX,
        forall|j: int|
            0 <= j ==> padded(old(raw)@, j) + comps(node@, j + 1 - depth) <= usize::MAX,
    ensures
        match r {
            Ok(_) => {
                &&& final(raw)@.len() == vstd::math::max(
                    old(raw)@.len() as int,
                    depth + clevels(node@) - 1,
                )
                &&& forall|j: int|
                    0 <= j ==> padded(final(raw)@, j) == padded(old(raw)@, j) + comps(
                        node@,
                        j + 1 - depth,
                    )
                &&& final(values)@.len() == old(values)@.len() + tokens(node@).len()
                &&& forall|i: int|
                    0 <= i < old(values)@.len() ==> final(values)@[i] == old(values)@[i]
                &&& forall|i: int|
                    0 <= i < tokens(node@).len() ==> Some(
                        final(values)@[old(values)@.len() + i],
                    ) == T::spec_parse(#[trigger] tokens(node@)[i])
            },
            Err(e) => {
                &&& e == TensorError::ScalarParseError
                &&& exists|i: int|
                    0 <= i < tokens(node@).len() && T::spec_parse(#[trigger] tokens(node@)[i])
                        is None
            },
        },
    decreases node,
{
    match node {
        Node::Scalar(token) => {
            proof {
                assert(node@ == Ast::Scalar { token: token@ });
                assert(tokens(node@) == seq![token@]);
            }
            match T::parse_token(token.as_slice()) {
                Some(v) => {
                    values.push(v);
                    Ok(())
                },
                None => {
                    proof {
                        assert(tokens(node@)[0] == token@);
                    }
                    Err(TensorError::ScalarParseError)
                },
            }
        },
        Node::Composite(children) => {
            let ghost ast = node@;
            let ghost cs = ast->Composite_children;
            proof {
                assert(cs == Node::view_children(children@, children@.len() as int));
                lemma_view_children_index(children@, children@.len() as int);
                assert(comps(ast, 0) == 1);
            }
            if depth > 0 {
                if raw.len() < depth {
                    proof {
                        assert(raw@.len() == depth - 1);
                    }
                    raw.push(1);
                } else {
                    let c = raw[depth - 1];
                    proof {
                        assert(padded(old(raw)@, depth - 1) + comps(ast, 0) <= usize::MAX);
                    }
                    raw[depth - 1] = c + 1;
                }
            }
            let ghost mid = raw@;
            proof {
                assert(mid.len() == vstd::math::max(old(raw)@.len() as int, depth as int));
                assert(forall|j: int|
                    0 <= j ==> padded(mid, j) == padded(old(raw)@, j) + (
                    if depth > 0 && j == depth - 1 {
                        1int
                    } else {
                        0int
                    }));
            }
            let n = children.len();
            let mut i: usize = 0;
            while i < n
                invariant
                    i <= n,
                    raw@.len() == vstd::math::max(
                        mid.len() as int,
                        depth + 1 + clevels_range(cs, i as int) - 1,
                    ),
                    forall|j: int|
                        0 <= j ==> padded(raw@, j) == padded(mid, j) + comps_range(
                            cs,
                            i as int,
                            j - depth,
                        ),
                    values@.len() == old(values)@.len() + tokens_range(cs, i as int).len(),
                    forall|k: int| 0 <= k < old(values)@.len() ==> values@[k] == old(values)@[k],
                    forall|k: int|
                        0 <= k < tokens_range(cs, i as int).len() ==> Some(
                            values@[old(values)@.len() + k],
                        ) == T::spec_parse(#[trigger] tokens_range(cs, i as int)[k]),
                decreases n - i,
            {
                proof {
                    assert(decreases_to!(*node => node->Composite_0));
                    assert(decreases_to!(*children => children@[i as int]));
                    lemma_clevels_range_le(cs, i as int, n as int);
                    assert(clevels(ast) == 1 + clevels_range(cs, n as int));
                    assert(cs[i as int] == children@[i as int]@);
                    assert forall|j: int|
                        0 <= j implies padded(raw@, j) + comps(
                        children@[i as int]@,
                        j + 1 - (depth + 1),
                    ) <= usize::MAX by {
                        if j - depth >= 0 {
                            lemma_comps_range_monotone(cs, i as int + 1, n as int, j - depth);
                            assert(comps(ast, j + 1 - depth) == comps_range(cs, n as int, j - depth));
                        }
                    }
                }
                let ghost vals_before = values@;
                let ghost raw_before = raw@;
                match collect(&children[i], depth + 1, raw, values) {
                    Ok(_) => {},
                    Err(e) => {
                        proof {
                            let w = choose|k: int|
                                0 <= k < tokens(cs[i as int]).len() && T::spec_parse(
                                    #[trigger] tokens(cs[i as int])[k],
                                ) is None;
                            lemma_tokens_range_prefix(cs, i as int + 1, n as int);
                            let off = tokens_range(cs, i as int).len();
                            assert(tokens_range(cs, i as int + 1)[off + w] == tokens(
                                cs[i as int],
                            )[w]);
                            assert(tokens(ast) == tokens_range(cs, n as int));
                            assert(T::spec_parse(tokens(ast)[off + w]) is None);
                        }
                        return Err(e);
                    },
                }
                proof {
                    assert(clevels_range(cs, i as int + 1) == if clevels(cs[i as int])
                        > clevels_range(cs, i as int) {
                        clevels(cs[i as int])
                    } else {
                        clevels_range(cs, i as int)
                    });
                    assert(forall|j: int|
                        0 <= j ==> comps_range(cs, i as int + 1, #[trigger] (j - depth))
                            == comps_range(cs, i as int, j - depth) + comps(cs[i as int], j - depth));
                    assert(tokens_range(cs, i as int + 1) == tokens_range(cs, i as int) + tokens(
                        cs[i as int],
                    ));
                }
                i = i + 1;
            }
            proof {
                assert(tokens(ast) == tokens_range(cs, n as int));
                assert(clevels(ast) == 1 + clevels_range(cs, n as int));
                assert forall|j: int|
                    0 <= j implies padded(raw@, j) == padded(old(raw)@, j) + comps(
                    ast,
                    j + 1 - depth,
                ) by {
                    if j + 1 - depth > 0 {
                        assert(comps(ast, j + 1 - depth) == comps_range(cs, n as int, j - depth));
                    } else if j + 1 - depth == 0 {
                        assert(comps_range(cs, n as int, -1) == 0) by {
                            lemma_comps_range_zero(cs, n as int, -1);
                        }
                    } else {
                        assert(comps_range(cs, n as int, j - depth) == 0) by {
                            lemma_comps_range_zero(cs, n as int, j - depth);
                        }
                    }
                }
            }
            Ok(())
        },
    }
}

/// A count vector as mathematical integers.
pub open spec fn as_ints(s: Seq<usize>) -> Seq<int> {
    s.map_values(|x: usize| x as int)
}

/// The raw per-depth counts of a tree, as the collector produces them from an
/// empty vector: entry `k` counts the composite nodes at depth `k + 1`.
pub open spec fn raw_of(ast: Ast) -> Seq<int> {
    Seq::new(
        if clevels(ast) == 0 {
            0nat
        } else {
            (clevels(ast) - 1) as nat
        },
        |k: int| comps(ast, k + 1) as int,
    )
}

/// Divide `x` by the entries of `divisors`, last entry first; a division by
/// zero yields `None`.
pub open spec fn div_desc(x: int, divisors: Seq<int>) -> Option<int>
    decreases divisors.len(),
{
    if divisors.len() == 0 {
        Some(x)
    } else if divisors.last() == 0 {
        None
    } else {
        div_desc(x / divisors.last(), divisors.drop_last())
    }
}

/// The first `i` raw counts normalized into per-axis sizes: each count is
/// divided by every already-normalized count before it, nearest first.
pub open spec fn norm_counts(raw: Seq<int>, i: int) -> Option<Seq<int>>
    decreases i,
{
    if i <= 0 {
        Some(Seq::empty())
    } else {
        match norm_counts(raw, i - 1) {
            None => None,
            Some(prefix) => match div_desc(raw[i - 1], prefix) {
                None => None,
                Some(v) => Some(prefix.push(v)),
            },
        }
    }
}

pub open spec fn seq_int_product(s: Seq<int>) -> int
    decreases s.len(),
{
    if s.len() == 0 {
        1
    } else {
        seq_int_product(s.drop_last()) * s.last()
    }
}

/// Validation and the degenerate-vector adjustments on a completed shape:
/// the scalar count must equal the product of the axis sizes and every axis
/// must be positive, a trailing singleton axis (or a single-row two-axis
/// literal) folds the rank down by one, and a singleton among the two
/// innermost axes makes the larger of the two the reported element count.
pub open spec fn finish_shape(shape: Seq<int>, n: int) -> Option<(Seq<int>, int, int)> {
    if seq_int_product(shape) == n && (forall|i: int| 0 <= i < shape.len() ==> shape[i] >= 1) {
        let dims0 = shape.last();
        let rank0 = shape.len() as int;
        let rank = if dims0 == 1 || (rank0 == 2 && shape[0] == 1) {
            rank0 - 1
        } else {
            rank0
        };
        let dims = if shape.len() > 1 && (shape[shape.len() - 1] == 1 || shape[shape.len() - 2]
            == 1) {
            vstd::math::max(shape[shape.len() - 1], shape[shape.len() - 2])
        } else {
            dims0
        };
        Some((shape, rank, dims))
    } else {
        None
    }
}

/// The shape normalizer: raw per-depth counts and the scalar count become the
/// per-axis sizes, the rank and the element count; `None` stands for a
/// literal whose counts are inconsistent.
pub open spec fn spec_normalize(raw: Seq<int>, n: int) -> Option<(Seq<int>, int, int)> {
    if raw.len() == 0 {
        finish_shape(seq![n], n)
    } else if raw.last() == 0 {
        None
    } else {
        match norm_counts(raw, raw.len() as int) {
            None => None,
            Some(norm) => finish_shape(norm.push(n / raw.last()), n),
        }
    }
}

pub proof fn lemma_product_pos(s: Seq<int>)
    requires
        forall|i: int| 0 <= i < s.len() ==> s[i] >= 1,
    ensures
        seq_int_product(s) >= 1,
    decreases s.len(),
{
    if s.len() > 0 {
        assert(forall|i: int| 0 <= i < s.drop_last().len() ==> s.drop_last()[i] >= 1);
        lemma_product_pos(s.drop_last());
        assert(seq_int_product(s.drop_last()) * s.last() >= seq_int_product(s.drop_last()) * 1)
            by (nonlinear_arith)
            requires
                seq_int_product(s.drop_last()) >= 1,
                s.last() >= 1,
        ;
    }
}

/// With positive entries, the product of a prefix never exceeds the product
/// of the whole.
pub proof fn lemma_product_prefix_le(s: Seq<int>, k: int)
    requires
        forall|i: int| 0 <= i < s.len() ==> s[i] >= 1,
        0 <= k <= s.len(),
    ensures
        seq_int_product(s.take(k)) <= seq_int_product(s),
    decreases s.len() - k,
{
    if k == s.len() {
        assert(s.take(k) =~= s);
    } else {
        assert(s.take(k + 1).drop_last() =~= s.take(k));
        assert(forall|i: int| 0 <= i < s.take(k).len() ==> s.take(k)[i] >= 1);
        lemma_product_pos(s.take(k));
        assert(seq_int_product(s.take(k + 1)) == seq_int_product(s.take(k)) * s[k]);
        assert(seq_int_product(s.take(k)) * s[k] >= seq_int_product(s.take(k)) * 1)
            by (nonlinear_arith)
            requires
                seq_int_product(s.take(k)) >= 1,
                s[k] >= 1,
        ;
        lemma_product_prefix_le(s, k + 1);
    }
}

/// The shape normalizer, mirroring `spec_normalize`: `Ok` carries the shape,
/// the rank and the element count; inconsistent counts give
/// `RaggedShapeError`.
#[verifier::loop_isolation(false)]
pub fn normalize_shape(raw: Vec<usize>, n_values: usize) -> (r: Result<
    (Vec<usize>, usize, usize),
    TensorError,
>)
    ensures
        match spec_normalize(as_ints(raw@), n_values as int) {
            Some(t) => r is Ok && as_ints((r->Ok_0).0@) == t.0 && (r->Ok_0).1 as int == t.1 && (
            r->Ok_0).2 as int == t.2,
            None => r == Err::<(Vec<usize>, usize, usize), TensorError>(
                TensorError::RaggedShapeError,
            ),
        },
{
    let ghost raw0 = as_ints(raw@);
    let mut shape = raw;
    let n = shape.len();
    let dimensions: usize;
    if n != 0 {
        let last = shape[n - 1];
        proof {
            assert(raw0.last() == last as int);
        }
        if last == 0 {
            return Err(TensorError::RaggedShapeError);
        }
        dimensions = n_values / last;
        let mut i: usize = 0;
        while i < n
            invariant
                i <= n,
                n == shape@.len(),
                norm_counts(raw0, i as int) == Some(as_ints(shape@.take(i as int))),
                forall|k: int| i <= k < n ==> as_ints(shape@)[k] == raw0[k],
            decreases n - i,
        {
            let ghost prefix = as_ints(shape@.take(i as int));
            proof {
                assert(prefix.take(i as int) =~= prefix);
                assert(as_ints(shape@)[i as int] == shape@[i as int] as int);
            }
            let mut j = i;
            while j > 0
                invariant
                    0 <= j <= i < n,
                    n == shape@.len(),
                    as_ints(shape@.take(i as int)) == prefix,
                    forall|k: int| i < k < n ==> as_ints(shape@)[k] == raw0[k],
                    div_desc(raw0[i as int], prefix) == div_desc(
                        shape@[i as int] as int,
                        prefix.take(j as int),
                    ),
                decreases j,
            {
                let jj = j - 1;
                let d = shape[jj];
                proof {
                    assert(prefix.take(j as int).last() == d as int);
                    assert(prefix.take(j as int).drop_last() =~= prefix.take(jj as int));
                }
                if d == 0 {
                    proof {
                        assert(div_desc(raw0[i as int], prefix) is None);
                        assert(norm_counts(raw0, i as int + 1) is None);
                        lemma_norm_counts_none(raw0, i as int + 1, n as int);
                    }
                    return Err(TensorError::RaggedShapeError);
                }
                let v = shape[i] / d;
                shape[i] = v;
                proof {
                    assert(as_ints(shape@.take(i as int)) =~= prefix);
                }
                j = jj;
            }
            proof {
                assert(prefix.take(0) =~= Seq::<int>::empty());
                assert(div_desc(raw0[i as int], prefix) == Some(shape@[i as int] as int));
                assert(as_ints(shape@.take(i as int + 1)) =~= prefix.push(shape@[i as int] as int));
            }
            i = i + 1;
        }
        proof {
            assert(shape@.take(n as int) =~= shape@);
        }
        shape.push(dimensions);
        proof {
            assert(as_ints(shape@) =~= norm_counts(raw0, n as int)->0.push(
                n_values as int / raw0.last(),
            ));
        }
    } else {
        dimensions = n_values;
        shape.push(dimensions);
        proof {
            assert(as_ints(shape@) =~= seq![n_values as int]);
        }
    }
    let ghost cand = as_ints(shape@);
    let m = shape.len();
    // Every axis size must be positive.
    let mut k: usize = 0;
    while k < m
        invariant
            k <= m,
            m == shape@.len(),
            as_ints(shape@) == cand,
            forall|q: int| 0 <= q < k ==> cand[q] >= 1,
        decreases m - k,
    {
        if shape[k] == 0 {
            proof {
                assert(cand[k as int] == 0);
                assert(finish_shape(cand, n_values as int) is None);
            }
            return Err(TensorError::RaggedShapeError);
        }
        k = k + 1;
    }
    // The axis sizes must multiply out to the scalar count.
    let mut prod: usize = 1;
    let mut q: usize = 0;
    while q < m
        invariant
            q <= m,
            m == shape@.len(),
            as_ints(shape@) == cand,
            forall|t: int| 0 <= t < m ==> cand[t] >= 1,
            prod as int == seq_int_product(cand.take(q as int)),
        decreases m - q,
    {
        proof {
            assert(cand.take(q as int + 1).drop_last() =~= cand.take(q as int));
        }
        prod = match prod.checked_mul(shape[q]) {
            Some(p) => p,
            None => {
                proof {
                    assert(seq_int_product(cand.take(q as int + 1)) > usize::MAX as int);
                    lemma_product_prefix_le(cand, q as int + 1);
                    assert(seq_int_product(cand) != n_values as int);
                    assert(finish_shape(cand, n_values as int) is None);
                }
                return Err(TensorError::RaggedShapeError);
            },
        };
        q = q + 1;
    }
    proof {
        assert(cand.take(m as int) =~= cand);
    }
    if prod != n_values {
        proof {
            assert(finish_shape(cand, n_values as int) is None);
        }
        return Err(TensorError::RaggedShapeError);
    }
    // Degenerate-vector adjustment of the rank.
    let rank = if dimensions == 1 || (m == 2 && shape[0] == 1) {
        m - 1
    } else {
        m
    };
    // Degenerate-dimension adjustment of the element count.
    let dims = if m > 1 && (shape[m - 1] == 1 || shape[m - 2] == 1) {
        if shape[m - 1] > shape[m - 2] {
            shape[m - 1]
        } else {
            shape[m - 2]
        }
    } else {
        dimensions
    };
    proof {
        assert(cand.last() == dimensions as int);
    }
    Ok((shape, rank, dims))
}

/// Whether a tree is rectangular with per-axis child counts `sh`: a scalar
/// for an empty `sh`, else a composite of `sh[0]` children, each rectangular
/// with the remaining counts.
pub open spec fn has_shape(ast: Ast, sh: Seq<int>) -> bool
    decreases sh.len(),
{
    if sh.len() == 0 {
        ast is Scalar
    } else {
        &&& ast is Composite
        &&& ast->Composite_children.len() == sh[0]
        &&& forall|i: int|
            0 <= i < ast->Composite_children.len() ==> has_shape(
                #[trigger] ast->Composite_children[i],
                sh.drop_first(),
            )
    }
}

/// A product decomposes at the front as well as at the back.
pub proof fn lemma_product_cons(s: Seq<int>)
    requires
        s.len() >= 1,
    ensures
        seq_int_product(s) == s[0] * seq_int_product(s.drop_first()),
    decreases s.len(),
{
    if s.len() == 1 {
        assert(s.drop_last() =~= Seq::<int>::empty());
        assert(s.drop_first() =~= Seq::<int>::empty());
    } else {
        lemma_product_cons(s.drop_last());
        assert(s.drop_last().drop_first() =~= s.drop_first().drop_last());
        assert(s.drop_last()[0] == s[0]);
        assert(s.drop_first().last() == s.last());
        assert((s[0] * seq_int_product(s.drop_first().drop_last())) * s.last() == s[0] * (
        seq_int_product(s.drop_first().drop_last()) * s.last())) by (nonlinear_arith);
    }
}

/// In a rectangular tree of per-axis counts `sh` there are `product(sh)`
/// scalars, `sh.len()` composite levels, and `product(sh.take(d))` composite
/// nodes at each depth `d` below the leaves.
pub proof fn lemma_has_shape_measures(ast: Ast, sh: Seq<int>)
    requires
        has_shape(ast, sh),
        forall|i: int| 0 <= i < sh.len() ==> sh[i] >= 1,
    ensures
        tokens(ast).len() == seq_int_product(sh),
        clevels(ast) == sh.len(),
        forall|d: int| 0 <= d < sh.len() ==> comps(ast, d) == seq_int_product(sh.take(d)),
        forall|d: int| !(0 <= d < sh.len()) ==> comps(ast, d) == 0,
    decreases sh.len(), 0int, 0int,
{
    if sh.len() == 0 {
        assert(seq_int_product(sh) == 1);
    } else {
        let cs = ast->Composite_children;
        let sh1 = sh.drop_first();
        assert(forall|i: int| 0 <= i < sh1.len() ==> sh1[i] >= 1);
        lemma_uniform_children(cs, sh1, cs.len() as int);
        lemma_product_cons(sh);
        assert(tokens(ast) == tokens_range(cs, cs.len() as int));
        assert(tokens(ast).len() == cs.len() * seq_int_product(sh1));
        assert(cs.len() as int * seq_int_product(sh1) == sh[0] * seq_int_product(sh1));
        assert(clevels(ast) == 1 + clevels_range(cs, cs.len() as int));
        assert forall|d: int|
            0 <= d < sh.len() implies comps(ast, d) == seq_int_product(sh.take(d)) by {
            if d == 0 {
                assert(sh.take(0) =~= Seq::<int>::empty());
            } else {
                assert(comps(ast, d) == comps_range(cs, cs.len() as int, d - 1));
                assert(sh.take(d).drop_first() =~= sh1.take(d - 1));
                lemma_product_cons(sh.take(d));
                assert(sh.take(d)[0] == sh[0]);
                assert(comps_range(cs, cs.len() as int, d - 1) == cs.len() * seq_int_product(
                    sh1.take(d - 1),
                ));
            }
        }
        assert forall|d: int| !(0 <= d < sh.len()) implies comps(ast, d) == 0 by {
            if d > 0 {
                assert(comps(ast, d) == comps_range(cs, cs.len() as int, d - 1));
                assert(!(0 <= d - 1 < sh1.len()));
            }
        }
    }
}

/// Measures of a child list whose members all have the same per-axis counts.
proof fn lemma_uniform_children(cs: Seq<Ast>, sh1: Seq<int>, k: int)
    requires
        0 <= k <= cs.len(),
        forall|i: int| 0 <= i < cs.len() ==> has_shape(#[trigger] cs[i], sh1),
        forall|i: int| 0 <= i < sh1.len() ==> sh1[i] >= 1,
    ensures
        tokens_range(cs, k).len() == k * seq_int_product(sh1),
        k >= 1 ==> clevels_range(cs, k) == sh1.len(),
        k == 0 ==> clevels_range(cs, k) == 0,
        forall|d: int|
            0 <= d < sh1.len() ==> comps_range(cs, k, d) == k * seq_int_product(sh1.take(d)),
        forall|d: int| !(0 <= d < sh1.len()) ==> comps_range(cs, k, d) == 0,
    decreases sh1.len(), 1int, k,
{
    if k == 0 {
        assert(forall|d: int| comps_range(cs, 0, d) == 0);
    } else {
        lemma_uniform_children(cs, sh1, k - 1);
        lemma_has_shape_measures(cs[k - 1], sh1);
        assert(tokens_range(cs, k) == tokens_range(cs, k - 1) + tokens(cs[k - 1]));
        assert((k - 1) * seq_int_product(sh1) + seq_int_product(sh1) == k * seq_int_product(sh1))
            by (nonlinear_arith);
        assert forall|d: int|
            0 <= d < sh1.len() implies comps_range(cs, k, d) == k * seq_int_product(
            sh1.take(d),
        ) by {
            assert(comps_range(cs, k, d) == comps_range(cs, k - 1, d) + comps(cs[k - 1], d));
            assert((k - 1) * seq_int_product(sh1.take(d)) + seq_int_product(sh1.take(d)) == k
                * seq_int_product(sh1.take(d))) by (nonlinear_arith);
        }
        assert forall|d: int| !(0 <= d < sh1.len()) implies comps_range(cs, k, d) == 0 by {
            assert(comps_range(cs, k, d) == comps_range(cs, k - 1, d) + comps(cs[k - 1], d));
        }
    }
}

/// Dividing `product(q) * t` by the entries of `q`, last first, leaves `t`.
proof fn lemma_div_desc_product(q: Seq<int>, t: int)
    requires
        forall|i: int| 0 <= i < q.len() ==> q[i] >= 1,
        t >= 0,
    ensures
        div_desc(seq_int_product(q) * t, q) == Some(t),
    decreases q.len(),
{
    if q.len() == 0 {
        assert(seq_int_product(q) == 1);
    } else {
        let q1 = q.drop_last();
        assert(forall|i: int| 0 <= i < q1.len() ==> q1[i] >= 1);
        lemma_product_pos(q1);
        let x = seq_int_product(q) * t;
        assert(seq_int_product(q) == seq_int_product(q1) * q.last());
        assert(x == (seq_int_product(q1) * t) * q.last()) by (nonlinear_arith)
            requires
                x == (seq_int_product(q1) * q.last()) * t,
        ;
        assert(seq_int_product(q1) * t >= 0) by (nonlinear_arith)
            requires
                seq_int_product(q1) >= 1,
                t >= 0,
        ;
        vstd::arithmetic::div_mod::lemma_div_by_multiple(seq_int_product(q1) * t, q.last());
        assert(x / q.last() == seq_int_product(q1) * t);
        lemma_div_desc_product(q1, t);
    }
}

/// Raw counts that are the prefix products of `sh` normalize back to `sh`.
proof fn lemma_norm_counts_products(sh: Seq<int>, raw: Seq<int>, i: int)
    requires
        forall|q: int| 0 <= q < sh.len() ==> sh[q] >= 1,
        raw.len() <= sh.len(),
        forall|kk: int| 0 <= kk < raw.len() ==> raw[kk] == seq_int_product(sh.take(kk + 1)),
        0 <= i <= raw.len(),
    ensures
        norm_counts(raw, i) == Some(sh.take(i)),
    decreases i,
{
    if i == 0 {
        assert(sh.take(0) =~= Seq::<int>::empty());
    } else {
        lemma_norm_counts_products(sh, raw, i - 1);
        let prefix = sh.take(i - 1);
        assert(forall|q: int| 0 <= q < prefix.len() ==> prefix[q] >= 1);
        assert(sh.take(i).drop_last() =~= prefix);
        assert(seq_int_product(sh.take(i)) == seq_int_product(prefix) * sh[i - 1]);
        lemma_div_desc_product(prefix, sh[i - 1]);
        assert(div_desc(raw[i - 1], prefix) == Some(sh[i - 1]));
        assert(prefix.push(sh[i - 1]) =~= sh.take(i));
    }
}

/// Rectangular literals normalize exactly: a tree in which every group at
/// depth `d` has `sh[d]` children holds `product(sh)` scalars, its normalized
/// shape is `sh` itself (a bare scalar reports shape `[1]`), and the number
/// of scalars equals the product of the reported shape.
pub proof fn lemma_rectangular_normalizes(ast: Ast, sh: Seq<int>)
    requires
        has_shape(ast, sh),
        forall|i: int| 0 <= i < sh.len() ==> sh[i] >= 1,
    ensures
        tokens(ast).len() == seq_int_product(sh),
        spec_normalize(raw_of(ast), tokens(ast).len() as int) is Some,
        (spec_normalize(raw_of(ast), tokens(ast).len() as int)->0).0 == if sh.len() == 0 {
            seq![1int]
        } else {
            sh
        },
        seq_int_product((spec_normalize(raw_of(ast), tokens(ast).len() as int)->0).0) == tokens(
            ast,
        ).len(),
{
    lemma_has_shape_measures(ast, sh);
    let raw = raw_of(ast);
    let n = tokens(ast).len() as int;
    lemma_product_pos(sh);
    assert(seq_int_product(Seq::<int>::empty()) == 1);
    if sh.len() <= 1 {
        assert(raw =~= Seq::<int>::empty());
        let cand = seq![n];
        assert(cand.drop_last() =~= Seq::<int>::empty());
        assert(cand.last() == n);
        assert(seq_int_product(cand) == n);
        assert(finish_shape(cand, n) is Some);
        if sh.len() == 0 {
            assert(cand =~= seq![1int]);
        } else {
            assert(sh.drop_last() =~= Seq::<int>::empty());
            assert(seq_int_product(sh) == seq_int_product(sh.drop_last()) * sh.last());
            assert(seq_int_product(sh.drop_last()) == 1);
            assert(sh.last() == sh[0]);
            assert(n == sh[0]);
            assert(cand =~= sh);
        }
    } else {
        let m = sh.len() as int;
        assert(raw.len() == m - 1);
        assert forall|kk: int|
            0 <= kk < raw.len() implies raw[kk] == seq_int_product(sh.take(kk + 1)) by {
            assert(raw[kk] == comps(ast, kk + 1) as int);
        }
        let p = seq_int_product(sh.take(m - 1));
        assert(forall|q: int| 0 <= q < sh.take(m - 1).len() ==> #[trigger] sh.take(m - 1)[q] >= 1);
        lemma_product_pos(sh.take(m - 1));
        assert(raw.last() == p);
        lemma_norm_counts_products(sh, raw, m - 1);
        assert(sh.take(m - 1) =~= sh.drop_last());
        assert(n == p * sh.last());
        assert(p * sh.last() == sh.last() * p) by (nonlinear_arith);
        vstd::arithmetic::div_mod::lemma_div_multiples_vanish(sh.last(), p);
        assert(n / raw.last() == sh.last());
        assert(sh.take(m - 1).push(sh.last()) =~= sh);
        assert(finish_shape(sh, n) is Some);
    }
}

/// Once one prefix of the raw counts fails to normalize, every longer prefix
/// fails too.
proof fn lemma_norm_counts_none(raw: Seq<int>, i: int, k: int)
    requires
        0 <= i <= k,
        norm_counts(raw, i) is None,
    ensures
        norm_counts(raw, k) is None,
    decreases k - i,
{
    if i < k {
        lemma_norm_counts_none(raw, i + 1, k);
    }
}

/// Below relative depth 0 there are no composite nodes to count.
proof fn lemma_comps_range_zero(children: Seq<Ast>, k: int, r: int)
    requires
        r < 0,
    ensures
        comps_range(children, k, r) == 0,
    decreases k,
{
    if 0 < k <= children.len() {
        lemma_comps_range_zero(children, k - 1, r);
        assert(comps(children[k - 1], r) == 0);
    }
}

} // verus!
