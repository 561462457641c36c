//! The literal grammar: a tensor is either a bracketed, comma-separated group
//! of tensors (an optional trailing comma is allowed), or a single scalar
//! token, which is any nonempty run of bytes other than brackets and commas.
//! Blank bytes are stripped before the grammar applies.

use crate::ast::clevels;
use crate::ast::clevels_range;
use crate::ast::comps;
use crate::ast::comps_range;
use crate::ast::lemma_clevels_range_cons;
use crate::ast::lemma_comps_range_cons;
use crate::ast::lemma_view_children_index;
use crate::ast::tokens;
use crate::ast::Ast;
use crate::ast::Node;
use crate::fundamental::Field;
use crate::shape::as_ints;
use crate::shape::collect;
use crate::shape::norm_counts;
use crate::shape::normalize_shape;
use crate::shape::padded;
use crate::shape::raw_of;
use crate::shape::seq_int_product;
use crate::shape::spec_normalize;
use crate::tensor::Tensor;
use crate::TensorError;
use vstd::prelude::*;
use vstd::string::StringSliceAdditionalSpecFns;

verus! {

/// `[`
pub const LBRACKET: u8 = 91;

/// `]`
pub const RBRACKET: u8 = 93;

/// `,`
pub const COMMA: u8 = 44;

/// Blank bytes stripped before parsing: space, newline, tab, carriage return.
pub open spec fn is_blank_byte(b: u8) -> bool {
    b == 32 || b == 10 || b == 9 || b == 13
}

/// A byte that may stand inside a scalar token.
pub open spec fn is_token_byte(b: u8) -> bool {
    b != LBRACKET && b != RBRACKET && b != COMMA
}

/// The input with all blank bytes removed.
pub open spec fn stripped_of(s: Seq<u8>) -> Seq<u8> {
    s.filter(|b: u8| !is_blank_byte(b))
}

/// Position just past the maximal run of token bytes starting at `pos`.
pub open spec fn token_end(s: Seq<u8>, pos: int) -> int
    decreases s.len() - pos,
{
    if 0 <= pos < s.len() && is_token_byte(s[pos]) {
        token_end(s, pos + 1)
    } else {
        pos
    }
}

/// One tensor node, parsed deterministically from `pos`: a bracketed group
/// of nodes, or a scalar token. Returns the tree and the position just past
/// the node; `None` when the text does not match the grammar.
pub open spec fn parse_node_at(s: Seq<u8>, pos: int) -> Option<(Ast, int)>
    decreases s.len() - pos, 0int,
{
    if pos < 0 || pos >= s.len() {
        None
    } else if s[pos] == LBRACKET {
        match parse_items_at(s, pos + 1) {
            Some((children, end)) => Some((Ast::Composite { children }, end)),
            None => None,
        }
    } else if is_token_byte(s[pos]) {
        Some((Ast::Scalar { token: s.subrange(pos, token_end(s, pos)) }, token_end(s, pos)))
    } else {
        None
    }
}

/// The elements of a bracketed group from `pos` on: one or more nodes
/// separated by commas, an optional trailing comma, then the closing bracket.
/// Returns the children and the position just past the closing bracket.
pub open spec fn parse_items_at(s: Seq<u8>, pos: int) -> Option<(Seq<Ast>, int)>
    decreases s.len() - pos, 1int,
{
    if pos < 0 || pos >= s.len() {
        None
    } else {
        match parse_node_at(s, pos) {
            None => None,
            Some((c, p)) => {
                if p < s.len() && s[p] == RBRACKET {
                    Some((seq![c], p + 1))
                } else if p < s.len() && s[p] == COMMA {
                    if p + 1 < s.len() && s[p + 1] == RBRACKET {
                        Some((seq![c], p + 2))
                    } else {
                        // A parsed node always ends past where it starts, so
                        // this bound is exact; it makes the recursion
                        // structurally decreasing.
                        let q = if p + 1 > pos + 1 {
                            p + 1
                        } else {
                            pos + 1
                        };
                        match parse_items_at(s, q) {
                            None => None,
                            Some((cs, e)) => Some((seq![c] + cs, e)),
                        }
                    }
                } else {
                    None
                }
            },
        }
    }
}

/// The parse tree of a whole literal: one node that consumes all of `b`.
pub open spec fn literal_ast(b: Seq<u8>) -> Option<Ast> {
    match parse_node_at(b, 0) {
        Some((a, e)) => if e == b.len() {
            Some(a)
        } else {
            None
        },
        None => None,
    }
}

pub proof fn lemma_token_end_bounds(s: Seq<u8>, pos: int)
    requires
        0 <= pos <= s.len(),
    ensures
        pos <= token_end(s, pos) <= s.len(),
    decreases s.len() - pos,
{
    if pos < s.len() && is_token_byte(s[pos]) {
        lemma_token_end_bounds(s, pos + 1);
    }
}

/// A successfully parsed node spans at least one byte, ends within the input,
/// and its composite counts at every depth are bounded by its span.
pub proof fn lemma_parse_node_bounds(s: Seq<u8>, pos: int)
    ensures
        parse_node_at(s, pos) is Some ==> {
            let (a, e) = parse_node_at(s, pos)->0;
            &&& pos < e <= s.len()
            &&& forall|d: int| comps(a, d) <= e - pos
            &&& clevels(a) <= e - pos
        },
    decreases s.len() - pos, 0int,
{
    if parse_node_at(s, pos) is Some {
        let (a, e) = parse_node_at(s, pos)->0;
        if s[pos] == LBRACKET {
            lemma_parse_items_bounds(s, pos + 1);
            let (cs, e2) = parse_items_at(s, pos + 1)->0;
            assert(a == Ast::Composite { children: cs });
            assert(e == e2);
            assert forall|d: int| comps(a, d) <= e - pos by {
                if d > 0 {
                    assert(comps(a, d) == comps_range(cs, cs.len() as int, d - 1));
                }
            }
        } else {
            lemma_token_end_bounds(s, pos + 1);
        }
    }
}

/// Bounds for a group of elements, analogous to `lemma_parse_node_bounds`.
pub proof fn lemma_parse_items_bounds(s: Seq<u8>, pos: int)
    ensures
        parse_items_at(s, pos) is Some ==> {
            let (cs, e) = parse_items_at(s, pos)->0;
            &&& pos < e <= s.len()
            &&& cs.len() >= 1
            &&& forall|d: int| comps_range(cs, cs.len() as int, d) <= e - (pos + 1)
            &&& clevels_range(cs, cs.len() as int) <= e - (pos + 1)
        },
    decreases s.len() - pos, 1int,
{
    if parse_items_at(s, pos) is Some {
        let (cs, e) = parse_items_at(s, pos)->0;
        lemma_parse_node_bounds(s, pos);
        let (c, p) = parse_node_at(s, pos)->0;
        if p < s.len() && s[p] == RBRACKET {
            assert forall|d: int| comps_range(cs, cs.len() as int, d) <= e - (pos + 1) by {
                assert(comps_range(cs, 1, d) == comps_range(cs, 0, d) + comps(cs[0], d));
            }
            assert(clevels_range(cs, 0) == 0);
            assert(clevels_range(cs, 1) == if clevels(cs[0]) > clevels_range(cs, 0) {
                clevels(cs[0])
            } else {
                clevels_range(cs, 0)
            });
        } else if p < s.len() && s[p] == COMMA && p + 1 < s.len() && s[p + 1] == RBRACKET {
            assert forall|d: int| comps_range(cs, cs.len() as int, d) <= e - (pos + 1) by {
                assert(comps_range(cs, 1, d) == comps_range(cs, 0, d) + comps(cs[0], d));
            }
            assert(clevels_range(cs, 0) == 0);
            assert(clevels_range(cs, 1) == if clevels(cs[0]) > clevels_range(cs, 0) {
                clevels(cs[0])
            } else {
                clevels_range(cs, 0)
            });
        } else {
            let q = p + 1;
            lemma_parse_items_bounds(s, q);
            let (rest, e2) = parse_items_at(s, q)->0;
            assert(cs == seq![c] + rest);
            assert(cs.len() == 1 + rest.len());
            assert forall|d: int| comps_range(cs, cs.len() as int, d) <= e - (pos + 1) by {
                lemma_comps_range_cons(c, rest, rest.len() as int, d);
            }
            lemma_clevels_range_cons(c, rest, rest.len() as int);
        }
    }
}

/// Remove every blank byte, keeping the rest in order.
fn strip_blanks(s: &[u8]) -> (r: Vec<u8>)
    ensures
        r@ == stripped_of(s@),
{
    let n = s.len();
    let mut out: Vec<u8> = Vec::new();
    let mut i: usize = 0;
    while i < n
        invariant
            i <= n,
            n == s@.len(),
            out@ == stripped_of(s@.subrange(0, i as int)),
        decreases n - i,
    {
        let b = s[i];
        proof {
            reveal(Seq::filter);
            assert(s@.subrange(0, i as int + 1).drop_last() =~= s@.subrange(0, i as int));
            assert(s@.subrange(0, i as int + 1).last() == s@[i as int]);
        }
        if !(b == 32 || b == 10 || b == 9 || b == 13) {
            out.push(b);
        }
        i = i + 1;
    }
    proof {
        assert(s@.subrange(0, n as int) =~= s@);
    }
    out
}

/// The grammar adapter: turns literal text into a parse tree of composite
/// and scalar nodes.
pub struct N;

impl N {
    /// Parse a whole literal into its tree: blanks are stripped, then the
    /// text must form exactly one tensor node of the grammar.
    pub fn parse(s: &str) -> (r: Result<Node, TensorError>)
        ensures
            ({
                let b = stripped_of(s.spec_bytes());
                match literal_ast(b) {
                    Some(ast) => r is Ok && r->Ok_0@ == ast,
                    None => r == Err::<Node, TensorError>(TensorError::GrammarError),
                }
            }),
            stripped_of(s.spec_bytes()).len() <= usize::MAX,
    {
        let bytes = s.as_bytes();
        let stripped = strip_blanks(bytes);
        let ghost slen = stripped@.len();
        let n = stripped.len();
        proof {
            assert(slen <= usize::MAX);
        }
        match parse_node(stripped.as_slice(), 0) {
            None => Err(TensorError::GrammarError),
            Some((node, end)) => {
                if end == n {
                    Ok(node)
                } else {
                    Err(TensorError::GrammarError)
                }
            },
        }
    }
}

/// Parse a literal into a tensor of `T`. The grammar adapter builds the parse
/// tree, the shape collector flattens it into values and per-depth counts,
/// and the shape normalizer infers the shape, the rank and the element count.
/// Text that does not match the grammar gives `GrammarError`; a leaf token
/// that is no literal of `T` gives `ScalarParseError`; counts inconsistent
/// with the number of scalars give `RaggedShapeError`. Only count
/// inconsistencies are detected: a ragged literal whose per-depth counts
/// still multiply out to the scalar count is accepted with the shape those
/// counts suggest.
pub fn parse_tensor<T: Field>(s: &str) -> (r: Result<Tensor<T>, TensorError>)
    ensures
        ({
            let b = stripped_of(s.spec_bytes());
            match literal_ast(b) {
                None => r == Err::<Tensor<T>, TensorError>(TensorError::GrammarError),
                Some(ast) => {
                    if exists|i: int|
                        0 <= i < tokens(ast).len() && T::spec_parse(
                            #[trigger] tokens(ast)[i],
                        ) is None {
                        r == Err::<Tensor<T>, TensorError>(TensorError::ScalarParseError)
                    } else {
                        match spec_normalize(raw_of(ast), tokens(ast).len() as int) {
                            None => r == Err::<Tensor<T>, TensorError>(
                                TensorError::RaggedShapeError,
                            ),
                            Some(t) => {
                                &&& r is Ok
                                &&& as_ints((r->Ok_0).spec_shape()) == t.0
                                &&& (r->Ok_0).spec_rank() as int == t.1
                                &&& (r->Ok_0).spec_dimensions() as int == t.2
                                &&& (r->Ok_0).spec_value().len() == tokens(ast).len()
                                &&& forall|i: int|
                                    0 <= i < tokens(ast).len() ==> Some(
                                        (r->Ok_0).spec_value()[i],
                                    ) == T::spec_parse(#[trigger] tokens(ast)[i])
                            },
                        }
                    }
                },
            }
        }),
{
    let ghost b = stripped_of(s.spec_bytes());
    let node = match N::parse(s) {
        Ok(node) => node,
        Err(e) => {
            return Err(e);
        },
    };
    let ghost ast = node@;
    proof {
        lemma_parse_node_bounds(b, 0);
        assert(forall|d: int| comps(ast, d) <= b.len());
        assert(clevels(ast) <= b.len());
    }
    let mut raw: Vec<usize> = Vec::new();
    let mut values: Vec<T> = Vec::new();
    match collect(&node, 0, &mut raw, &mut values) {
        Ok(_) => {},
        Err(e) => {
            return Err(e);
        },
    }
    proof {
        assert forall|j: int|
            0 <= j < raw@.len() implies as_ints(raw@)[j] == comps(ast, j + 1) as int by {
            assert(padded(raw@, j) == comps(ast, j + 1));
        }
        assert(as_ints(raw@) =~= raw_of(ast));
        assert(values@.len() == tokens(ast).len());
        assert(forall|i: int|
            0 <= i < tokens(ast).len() ==> T::spec_parse(#[trigger] tokens(ast)[i]) is Some);
    }
    let ghost n_spec = tokens(ast).len() as int;
    let n_values = values.len();
    match normalize_shape(raw, n_values) {
        Err(e) => {
            return Err(e);
        },
        Ok((shape, rank, dims)) => {
            proof {
                let t = spec_normalize(raw_of(ast), n_spec)->0;
                assert(t.0 == as_ints(shape@));
                assert(t.0.len() == shape@.len());
                if raw_of(ast).len() == 0 {
                    assert(t.0 == seq![n_spec]);
                } else {
                    let norm = norm_counts(raw_of(ast), raw_of(ast).len() as int)->0;
                    assert(t.0 == norm.push(n_spec / raw_of(ast).last()));
                }
                assert(shape@.len() >= 1);
                assert(seq_int_product(as_ints(shape@)) == n_spec);
                assert forall|i: int| 0 <= i < shape@.len() implies shape@[i] >= 1 by {
                    assert(as_ints(shape@)[i] == shape@[i] as int);
                    assert(as_ints(shape@)[i] >= 1);
                }
            }
            let t = Tensor::new(rank, shape, dims, values);
            Ok(t)
        },
    }
}

/// Exact executable test for a token byte.
fn token_byte(b: u8) -> (r: bool)
    ensures
        r == is_token_byte(b),
{
    b != LBRACKET && b != RBRACKET && b != COMMA
}

/// Parse one node of the grammar, mirroring `parse_node_at`.
fn parse_node(s: &[u8], pos: usize) -> (r: Option<(Node, usize)>)
    requires
        pos <= s@.len(),
    ensures
        r is Some <==> parse_node_at(s@, pos as int) is Some,
        r is Some ==> ({
            let (a, e) = parse_node_at(s@, pos as int)->0;
            (r->0).0@ == a && (r->0).1 == e
        }),
    decreases s@.len() - pos, 0int,
{
    let n = s.len();
    if pos >= n {
        return None;
    }
    let b = s[pos];
    if b == LBRACKET {
        match parse_items(s, pos + 1) {
            Some((children, end)) => Some((Node::Composite(children), end)),
            None => None,
        }
    } else if b != RBRACKET && b != COMMA {
        let ghost tend = token_end(s@, pos as int);
        let mut end = pos;
        while end < n && token_byte(s[end])
            invariant
                pos <= end <= n,
                n == s@.len(),
                token_end(s@, pos as int) == token_end(s@, end as int),
                forall|k: int| pos <= k < end ==> is_token_byte(#[trigger] s@[k]),
            decreases n - end,
        {
            end = end + 1;
        }
        proof {
            assert(token_end(s@, end as int) == end as int);
            assert(tend == end as int);
        }
        let mut token: Vec<u8> = Vec::new();
        let mut j = pos;
        while j < end
            invariant
                pos <= j <= end <= n,
                n == s@.len(),
                token@ =~= s@.subrange(pos as int, j as int),
            decreases end - j,
        {
            token.push(s[j]);
            proof {
                assert(token@ =~= s@.subrange(pos as int, j as int + 1));
            }
            j = j + 1;
        }
        Some((Node::Scalar(token), end))
    } else {
        None
    }
}

/// Parse the elements of a bracketed group, mirroring `parse_items_at`.
fn parse_items(s: &[u8], pos: usize) -> (r: Option<(Vec<Node>, usize)>)
    requires
        pos <= s@.len(),
    ensures
        r is Some <==> parse_items_at(s@, pos as int) is Some,
        r is Some ==> ({
            let (cs, e) = parse_items_at(s@, pos as int)->0;
            Node::view_children((r->0).0@, (r->0).0@.len() as int) == cs && (r->0).1 == e
        }),
    decreases s@.len() - pos, 1int,
{
    let n = s.len();
    if pos >= n {
        return None;
    }
    match parse_node(s, pos) {
        None => None,
        Some((node, p)) => {
            proof {
                lemma_parse_node_bounds(s@, pos as int);
            }
            if p < n && s[p] == RBRACKET {
                let mut children: Vec<Node> = Vec::new();
                children.push(node);
                proof {
                    lemma_view_children_index(children@, 1);
                    assert(Node::view_children(children@, 1) =~= seq![node@]);
                }
                Some((children, p + 1))
            } else if p < n && s[p] == COMMA {
                if p + 1 < n && s[p + 1] == RBRACKET {
                    let mut children: Vec<Node> = Vec::new();
                    children.push(node);
                    proof {
                        lemma_view_children_index(children@, 1);
                        assert(Node::view_children(children@, 1) =~= seq![node@]);
                    }
                    Some((children, p + 2))
                } else {
                    match parse_items(s, p + 1) {
                        None => None,
                        Some((rest, e)) => {
                            let ghost old_rest = rest@;
                            let ghost node_ast = node@;
                            let mut children = rest;
                            children.insert(0, node);
                            proof {
                                let m = children@.len() as int;
                                assert(m == old_rest.len() + 1);
                                assert(children@[0]@ == node_ast);
                                assert(forall|i: int|
                                    0 <= i < old_rest.len() ==> children@[i + 1] == #[trigger] old_rest[i]);
                                lemma_view_children_index(children@, m);
                                lemma_view_children_index(old_rest, old_rest.len() as int);
                                assert(Node::view_children(children@, m) =~= seq![node_ast]
                                    + Node::view_children(old_rest, old_rest.len() as int));
                            }
                            Some((children, e))
                        },
                    }
                }
            } else {
                None
            }
        },
    }
}

} // verus!
