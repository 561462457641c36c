//! The parse tree of a tensor literal: composite nodes for bracketed groups,
//! scalar nodes for leaf tokens, with the specification-level measures that
//! the shape collector is proved against.

use vstd::prelude::*;

verus! {

/// A parse tree at the specification level.
pub enum Ast {
    Composite { children: Seq<Ast> },
    Scalar { token: Seq<u8> },
}

/// A parse tree node as built by the grammar adapter.
#[derive(Debug)]
pub enum Node {
    Composite(Vec<Node>),
    Scalar(Vec<u8>),
}

impl Node {
    /// The abstract trees of the first `k` nodes of a node sequence.
    pub open spec fn view_children(s: Seq<Node>, k: int) -> Seq<Ast>
        decreases s, k,
    {
        if k <= 0 || k > s.len() {
            Seq::empty()
        } else {
            Self::view_children(s, k - 1).push(s[k - 1]@)
        }
    }
}

impl View for Node {
    type V = Ast;

    open spec fn view(&self) -> Ast
        decreases self, 1int,
    {
        if self is Composite {
            Ast::Composite {
                children: Node::view_children(self->Composite_0@, self->Composite_0@.len() as int),
            }
        } else {
            Ast::Scalar { token: self->Scalar_0@ }
        }
    }
}

pub proof fn lemma_view_children_index(s: Seq<Node>, k: int)
    requires
        0 <= k <= s.len(),
    ensures
        Node::view_children(s, k).len() == k,
        forall|i: int| 0 <= i < k ==> Node::view_children(s, k)[i] == s[i]@,
    decreases k,
{
    if k > 0 {
        lemma_view_children_index(s, k - 1);
        assert(Node::view_children(s, k) == Node::view_children(s, k - 1).push(s[k - 1]@));
    } else {
        assert(Node::view_children(s, 0) == Seq::<Ast>::empty());
    }
}

/// Number of composite nodes at relative depth `r` of the tree rooted at
/// `ast`; the root itself sits at relative depth 0.
pub open spec fn comps(ast: Ast, r: int) -> nat
    decreases ast, 0int,
{
    match ast {
        Ast::Scalar { .. } => 0,
        Ast::Composite { children } => {
            if r == 0 {
                1
            } else if r > 0 {
                comps_range(children, children.len() as int, r - 1)
            } else {
                0
            }
        },
    }
}

/// Sum of `comps(children[i], r)` over `i < k`.
pub open spec fn comps_range(children: Seq<Ast>, k: int, r: int) -> nat
    decreases children, k,
{
    if k <= 0 || k > children.len() {
        0
    } else {
        comps_range(children, k - 1, r) + comps(children[k - 1], r)
    }
}

/// Number of levels of the tree that contain a composite node: 0 for a
/// scalar, and one more than the deepest composite level of any child for a
/// composite.
pub open spec fn clevels(ast: Ast) -> nat
    decreases ast, 0int,
{
    match ast {
        Ast::Scalar { .. } => 0,
        Ast::Composite { children } => 1 + clevels_range(children, children.len() as int),
    }
}

/// Maximum of `clevels(children[i])` over `i < k` (0 when empty).
pub open spec fn clevels_range(children: Seq<Ast>, k: int) -> nat
    decreases children, k,
{
    if k <= 0 || k > children.len() {
        0
    } else {
        let rest = clevels_range(children, k - 1);
        let last = clevels(children[k - 1]);
        if last > rest {
            last
        } else {
            rest
        }
    }
}

/// The leaf tokens of the tree in depth-first, document order.
pub open spec fn tokens(ast: Ast) -> Seq<Seq<u8>>
    decreases ast, 0int,
{
    match ast {
        Ast::Scalar { token } => seq![token],
        Ast::Composite { children } => tokens_range(children, children.len() as int),
    }
}

/// Concatenation of `tokens(children[i])` over `i < k`.
pub open spec fn tokens_range(children: Seq<Ast>, k: int) -> Seq<Seq<u8>>
    decreases children, k,
{
    if k <= 0 || k > children.len() {
        Seq::empty()
    } else {
        tokens_range(children, k - 1) + tokens(children[k - 1])
    }
}

pub proof fn lemma_comps_range_monotone(children: Seq<Ast>, k1: int, k2: int, r: int)
    requires
        0 <= k1 <= k2 <= children.len(),
    ensures
        comps_range(children, k1, r) <= comps_range(children, k2, r),
    decreases k2 - k1,
{
    if k1 < k2 {
        lemma_comps_range_monotone(children, k1, k2 - 1, r);
    }
}

pub proof fn lemma_clevels_range_le(children: Seq<Ast>, i: int, k: int)
    requires
        0 <= i < k <= children.len(),
    ensures
        clevels(children[i]) <= clevels_range(children, k),
    decreases k,
{
    if i < k - 1 {
        lemma_clevels_range_le(children, i, k - 1);
    }
}

/// Token lists of longer prefixes of a child list extend those of shorter
/// ones.
pub proof fn lemma_tokens_range_prefix(children: Seq<Ast>, k1: int, k2: int)
    requires
        0 <= k1 <= k2 <= children.len(),
    ensures
        tokens_range(children, k1).len() <= tokens_range(children, k2).len(),
        forall|j: int|
            0 <= j < tokens_range(children, k1).len() ==> tokens_range(children, k2)[j]
                == tokens_range(children, k1)[j],
    decreases k2 - k1,
{
    if k1 < k2 {
        lemma_tokens_range_prefix(children, k1, k2 - 1);
    }
}

pub proof fn lemma_comps_range_cons(c: Ast, cs: Seq<Ast>, k: int, r: int)
    requires
        0 <= k <= cs.len(),
    ensures
        comps_range(seq![c] + cs, k + 1, r) == comps(c, r) + comps_range(cs, k, r),
    decreases k,
{
    let u = seq![c] + cs;
    assert(u.len() == 1 + cs.len());
    assert(comps_range(u, k + 1, r) == comps_range(u, k, r) + comps(u[k], r));
    if k == 0 {
        assert(u[0] == c);
        assert(comps_range(u, 0, r) == 0);
        assert(comps_range(cs, 0, r) == 0);
    } else {
        lemma_comps_range_cons(c, cs, k - 1, r);
        assert(u[k] == cs[k - 1]);
        assert(comps_range(cs, k, r) == comps_range(cs, k - 1, r) + comps(cs[k - 1], r));
    }
}

pub proof fn lemma_clevels_range_cons(c: Ast, cs: Seq<Ast>, k: int)
    requires
        0 <= k <= cs.len(),
    ensures
        clevels_range(seq![c] + cs, k + 1) == if clevels(c) > clevels_range(cs, k) {
            clevels(c)
        } else {
            clevels_range(cs, k)
        },
    decreases k,
{
    let u = seq![c] + cs;
    assert(u.len() == 1 + cs.len());
    assert(clevels_range(u, k + 1) == if clevels(u[k]) > clevels_range(u, k) {
        clevels(u[k])
    } else {
        clevels_range(u, k)
    });
    if k == 0 {
        assert(u[0] == c);
        assert(clevels_range(u, 0) == 0);
        assert(clevels_range(cs, 0) == 0);
    } else {
        lemma_clevels_range_cons(c, cs, k - 1);
        assert(u[k] == cs[k - 1]);
        assert(clevels_range(cs, k) == if clevels(cs[k - 1]) > clevels_range(cs, k - 1) {
            clevels(cs[k - 1])
        } else {
            clevels_range(cs, k - 1)
        });
    }
}

} // verus!
