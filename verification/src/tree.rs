//! The mathematical model of a formula: a binary tree of symbols.

use vstd::prelude::*;
use crate::symbol::{rank, symbol_text, BinaryOp, Symbol, UnaryOp};

verus! {

/// A node with a symbol and up to two children. Contracts speak of formulas
/// through this type; it carries no cached size.
pub struct Tree {
    pub root: Symbol,
    pub left: Option<Box<Tree>>,
    pub right: Option<Box<Tree>>,
}

impl Tree {
    /// The tree of a single atom.
    pub open spec fn leaf(c: char) -> Tree {
        Tree { root: Symbol::Atom(c), left: None, right: None }
    }

    /// The negation of `x`: a `Not` node whose only child, the right one, is `x`.
    pub open spec fn not(x: Tree) -> Tree {
        Tree { root: Symbol::Unary(UnaryOp::Not), left: None, right: Some(Box::new(x)) }
    }

    /// `l` and `r` joined by `op`.
    pub open spec fn bin(op: BinaryOp, l: Tree, r: Tree) -> Tree {
        Tree { root: Symbol::Binary(op), left: Some(Box::new(l)), right: Some(Box::new(r)) }
    }

    /// The left child; arbitrary where there is none.
    pub open spec fn l(self) -> Tree {
        *self.left->0
    }

    /// The right child; arbitrary where there is none.
    pub open spec fn r(self) -> Tree {
        *self.right->0
    }

    /// Number of nodes.
    pub open spec fn count(self) -> nat
        decreases self,
    {
        1 + (match self.left {
            Some(l) => l.count(),
            None => 0,
        }) + (match self.right {
            Some(r) => r.count(),
            None => 0,
        })
    }

    /// The shape rules of a formula: an atom has no child, a negation has a
    /// right child only, a binary connective has both, no node is a
    /// parenthesis, and every child obeys the same rules.
    pub open spec fn valid(self) -> bool
        decreases self,
    {
        match self.root {
            Symbol::Binary(_) => self.left is Some && self.right is Some && self.l().valid()
                && self.r().valid(),
            Symbol::Unary(_) => self.left is None && self.right is Some && self.r().valid(),
            Symbol::Atom(_) => self.left is None && self.right is None,
            Symbol::Left | Symbol::Right => false,
        }
    }

    /// The connective of a binary root; arbitrary at any other root.
    pub open spec fn op(self) -> BinaryOp {
        self.root->Binary_0
    }

    /// The child on the given side, if there is one.
    pub open spec fn child(self, right: bool) -> Option<Tree> {
        if right {
            match self.right {
                Some(x) => Some(*x),
                None => None,
            }
        } else {
            match self.left {
                Some(x) => Some(*x),
                None => None,
            }
        }
    }

    /// This tree with the child on the given side replaced.
    pub open spec fn with_child(self, right: bool, x: Tree) -> Tree {
        if right {
            self.with_right(x)
        } else {
            self.with_left(x)
        }
    }

    /// This tree with its right child replaced.
    pub open spec fn with_right(self, x: Tree) -> Tree {
        Tree { right: Some(Box::new(x)), ..self }
    }

    /// This tree with its left child replaced.
    pub open spec fn with_left(self, x: Tree) -> Tree {
        Tree { left: Some(Box::new(x)), ..self }
    }

    /// `a ∘ (b • c)` becomes `(a ∘ b) • c`; a tree of another form is left
    /// as it is.
    pub open spec fn rotate_left(self) -> Tree {
        if self.right is Some && self.root is Binary && self.r().root is Binary {
            Tree::bin(self.r().op(), Tree::bin(self.op(), self.l(), self.r().l()), self.r().r())
        } else {
            self
        }
    }

    /// `(a ∘ b) • c` becomes `a ∘ (b • c)`; a tree of another form is left
    /// as it is.
    pub open spec fn rotate_right(self) -> Tree {
        if self.left is Some && self.root is Binary && self.l().root is Binary {
            Tree::bin(self.l().op(), self.l().l(), Tree::bin(self.op(), self.l().r(), self.r()))
        } else {
            self
        }
    }

    /// The symbols in preorder: the root, the left subtree, the right
    /// subtree, with no parentheses.
    pub open spec fn preorder(self) -> Seq<Symbol>
        decreases self,
    {
        seq![self.root] + (match self.left {
            Some(l) => l.preorder(),
            None => Seq::empty(),
        }) + (match self.right {
            Some(r) => r.preorder(),
            None => Seq::empty(),
        })
    }

    /// The symbols in infix order with as few parentheses as keep the
    /// structure: a left child is put in parentheses where its root binds
    /// no stronger than this root, a right child where its root binds
    /// weaker.
    pub open spec fn inorder(self) -> Seq<Symbol>
        decreases self,
    {
        (match self.left {
            Some(l) => if rank(l.root) <= rank(self.root) {
                wrapped(l.inorder())
            } else {
                l.inorder()
            },
            None => Seq::empty(),
        }) + seq![self.root] + (match self.right {
            Some(r) => if rank(r.root) < rank(self.root) {
                wrapped(r.inorder())
            } else {
                r.inorder()
            },
            None => Seq::empty(),
        })
    }

    /// Structural equality as formulas compare: the same symbols in
    /// preorder.
    pub open spec fn same(self, other: Tree) -> bool {
        self.preorder() == other.preorder()
    }

    /// Whether `self` is `t` or lies somewhere below `t`.
    pub open spec fn within(self, t: Tree) -> bool
        decreases t,
    {
        self == t || (t.left is Some && self.within(t.l())) || (t.right is Some && self.within(
            t.r(),
        ))
    }
}

/// The node count of a negation.
pub broadcast proof fn lemma_count_not(x: Tree)
    ensures
        #[trigger] Tree::not(x).count() == 1 + x.count(),
{
}

/// The node count of a joined pair.
pub broadcast proof fn lemma_count_bin(op: BinaryOp, l: Tree, r: Tree)
    ensures
        #[trigger] Tree::bin(op, l, r).count() == 1 + l.count() + r.count(),
{
}

/// The node count of a tree is one more than those of its children.
pub proof fn lemma_count(t: Tree)
    ensures
        t.count() == 1 + (if t.left is Some {
            t.l().count()
        } else {
            0
        }) + (if t.right is Some {
            t.r().count()
        } else {
            0
        }),
{
}

/// A valid tree is an atom, a negation or a joined pair, and its children
/// are valid.
pub proof fn lemma_valid_form(t: Tree)
    requires
        t.valid(),
    ensures
        t.root is Atom ==> t == Tree::leaf(t.root->Atom_0),
        t.root is Unary ==> t == Tree::not(t.r()) && t.r().valid() && t.count() == 1
            + t.r().count(),
        t.root is Binary ==> t == Tree::bin(t.op(), t.l(), t.r()) && t.l().valid()
            && t.r().valid() && t.count() == 1 + t.l().count() + t.r().count(),
        t.root is Atom || t.root is Unary || t.root is Binary,
{
}

/// A negation is valid exactly when what it negates is.
pub broadcast proof fn lemma_valid_not(x: Tree)
    ensures
        #[trigger] Tree::not(x).valid() == x.valid(),
{
    assert(Tree::not(x).r() == x);
}

/// A joined pair is valid exactly when both operands are.
pub broadcast proof fn lemma_valid_bin(op: BinaryOp, l: Tree, r: Tree)
    ensures
        #[trigger] Tree::bin(op, l, r).valid() == (l.valid() && r.valid()),
{
    assert(Tree::bin(op, l, r).l() == l);
    assert(Tree::bin(op, l, r).r() == r);
}

/// The preorder of a valid tree tells where the tree ends: if two valid
/// trees, each followed by more symbols, give the same sequence, the trees
/// are the same and so is what follows.
pub proof fn lemma_preorder_prefix(a: Tree, b: Tree, x: Seq<Symbol>, y: Seq<Symbol>)
    requires
        a.valid(),
        b.valid(),
        a.preorder() + x == b.preorder() + y,
    ensures
        a == b,
        x == y,
    decreases a,
{
    let whole = a.preorder() + x;
    assert(whole[0] == a.root);
    assert((b.preorder() + y)[0] == b.root);
    lemma_valid_form(a);
    lemma_valid_form(b);
    match a.root {
        Symbol::Atom(_) => {
            assert(a.preorder() =~= seq![a.root]);
            assert(b.preorder() =~= seq![b.root]);
            assert(x =~= whole.skip(1));
            assert(y =~= (b.preorder() + y).skip(1));
        },
        Symbol::Unary(_) => {
            assert(a.preorder() =~= seq![a.root] + a.r().preorder());
            assert(b.preorder() =~= seq![b.root] + b.r().preorder());
            assert(a.r().preorder() + x =~= whole.skip(1));
            assert(b.r().preorder() + y =~= (b.preorder() + y).skip(1));
            lemma_preorder_prefix(a.r(), b.r(), x, y);
        },
        Symbol::Binary(_) => {
            assert(a.l().preorder() + (a.r().preorder() + x) =~= whole.skip(1));
            assert(b.l().preorder() + (b.r().preorder() + y) =~= (b.preorder() + y).skip(1));
            lemma_preorder_prefix(a.l(), b.l(), a.r().preorder() + x, b.r().preorder() + y);
            lemma_preorder_prefix(a.r(), b.r(), x, y);
        },
        _ => {},
    }
}

/// Valid trees with the same symbols in preorder are the same tree: for
/// valid formulas, equality is equality of structure.
pub proof fn lemma_same_is_equal(a: Tree, b: Tree)
    requires
        a.valid(),
        b.valid(),
        a.same(b),
    ensures
        a == b,
{
    assert(a.preorder() + Seq::<Symbol>::empty() =~= a.preorder());
    assert(b.preorder() + Seq::<Symbol>::empty() =~= b.preorder());
    lemma_preorder_prefix(a, b, Seq::empty(), Seq::empty());
}

/// What lies within a valid tree is valid, and no larger than the tree.
pub proof fn lemma_within(s: Tree, t: Tree)
    requires
        s.within(t),
    ensures
        t.valid() ==> s.valid(),
        s.count() <= t.count(),
    decreases t,
{
    if s != t {
        if t.left is Some && s.within(t.l()) {
            lemma_within(s, t.l());
        } else {
            lemma_within(s, t.r());
        }
    }
}

/// Lying within is transitive.
pub proof fn lemma_within_trans(s: Tree, m: Tree, t: Tree)
    requires
        s.within(m),
        m.within(t),
    ensures
        s.within(t),
    decreases t,
{
    if m != t {
        if t.left is Some && m.within(t.l()) {
            lemma_within_trans(s, m, t.l());
        } else {
            lemma_within_trans(s, m, t.r());
        }
    }
}

pub broadcast group group_tree {
    lemma_count_not,
    lemma_count_bin,
    lemma_valid_not,
    lemma_valid_bin,
}

/// A sequence of symbols between parentheses.
pub open spec fn wrapped(s: Seq<Symbol>) -> Seq<Symbol> {
    seq![Symbol::Left] + s + seq![Symbol::Right]
}

/// The text of a sequence of symbols: the printed forms of its symbols, one
/// after the other.
pub open spec fn render(s: Seq<Symbol>) -> Seq<char>
    decreases s.len(),
{
    if s.len() == 0 {
        Seq::empty()
    } else {
        render(s.drop_last()) + symbol_text(s.last())
    }
}

} // verus!
