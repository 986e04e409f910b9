//! The formula tree itself: exclusively owned nodes with a cached node count.

use vstd::prelude::*;
use crate::symbol::{BinaryOp, Symbol, UnaryOp};
use crate::tree::Tree;

verus! {

/// A propositional formula stored as a binary tree: a connective at each
/// inner node, an atom at each leaf. `root` can be assigned freely, so a
/// value need not obey the shape rules; `validate` tells.
#[derive(Debug, Hash, PartialOrd, Ord)]
pub struct PropFormula {
    pub root: Symbol,
    left: Option<Box<PropFormula>>,
    right: Option<Box<PropFormula>>,
    size: usize,
}

impl View for PropFormula {
    type V = Tree;

    closed spec fn view(&self) -> Tree {
        self.shape()
    }
}

impl PropFormula {
    spec fn shape(&self) -> Tree
        decreases self,
    {
        Tree {
            root: self.root,
            left: match self.left {
                Some(l) => Some(Box::new(l.shape())),
                None => None,
            },
            right: match self.right {
                Some(r) => Some(Box::new(r.shape())),
                None => None,
            },
        }
    }

    /// The cached size of every node is the number of nodes below and
    /// including it.
    pub closed spec fn wf(&self) -> bool
        decreases self,
    {
        &&& self.size == self@.count()
        &&& match self.left {
            Some(l) => l.wf(),
            None => true,
        }
        &&& match self.right {
            Some(r) => r.wf(),
            None => true,
        }
    }

    /// The formula of a single atom.
    pub fn new(prop: char) -> (out: Self)
        ensures
            out.wf(),
            out@ == Tree::leaf(prop),
            out@.count() == 1,
    {
        PropFormula { root: Symbol::Atom(prop), left: None, right: None, size: 1 }
    }

    /// The cached node count.
    pub fn size(&self) -> (n: usize)
        requires
            self.wf(),
        ensures
            n == self@.count(),
    {
        self.size
    }

    /// Negates the formula: it becomes the right child of a new `Not` node.
    pub fn negate(self) -> (out: Self)
        requires
            self.wf(),
            self@.count() < usize::MAX,
        ensures
            out.wf(),
            out@ == Tree::not(self@),
            out@.count() == self@.count() + 1,
    {
        let sz: usize = self.size;
        PropFormula {
            root: Symbol::Unary(UnaryOp::Not),
            left: None,
            right: Some(Box::new(self)),
            size: sz + 1,
        }
    }

    /// Joins two formulas under `connective`, `self` on the left.
    pub fn combine(self, connective: BinaryOp, second: Self) -> (out: Self)
        requires
            self.wf(),
            second.wf(),
            self@.count() + second@.count() < usize::MAX,
        ensures
            out.wf(),
            out@ == Tree::bin(connective, self@, second@),
            out@.count() == self@.count() + second@.count() + 1,
    {
        let sz1: usize = self.size;
        let sz2: usize = second.size;
        PropFormula {
            root: Symbol::Binary(connective),
            left: Some(Box::new(self)),
            right: Some(Box::new(second)),
            size: sz1 + sz2 + 1,
        }
    }

    /// A copy of `self` that implies a copy of `other`.
    pub fn connect(&self, other: &PropFormula) -> (out: Self)
        requires
            self.wf(),
            other.wf(),
            self@.count() + other@.count() < usize::MAX,
        ensures
            out.wf(),
            out@ == Tree::bin(BinaryOp::Implies, self@, other@),
    {
        self.clone().combine(BinaryOp::Implies, other.clone())
    }

    /// A negated copy of `self`.
    pub fn refute(&self) -> (out: Self)
        requires
            self.wf(),
            self@.count() < usize::MAX,
        ensures
            out.wf(),
            out@ == Tree::not(self@),
    {
        self.clone().negate()
    }

    /// Joins two formulas under `connective`, `self` on the right.
    pub fn left_combine(self, connective: BinaryOp, second: Self) -> (out: Self)
        requires
            self.wf(),
            second.wf(),
            self@.count() + second@.count() < usize::MAX,
        ensures
            out.wf(),
            out@ == Tree::bin(connective, second@, self@),
            out@.count() == self@.count() + second@.count() + 1,
    {
        let sz1: usize = self.size;
        let sz2: usize = second.size;
        PropFormula {
            root: Symbol::Binary(connective),
            left: Some(Box::new(second)),
            right: Some(Box::new(self)),
            size: sz1 + sz2 + 1,
        }
    }

    /// The symbol at the root.
    pub fn root(&self) -> (s: Symbol)
        ensures
            s == self@.root,
    {
        self.root
    }

    /// Puts `root` at the root and leaves the children as they are. The
    /// formula may break the shape rules afterwards; `validate` tells.
    pub fn set_root(&mut self, root: Symbol)
        ensures
            final(self)@ == (Tree { root, ..old(self)@ }),
            old(self).wf() ==> final(self).wf(),
    {
        self.root = root;
    }

    /// The node count of a well-formed formula fits the cached size.
    pub proof fn lemma_fits(&self)
        requires
            self.wf(),
        ensures
            self@.count() <= usize::MAX,
    {
    }

    /// Whether the formula has a child on the given side.
    pub fn has_child(&self, right: bool) -> (b: bool)
        ensures
            b == (if right {
                self@.right is Some
            } else {
                self@.left is Some
            }),
    {
        if right {
            self.right.is_some()
        } else {
            self.left.is_some()
        }
    }

    /// The child on the given side, which must exist.
    pub fn get_child(&self, right: bool) -> (out: &Self)
        requires
            right ==> self@.right is Some,
            !right ==> self@.left is Some,
        ensures
            out@ == (if right {
                self@.r()
            } else {
                self@.l()
            }),
            self.wf() ==> out.wf(),
    {
        if right {
            self.right.as_ref().unwrap()
        } else {
            self.left.as_ref().unwrap()
        }
    }

    /// A mutable reference to the child on the given side, which must exist.
    /// What is written through it takes the child's place; the cached size
    /// of `self` is left as it was, so the formula stays well-formed only if
    /// the child keeps its node count.
    pub fn get_mut_child(&mut self, right: bool) -> (out: &mut Self)
        requires
            old(self)@.child(right) is Some,
        ensures
            Some(out@) == old(self)@.child(right),
            old(self).wf() ==> out.wf(),
            final(self)@ == old(self)@.with_child(right, final(out)@),
            old(self).wf() && final(out).wf() && final(out)@.count() == out@.count()
                ==> final(self).wf(),
    {
        if right {
            match &mut self.right {
                Some(node) => &mut **node,
                None => vstd::pervasive::unreached(),
            }
        } else {
            match &mut self.left {
                Some(node) => &mut **node,
                None => vstd::pervasive::unreached(),
            }
        }
    }

    /// Takes the child on the given side, which must exist; the root and
    /// the other child are dropped.
    pub fn take_child(self, right: bool) -> (out: Self)
        requires
            right ==> self@.right is Some,
            !right ==> self@.left is Some,
        ensures
            out@ == (if right {
                self@.r()
            } else {
                self@.l()
            }),
            self.wf() ==> out.wf(),
    {
        if right {
            *self.right.unwrap()
        } else {
            *self.left.unwrap()
        }
    }

    /// Takes both children, which must exist, the right one first.
    pub fn take_children(self) -> (out: (Self, Self))
        requires
            self@.left is Some,
            self@.right is Some,
        ensures
            out.0@ == self@.r(),
            out.1@ == self@.l(),
            self.wf() ==> out.0.wf() && out.1.wf(),
    {
        (*self.right.unwrap(), *self.left.unwrap())
    }

    /// Gives up `self` for `eaten`: every field of the result is a field of
    /// `eaten`.
    pub fn reassign(self, eaten: Self) -> (out: Self)
        ensures
            out == eaten,
    {
        let mut formula = self;
        formula.root = eaten.root;
        formula.left = eaten.left;
        formula.right = eaten.right;
        formula.size = eaten.size;
        formula
    }

    /// Replaces the connective of a binary node; any other formula is
    /// returned as it is.
    pub fn recombine(self, connective: BinaryOp) -> (out: Self)
        ensures
            out@ == (if self@.root is Binary {
                Tree { root: Symbol::Binary(connective), ..self@ }
            } else {
                self@
            }),
            self.wf() ==> out.wf(),
    {
        let mut formula = self;
        if let Symbol::Binary(_) = &formula.root {
            formula.root = Symbol::Binary(connective);
        }
        formula
    }

    /// Swaps the children of a binary node; any other formula is returned
    /// as it is.
    pub fn swap_children(self) -> (out: Self)
        requires
            self.wf(),
            self@.root is Binary ==> self@.left is Some && self@.right is Some,
        ensures
            out.wf(),
            out@ == (if self@.root is Binary {
                Tree::bin(self@.op(), self@.r(), self@.l())
            } else {
                self@
            }),
    {
        if let Symbol::Binary(b) = self.root {
            let (right, left) = self.take_children();
            right.combine(b, left)
        } else {
            self
        }
    }

    /// Applies `method` to the child on the given side and puts the result
    /// in its place. A formula without that child is returned as it is.
    pub fn possess_child<F: FnOnce(Self) -> Self>(self, right: bool, method: F) -> (out: Self)
        requires
            self.wf(),
            forall|c: Self|
                c.wf() && self@.child(right) == Some(c@) ==> #[trigger] call_requires(
                    method,
                    (c,),
                ),
            forall|c: Self, d: Self|
                c.wf() && self@.child(right) == Some(c@) && #[trigger] call_ensures(
                    method,
                    (c,),
                    d,
                ) ==> d.wf() && self@.count() - c@.count() + d@.count() <= usize::MAX,
        ensures
            out.wf(),
            self@.child(right) is None ==> out@ == self@,
            self@.child(right) is Some ==> exists|c: Self, d: Self|
                c.wf() && self@.child(right) == Some(c@) && #[trigger] call_ensures(
                    method,
                    (c,),
                    d,
                ) && out@ == self@.with_child(right, d@),
    {
        let ghost before = self@;
        let mut formula = self;
        if right {
            if formula.right.is_some() {
                let child = *formula.right.unwrap();
                let small: usize = child.size;
                assert(child.wf() && before.child(right) == Some(child@));
                let grown = method(child);
                assert(call_ensures(method, (child,), grown));
                formula.size = formula.size - small + grown.size;
                formula.right = Some(Box::new(grown));
                assert(formula@ == before.with_child(right, grown@));
            }
        } else {
            if formula.left.is_some() {
                let child = *formula.left.unwrap();
                let small: usize = child.size;
                assert(child.wf() && before.child(right) == Some(child@));
                let grown = method(child);
                assert(call_ensures(method, (child,), grown));
                formula.size = formula.size - small + grown.size;
                formula.left = Some(Box::new(grown));
                assert(formula@ == before.with_child(right, grown@));
            }
        }
        formula
    }

    /// Applies one method to each child of a binary node, the left one
    /// first, and joins the results under the same connective. Any other
    /// formula is returned as it is.
    pub fn possess_children<F1: FnOnce(Self) -> Self, F2: FnOnce(Self) -> Self>(
        self,
        left_method: F1,
        right_method: F2,
    ) -> (out: Self)
        requires
            self.wf(),
            self@.root is Binary ==> self@.left is Some && self@.right is Some,
            forall|c: Self|
                self@.root is Binary && c.wf() && c@ == self@.l() ==> #[trigger] call_requires(
                    left_method,
                    (c,),
                ),
            forall|c: Self|
                self@.root is Binary && c.wf() && c@ == self@.r() ==> #[trigger] call_requires(
                    right_method,
                    (c,),
                ),
            forall|a: Self, b: Self, c: Self, d: Self|
                self@.root is Binary && a.wf() && a@ == self@.l() && b.wf() && b@ == self@.r()
                    && #[trigger] call_ensures(left_method, (a,), c) && #[trigger] call_ensures(
                    right_method,
                    (b,),
                    d,
                ) ==> c.wf() && d.wf() && c@.count() + d@.count() < usize::MAX,
        ensures
            out.wf(),
            !(self@.root is Binary) ==> out@ == self@,
            self@.root is Binary ==> exists|a: Self, b: Self, c: Self, d: Self|
                a.wf() && a@ == self@.l() && b.wf() && b@ == self@.r() && #[trigger] call_ensures(
                    left_method,
                    (a,),
                    c,
                ) && #[trigger] call_ensures(right_method, (b,), d) && out@ == Tree::bin(
                    self@.op(),
                    c@,
                    d@,
                ),
    {
        let ghost before = self@;
        if let Symbol::Binary(b) = self.root {
            let left = *self.left.unwrap();
            let right = *self.right.unwrap();
            assert(left.wf() && left@ == before.l());
            assert(right.wf() && right@ == before.r());
            let new_left = left_method(left);
            let new_right = right_method(right);
            assert(call_ensures(left_method, (left,), new_left) && call_ensures(
                right_method,
                (right,),
                new_right,
            ));
            new_left.combine(b, new_right)
        } else {
            self
        }
    }

    /// Turns `a ∘ (b • c)` into `(a ∘ b) • c`. A formula whose root or whose
    /// right child is no binary connective is returned as it is.
    pub fn rotate_left(self) -> (out: Self)
        requires
            self.wf(),
            self@.valid(),
        ensures
            out.wf(),
            out@ == self@.rotate_left(),
    {
        if self.right.is_some() {
            if let (Symbol::Binary(bin1), Symbol::Binary(bin2)) = (
                self.root,
                self.get_child(true).root,
            ) {
                let ghost t = self@;
                let (bc, a) = self.take_children();
                assert(bc@ == t.r() && bc@.valid());
                let (c, b) = bc.take_children();
                assert(t.count() == 1 + a@.count() + t.r().count());
                assert(t.r().count() == 1 + b@.count() + c@.count());
                a.combine(bin1, b).combine(bin2, c)
            } else {
                self
            }
        } else {
            self
        }
    }

    /// Turns `(a ∘ b) • c` into `a ∘ (b • c)`. A formula whose root or whose
    /// left child is no binary connective is returned as it is.
    pub fn rotate_right(self) -> (out: Self)
        requires
            self.wf(),
            self@.valid(),
        ensures
            out.wf(),
            out@ == self@.rotate_right(),
    {
        if self.left.is_some() {
            if let (Symbol::Binary(bin2), Symbol::Binary(bin1)) = (
                self.root,
                self.get_child(false).root,
            ) {
                let ghost t = self@;
                let (c, ab) = self.take_children();
                assert(ab@ == t.l() && ab@.valid());
                let (b, a) = ab.take_children();
                assert(t.count() == 1 + t.l().count() + c@.count());
                assert(t.l().count() == 1 + a@.count() + b@.count());
                a.combine(bin1, b.combine(bin2, c))
            } else {
                self
            }
        } else {
            self
        }
    }
}

impl Clone for PropFormula {
    /// A deep copy: every node of the copy is owned by the copy alone.
    fn clone(&self) -> (out: Self)
        ensures
            out == *self,
        decreases self,
    {
        PropFormula {
            root: self.root,
            left: (match &self.left {
                Some(node) => Some(Box::new((&**node).clone())),
                None => None,
            }),
            right: (match &self.right {
                Some(node) => Some(Box::new((&**node).clone())),
                None => None,
            }),
            size: self.size,
        }
    }
}

} // verus!
