//! Rewriting a formula toward conjunctive normal form: four passes, each of
//! which visits the tree from the leaves up and applies one local rule at
//! every node.

use vstd::prelude::*;
use crate::error::ValidationError;
use crate::formula::PropFormula;
use crate::symbol::{BinaryOp, Symbol, UnaryOp};
use crate::tree::{group_tree, lemma_count, lemma_valid_form, Tree};
use crate::validate::first_defect;

verus! {

/// The node of `t` once its children have been rewritten, before the rule
/// is applied to the node itself.
pub open spec fn rebuilt(rule: spec_fn(Tree) -> Tree, t: Tree) -> Tree
    decreases t, 0int,
{
    Tree {
        root: t.root,
        left: match t.left {
            Some(l) => Some(Box::new(bottom_up(rule, *l))),
            None => None,
        },
        right: match t.right {
            Some(r) => Some(Box::new(bottom_up(rule, *r))),
            None => None,
        },
    }
}

/// `t` with `rule` applied at every node, the children of a node before the
/// node.
pub open spec fn bottom_up(rule: spec_fn(Tree) -> Tree, t: Tree) -> Tree
    decreases t, 1int,
{
    rule(rebuilt(rule, t))
}

/// Every node that a bottom-up pass over `t` hands to the rule is one on
/// which the rule may be applied, and fits the cached size.
pub open spec fn covers(ok: spec_fn(Tree) -> bool, rule: spec_fn(Tree) -> Tree, t: Tree) -> bool
    decreases t,
{
    &&& t.left is Some ==> covers(ok, rule, t.l())
    &&& t.right is Some ==> covers(ok, rule, t.r())
    &&& rebuilt(rule, t).count() <= usize::MAX
    &&& ok(rebuilt(rule, t))
}

/// `a → b` becomes `¬a ∨ b`.
pub open spec fn imply_rule(x: Tree) -> Tree {
    if x.root == Symbol::Binary(BinaryOp::Implies) {
        Tree::bin(BinaryOp::Or, Tree::not(x.l()), x.r())
    } else {
        x
    }
}

/// `a ↔ b` becomes `(¬a ∨ b) ∧ (¬b ∨ a)`.
pub open spec fn iff_rule(x: Tree) -> Tree {
    if x.root == Symbol::Binary(BinaryOp::Iff) {
        Tree::bin(
            BinaryOp::And,
            Tree::bin(BinaryOp::Or, Tree::not(x.l()), x.r()),
            Tree::bin(BinaryOp::Or, Tree::not(x.r()), x.l()),
        )
    } else {
        x
    }
}

/// The local rule of the first pass.
pub open spec fn eliminate_rule() -> spec_fn(Tree) -> Tree {
    |x: Tree| iff_rule(imply_rule(x))
}

/// `t` without implications and biconditionals.
pub open spec fn eliminated(t: Tree) -> Tree {
    bottom_up(eliminate_rule(), t)
}

/// Whether `x` is the negation of a formula joined by `op`.
pub open spec fn negates(x: Tree, op: BinaryOp) -> bool {
    x.root is Unary && x.right is Some && x.r().root == Symbol::Binary(op)
}

/// `¬(a ∧ b)` becomes `¬a ∨ ¬b`.
pub open spec fn and_to_or_rule(x: Tree) -> Tree {
    if negates(x, BinaryOp::And) {
        Tree::bin(BinaryOp::Or, Tree::not(x.r().l()), Tree::not(x.r().r()))
    } else {
        x
    }
}

/// `¬(a ∨ b)` becomes `¬a ∧ ¬b`.
pub open spec fn or_to_and_rule(x: Tree) -> Tree {
    if negates(x, BinaryOp::Or) {
        Tree::bin(BinaryOp::And, Tree::not(x.r().l()), Tree::not(x.r().r()))
    } else {
        x
    }
}

/// A negation pushed inward through conjunctions and disjunctions until it
/// stands before something else.
pub open spec fn pushed(x: Tree) -> Tree
    decreases x.count(),
{
    if negates(x, BinaryOp::And) && x.r().left is Some && x.r().right is Some {
        proof {
            broadcast use group_tree;

            lemma_count(x);
            lemma_count(x.r());
        }
        Tree::bin(BinaryOp::Or, pushed(Tree::not(x.r().l())), pushed(Tree::not(x.r().r())))
    } else if negates(x, BinaryOp::Or) && x.r().left is Some && x.r().right is Some {
        proof {
            broadcast use group_tree;

            lemma_count(x);
            lemma_count(x.r());
        }
        Tree::bin(BinaryOp::And, pushed(Tree::not(x.r().l())), pushed(Tree::not(x.r().r())))
    } else {
        x
    }
}

/// The local rule of the second pass.
pub open spec fn de_morgan_rule() -> spec_fn(Tree) -> Tree {
    |x: Tree| pushed(x)
}

/// `t` with De Morgan's laws applied throughout.
pub open spec fn de_morganed(t: Tree) -> Tree {
    bottom_up(de_morgan_rule(), t)
}

/// Pairs of negations taken off the top of `x` until none is left there.
pub open spec fn bared(x: Tree) -> Tree
    decreases x.count(),
{
    if x.root is Unary && x.right is Some && x.r().root is Unary && x.r().right is Some {
        proof {
            lemma_count(x);
            lemma_count(x.r());
        }
        bared(x.r().r())
    } else {
        x
    }
}

/// The local rule of the third pass.
pub open spec fn strip_rule() -> spec_fn(Tree) -> Tree {
    |x: Tree| bared(x)
}

/// `t` without double negations.
pub open spec fn stripped(t: Tree) -> Tree {
    bottom_up(strip_rule(), t)
}

/// Whether `x` is a formula joined by `op`.
pub open spec fn joins(x: Tree, op: BinaryOp) -> bool {
    x.root == Symbol::Binary(op) && x.left is Some && x.right is Some
}

/// A disjunction distributed over the conjunctions below it: `a ∨ (b ∧ c)`
/// becomes `(a ∨ b) ∧ (a ∨ c)` and `(a ∧ b) ∨ c` becomes `(a ∨ c) ∧ (b ∨ c)`,
/// a conjunction on the right first, and again in both halves until no
/// disjunction made this way has a conjunction as a child.
pub open spec fn split(x: Tree) -> Tree
    decreases x.count(),
{
    if joins(x, BinaryOp::Or) && joins(x.r(), BinaryOp::And) {
        proof {
            broadcast use group_tree;

            lemma_count(x);
            lemma_count(x.r());
        }
        Tree::bin(
            BinaryOp::And,
            split(Tree::bin(BinaryOp::Or, x.l(), x.r().l())),
            split(Tree::bin(BinaryOp::Or, x.l(), x.r().r())),
        )
    } else if joins(x, BinaryOp::Or) && joins(x.l(), BinaryOp::And) {
        proof {
            broadcast use group_tree;

            lemma_count(x);
            lemma_count(x.l());
        }
        Tree::bin(
            BinaryOp::And,
            split(Tree::bin(BinaryOp::Or, x.l().l(), x.r())),
            split(Tree::bin(BinaryOp::Or, x.l().r(), x.r())),
        )
    } else {
        x
    }
}

/// The local rule of the fourth pass.
pub open spec fn distribute_rule() -> spec_fn(Tree) -> Tree {
    |x: Tree| split(x)
}

/// `t` with disjunction distributed over conjunction throughout.
pub open spec fn distributed(t: Tree) -> Tree {
    bottom_up(distribute_rule(), t)
}

/// The four passes one after the other.
pub open spec fn cnf(t: Tree) -> Tree {
    distributed(stripped(de_morganed(eliminated(t))))
}

/// Whether `t` is true where `v` says which atoms are. A tree that breaks
/// the shape rules at its root counts as false.
pub open spec fn truth(t: Tree, v: spec_fn(char) -> bool) -> bool
    decreases t,
{
    match t.root {
        Symbol::Atom(c) => v(c),
        Symbol::Unary(_) => t.right is Some && !truth(t.r(), v),
        Symbol::Binary(op) => t.left is Some && t.right is Some && (match op {
            BinaryOp::And => truth(t.l(), v) && truth(t.r(), v),
            BinaryOp::Or => truth(t.l(), v) || truth(t.r(), v),
            BinaryOp::Implies => truth(t.l(), v) ==> truth(t.r(), v),
            BinaryOp::Iff => truth(t.l(), v) == truth(t.r(), v),
        }),
        _ => false,
    }
}

/// The truth of a negation.
pub proof fn lemma_truth_not(x: Tree, v: spec_fn(char) -> bool)
    ensures
        truth(Tree::not(x), v) == !truth(x, v),
{
    assert(Tree::not(x).r() == x);
}

/// The truth of a joined pair.
pub proof fn lemma_truth_bin(op: BinaryOp, l: Tree, r: Tree, v: spec_fn(char) -> bool)
    ensures
        truth(Tree::bin(op, l, r), v) == (match op {
            BinaryOp::And => truth(l, v) && truth(r, v),
            BinaryOp::Or => truth(l, v) || truth(r, v),
            BinaryOp::Implies => truth(l, v) ==> truth(r, v),
            BinaryOp::Iff => truth(l, v) == truth(r, v),
        }),
{
    assert(Tree::bin(op, l, r).l() == l);
    assert(Tree::bin(op, l, r).r() == r);
}

/// Removing an implication or a biconditional at the root keeps the truth
/// of a formula.
pub proof fn lemma_eliminate_rule_truth(x: Tree, v: spec_fn(char) -> bool)
    requires
        x.valid(),
    ensures
        truth(iff_rule(imply_rule(x)), v) == truth(x, v),
{
    lemma_valid_form(x);
    if x.root is Binary {
        let l = x.l();
        let r = x.r();
        lemma_truth_bin(x.op(), l, r, v);
        lemma_truth_not(l, v);
        lemma_truth_not(r, v);
        lemma_truth_bin(BinaryOp::Or, Tree::not(l), r, v);
        lemma_truth_bin(BinaryOp::Or, Tree::not(r), l, v);
        lemma_truth_bin(
            BinaryOp::And,
            Tree::bin(BinaryOp::Or, Tree::not(l), r),
            Tree::bin(BinaryOp::Or, Tree::not(r), l),
            v,
        );
    }
}

/// Pushing a negation inward keeps the truth of a formula.
pub proof fn lemma_pushed_truth(x: Tree, v: spec_fn(char) -> bool)
    requires
        x.valid(),
    ensures
        truth(pushed(x), v) == truth(x, v),
    decreases x.count(),
{
    broadcast use group_tree;

    lemma_valid_form(x);
    if x.root is Unary {
        lemma_valid_form(x.r());
        if x.r().root is Binary {
            let a = x.r().l();
            let b = x.r().r();
            lemma_truth_not(x.r(), v);
            lemma_truth_bin(x.r().op(), a, b, v);
            lemma_truth_not(a, v);
            lemma_truth_not(b, v);
            lemma_pushed_truth(Tree::not(a), v);
            lemma_pushed_truth(Tree::not(b), v);
            lemma_truth_bin(BinaryOp::Or, pushed(Tree::not(a)), pushed(Tree::not(b)), v);
            lemma_truth_bin(BinaryOp::And, pushed(Tree::not(a)), pushed(Tree::not(b)), v);
        }
    }
}

/// Taking double negations off the top keeps the truth of a formula.
pub proof fn lemma_bared_truth(x: Tree, v: spec_fn(char) -> bool)
    requires
        x.valid(),
    ensures
        truth(bared(x), v) == truth(x, v),
    decreases x.count(),
{
    lemma_valid_form(x);
    if x.root is Unary {
        lemma_valid_form(x.r());
        if x.r().root is Unary {
            lemma_truth_not(x.r(), v);
            lemma_truth_not(x.r().r(), v);
            lemma_bared_truth(x.r().r(), v);
        }
    }
}

/// Distributing a disjunction keeps the truth of a formula.
pub proof fn lemma_split_truth(x: Tree, v: spec_fn(char) -> bool)
    requires
        x.valid(),
    ensures
        truth(split(x), v) == truth(x, v),
    decreases x.count(),
{
    broadcast use group_tree;

    lemma_valid_form(x);
    if joins(x, BinaryOp::Or) && joins(x.r(), BinaryOp::And) {
        lemma_valid_form(x.r());
        let a = x.l();
        let b = x.r().l();
        let c = x.r().r();
        let ab = Tree::bin(BinaryOp::Or, a, b);
        let ac = Tree::bin(BinaryOp::Or, a, c);
        lemma_truth_bin(BinaryOp::Or, a, x.r(), v);
        lemma_truth_bin(BinaryOp::And, b, c, v);
        lemma_truth_bin(BinaryOp::Or, a, b, v);
        lemma_truth_bin(BinaryOp::Or, a, c, v);
        lemma_split_truth(ab, v);
        lemma_split_truth(ac, v);
        lemma_truth_bin(BinaryOp::And, split(ab), split(ac), v);
    } else if joins(x, BinaryOp::Or) && joins(x.l(), BinaryOp::And) {
        lemma_valid_form(x.l());
        let a = x.l().l();
        let b = x.l().r();
        let c = x.r();
        let ac = Tree::bin(BinaryOp::Or, a, c);
        let bc = Tree::bin(BinaryOp::Or, b, c);
        lemma_truth_bin(BinaryOp::Or, x.l(), c, v);
        lemma_truth_bin(BinaryOp::And, a, b, v);
        lemma_truth_bin(BinaryOp::Or, a, c, v);
        lemma_truth_bin(BinaryOp::Or, b, c, v);
        lemma_split_truth(ac, v);
        lemma_split_truth(bc, v);
        lemma_truth_bin(BinaryOp::And, split(ac), split(bc), v);
    }
}

/// A bottom-up pass keeps the truth of a valid formula when its rule keeps
/// validity and truth.
pub proof fn lemma_pass_truth(rule: spec_fn(Tree) -> Tree, t: Tree, v: spec_fn(char) -> bool)
    requires
        t.valid(),
        forall|x: Tree| #![trigger rule(x)] x.valid() ==> rule(x).valid() && truth(rule(x), v) == truth(x, v),
    ensures
        truth(bottom_up(rule, t), v) == truth(t, v),
        bottom_up(rule, t).valid(),
    decreases t,
{
    lemma_pass_valid(rule, t);
    if t.left is Some {
        lemma_pass_truth(rule, t.l(), v);
    }
    if t.right is Some {
        lemma_pass_truth(rule, t.r(), v);
    }
    let node = rebuilt(rule, t);
    assert(truth(node, v) == truth(t, v));
}

/// The first pass keeps the truth of a valid formula.
pub proof fn lemma_eliminated_truth(t: Tree, v: spec_fn(char) -> bool)
    requires
        t.valid(),
    ensures
        truth(eliminated(t), v) == truth(t, v),
        eliminated(t).valid(),
{
    assert forall|x: Tree| #![trigger eliminate_rule()(x)] x.valid() implies eliminate_rule()(
        x,
    ).valid() && truth(eliminate_rule()(x), v) == truth(x, v) by {
        lemma_eliminate_rule(x);
        lemma_eliminate_rule_truth(x, v);
    }
    lemma_pass_truth(eliminate_rule(), t, v);
}

/// The second pass keeps the truth of a valid formula.
pub proof fn lemma_de_morganed_truth(t: Tree, v: spec_fn(char) -> bool)
    requires
        t.valid(),
    ensures
        truth(de_morganed(t), v) == truth(t, v),
        de_morganed(t).valid(),
{
    assert forall|x: Tree| #![trigger de_morgan_rule()(x)] x.valid() implies de_morgan_rule()(
        x,
    ).valid() && truth(de_morgan_rule()(x), v) == truth(x, v) by {
        lemma_pushed(x);
        lemma_pushed_truth(x, v);
    }
    lemma_pass_truth(de_morgan_rule(), t, v);
}

/// The third pass keeps the truth of a valid formula.
pub proof fn lemma_stripped_truth(t: Tree, v: spec_fn(char) -> bool)
    requires
        t.valid(),
    ensures
        truth(stripped(t), v) == truth(t, v),
        stripped(t).valid(),
{
    assert forall|x: Tree| #![trigger strip_rule()(x)] x.valid() implies strip_rule()(x).valid()
        && truth(strip_rule()(x), v) == truth(x, v) by {
        lemma_bared(x);
        lemma_bared_truth(x, v);
    }
    lemma_pass_truth(strip_rule(), t, v);
}

/// The fourth pass keeps the truth of a valid formula.
pub proof fn lemma_distributed_truth(t: Tree, v: spec_fn(char) -> bool)
    requires
        t.valid(),
    ensures
        truth(distributed(t), v) == truth(t, v),
        distributed(t).valid(),
{
    assert forall|x: Tree| #![trigger distribute_rule()(x)] x.valid() implies distribute_rule()(
        x,
    ).valid() && truth(distribute_rule()(x), v) == truth(x, v) by {
        lemma_split(x);
        lemma_split_truth(x, v);
    }
    lemma_pass_truth(distribute_rule(), t, v);
}

/// The four passes keep the meaning of a valid formula: under every
/// assignment of truth values to the atoms, the normal form is true exactly
/// when the formula is.
pub proof fn lemma_cnf_truth(t: Tree, v: spec_fn(char) -> bool)
    requires
        t.valid(),
    ensures
        truth(cnf(t), v) == truth(t, v),
{
    lemma_eliminated_truth(t, v);
    lemma_de_morganed_truth(eliminated(t), v);
    lemma_stripped_truth(de_morganed(eliminated(t)), v);
    lemma_distributed_truth(stripped(de_morganed(eliminated(t))), v);
}

/// Two trees are true under the same assignments of truth values to the
/// atoms.
pub open spec fn equivalent(a: Tree, b: Tree) -> bool {
    forall|v: spec_fn(char) -> bool| #[trigger] truth(a, v) == truth(b, v)
}

/// How far a formula is on the way to conjunctive normal form. At level 1 it
/// is valid and its only connectives are `∧`, `∨` and `¬`. At level 2, in
/// addition, no negation stands before a conjunction or a disjunction. At
/// level 3 every negation stands before an atom. At level 4 no disjunction
/// has a conjunction as a child.
pub open spec fn shaped(t: Tree, level: int) -> bool
    decreases t,
{
    match t.root {
        Symbol::Atom(_) => t.left is None && t.right is None,
        Symbol::Unary(_) => {
            &&& t.left is None
            &&& t.right is Some
            &&& shaped(t.r(), level)
            &&& level >= 2 ==> !(t.r().root is Binary)
            &&& level >= 3 ==> t.r().root is Atom
        },
        Symbol::Binary(op) => {
            &&& op == BinaryOp::And || op == BinaryOp::Or
            &&& t.left is Some
            &&& t.right is Some
            &&& shaped(t.l(), level)
            &&& shaped(t.r(), level)
            &&& level >= 4 && op == BinaryOp::Or ==> t.l().root != Symbol::Binary(BinaryOp::And)
                && t.r().root != Symbol::Binary(BinaryOp::And)
        },
        _ => false,
    }
}

/// The shape of a formula in conjunctive normal form: only `∧`, `∨`, `¬` and
/// atoms, every negation before an atom, and no disjunction with a
/// conjunction as a child.
pub open spec fn cnf_shape(t: Tree) -> bool {
    shaped(t, 4)
}

/// The sizes that the four passes go through fit the cached size.
pub open spec fn cnf_fits(t: Tree) -> bool {
    de_morganed(eliminated(t)).count() <= usize::MAX && cnf(t).count() <= usize::MAX
}

/// A formula at one level is at every lower level, and valid.
pub proof fn lemma_shaped_lower(t: Tree, level: int, lower: int)
    requires
        shaped(t, level),
        lower <= level,
    ensures
        shaped(t, lower),
        t.valid(),
    decreases t,
{
    if t.left is Some {
        lemma_shaped_lower(t.l(), level, lower);
    }
    if t.right is Some {
        lemma_shaped_lower(t.r(), level, lower);
    }
}

/// The first pass leaves no connective but `∧`, `∨` and `¬`.
pub proof fn lemma_eliminated_shape(t: Tree)
    requires
        t.valid(),
    ensures
        shaped(eliminated(t), 1),
    decreases t,
{
    broadcast use group_tree;

    lemma_valid_form(t);
    if t.left is Some {
        lemma_eliminated_shape(t.l());
    }
    if t.right is Some {
        lemma_eliminated_shape(t.r());
    }
    let node = rebuilt(eliminate_rule(), t);
    if t.root is Binary {
        let l = eliminated(t.l());
        let r = eliminated(t.r());
        assert(node == Tree::bin(t.op(), l, r));
        assert(shaped(Tree::not(l), 1));
        assert(shaped(Tree::not(r), 1));
        assert(shaped(Tree::bin(BinaryOp::Or, Tree::not(l), r), 1));
        assert(shaped(Tree::bin(BinaryOp::Or, Tree::not(r), l), 1));
    }
}

/// A negation pushed inward no longer stands before a conjunction or a
/// disjunction.
pub proof fn lemma_pushed_shape(x: Tree)
    requires
        shaped(x, 1),
        x.left is Some ==> shaped(x.l(), 2),
        x.right is Some ==> shaped(x.r(), 2),
    ensures
        shaped(pushed(x), 2),
    decreases x.count(),
{
    broadcast use group_tree;

    lemma_shaped_lower(x, 1, 1);
    lemma_valid_form(x);
    if x.root is Unary && x.r().root is Binary {
        let a = x.r().l();
        let b = x.r().r();
        lemma_valid_form(x.r());
        lemma_shaped_lower(a, 2, 1);
        lemma_shaped_lower(b, 2, 1);
        assert(shaped(Tree::not(a), 1));
        assert(shaped(Tree::not(b), 1));
        lemma_pushed_shape(Tree::not(a));
        lemma_pushed_shape(Tree::not(b));
    }
}

/// The second pass leaves no negation before a conjunction or a
/// disjunction.
pub proof fn lemma_de_morganed_shape(t: Tree)
    requires
        shaped(t, 1),
    ensures
        shaped(de_morganed(t), 2),
    decreases t,
{
    if t.left is Some {
        lemma_de_morganed_shape(t.l());
        lemma_shaped_lower(de_morganed(t.l()), 2, 1);
    }
    if t.right is Some {
        lemma_de_morganed_shape(t.r());
        lemma_shaped_lower(de_morganed(t.r()), 2, 1);
    }
    lemma_pushed_shape(rebuilt(de_morgan_rule(), t));
}

/// Whether `t` is an atom or the negation of an atom.
pub open spec fn is_literal(t: Tree) -> bool {
    shaped(t, 3) && !(t.root is Binary)
}

/// The third pass leaves every negation before an atom, and turns a chain
/// of negations into a literal.
pub proof fn lemma_stripped_shape(t: Tree)
    requires
        shaped(t, 2),
    ensures
        shaped(stripped(t), 3),
        !(t.root is Binary) ==> is_literal(stripped(t)),
    decreases t,
{
    if t.left is Some {
        lemma_stripped_shape(t.l());
    }
    if t.right is Some {
        lemma_stripped_shape(t.r());
    }
    let node = rebuilt(strip_rule(), t);
    if t.root is Unary {
        let y = stripped(t.r());
        assert(is_literal(y));
        if y.root is Unary {
            assert(bared(node) == bared(y.r()));
            assert(bared(y.r()) == y.r());
        } else {
            assert(bared(node) == node);
        }
    } else {
        assert(bared(node) == node);
    }
}

/// A disjunction of two formulas at level 4, distributed, is at level 4.
pub proof fn lemma_split_shape(x: Tree)
    requires
        shaped(x, 3),
        x.left is Some ==> shaped(x.l(), 4),
        x.right is Some ==> shaped(x.r(), 4),
    ensures
        shaped(split(x), 4),
    decreases x.count(),
{
    broadcast use group_tree;

    lemma_shaped_lower(x, 3, 3);
    lemma_valid_form(x);
    if joins(x, BinaryOp::Or) && joins(x.r(), BinaryOp::And) {
        lemma_valid_form(x.r());
        let a = x.l();
        let b = x.r().l();
        let c = x.r().r();
        lemma_shaped_lower(a, 4, 3);
        lemma_shaped_lower(b, 4, 3);
        lemma_shaped_lower(c, 4, 3);
        assert(shaped(Tree::bin(BinaryOp::Or, a, b), 3));
        assert(shaped(Tree::bin(BinaryOp::Or, a, c), 3));
        lemma_split_shape(Tree::bin(BinaryOp::Or, a, b));
        lemma_split_shape(Tree::bin(BinaryOp::Or, a, c));
    } else if joins(x, BinaryOp::Or) && joins(x.l(), BinaryOp::And) {
        lemma_valid_form(x.l());
        let a = x.l().l();
        let b = x.l().r();
        let c = x.r();
        lemma_shaped_lower(a, 4, 3);
        lemma_shaped_lower(b, 4, 3);
        lemma_shaped_lower(c, 4, 3);
        assert(shaped(Tree::bin(BinaryOp::Or, a, c), 3));
        assert(shaped(Tree::bin(BinaryOp::Or, b, c), 3));
        lemma_split_shape(Tree::bin(BinaryOp::Or, a, c));
        lemma_split_shape(Tree::bin(BinaryOp::Or, b, c));
    } else if x.root is Unary {
        assert(shaped(x.r(), 4));
    }
}

/// The fourth pass leaves no disjunction with a conjunction as a child.
pub proof fn lemma_distributed_shape(t: Tree)
    requires
        shaped(t, 3),
    ensures
        shaped(distributed(t), 4),
        t.root is Atom ==> distributed(t) == t,
    decreases t,
{
    if t.left is Some {
        lemma_distributed_shape(t.l());
        lemma_shaped_lower(distributed(t.l()), 4, 3);
    }
    if t.right is Some {
        lemma_distributed_shape(t.r());
        lemma_shaped_lower(distributed(t.r()), 4, 3);
    }
    let node = rebuilt(distribute_rule(), t);
    if t.root is Atom {
        assert(node == t);
    }
    assert(shaped(node, 3));
    lemma_split_shape(node);
}

/// After the four passes a valid formula has the shape of a conjunctive
/// normal form: no disjunction has a conjunction as a child, and every
/// negation stands before an atom.
pub proof fn lemma_cnf_shape(t: Tree)
    requires
        t.valid(),
    ensures
        cnf_shape(cnf(t)),
{
    lemma_eliminated_shape(t);
    lemma_de_morganed_shape(eliminated(t));
    lemma_stripped_shape(de_morganed(eliminated(t)));
    lemma_distributed_shape(stripped(de_morganed(eliminated(t))));
}

/// Removing an implication or a biconditional at the root keeps a formula
/// valid and does not shrink it.
pub proof fn lemma_eliminate_rule(x: Tree)
    requires
        x.valid(),
    ensures
        imply_rule(x).valid(),
        imply_rule(x).count() >= x.count(),
        iff_rule(imply_rule(x)).valid(),
        iff_rule(imply_rule(x)).count() >= imply_rule(x).count(),
{
    broadcast use group_tree;

    lemma_valid_form(x);
}

/// Pushing a negation inward keeps a formula valid and does not shrink it.
pub proof fn lemma_pushed(x: Tree)
    requires
        x.valid(),
    ensures
        pushed(x).valid(),
        pushed(x).count() >= x.count(),
    decreases x.count(),
{
    broadcast use group_tree;

    lemma_valid_form(x);
    if x.root is Unary {
        lemma_valid_form(x.r());
        if x.r().root is Binary {
            lemma_pushed(Tree::not(x.r().l()));
            lemma_pushed(Tree::not(x.r().r()));
        }
    }
}

/// Taking double negations off the top keeps a formula valid and does not
/// grow it.
pub proof fn lemma_bared(x: Tree)
    requires
        x.valid(),
    ensures
        bared(x).valid(),
        bared(x).count() <= x.count(),
    decreases x.count(),
{
    lemma_valid_form(x);
    if x.root is Unary {
        lemma_valid_form(x.r());
        if x.r().root is Unary {
            lemma_bared(x.r().r());
        }
    }
}

/// Distributing a disjunction keeps a formula valid and does not shrink it.
pub proof fn lemma_split(x: Tree)
    requires
        x.valid(),
    ensures
        split(x).valid(),
        split(x).count() >= x.count(),
    decreases x.count(),
{
    broadcast use group_tree;

    lemma_valid_form(x);
    if joins(x, BinaryOp::Or) && joins(x.r(), BinaryOp::And) {
        lemma_valid_form(x.r());
        lemma_split(Tree::bin(BinaryOp::Or, x.l(), x.r().l()));
        lemma_split(Tree::bin(BinaryOp::Or, x.l(), x.r().r()));
    } else if joins(x, BinaryOp::Or) && joins(x.l(), BinaryOp::And) {
        lemma_valid_form(x.l());
        lemma_split(Tree::bin(BinaryOp::Or, x.l().l(), x.r()));
        lemma_split(Tree::bin(BinaryOp::Or, x.l().r(), x.r()));
    }
}

/// A bottom-up pass keeps a formula valid when its rule does, and a rule
/// that never shrinks a formula is applicable throughout as soon as the
/// result of the pass fits the cached size.
pub proof fn lemma_growing_pass(ok: spec_fn(Tree) -> bool, rule: spec_fn(Tree) -> Tree, t: Tree)
    requires
        t.valid(),
        forall|x: Tree| #![trigger rule(x)] x.valid() ==> rule(x).valid() && rule(x).count() >= x.count(),
        forall|x: Tree| #![trigger ok(x)] x.valid() && rule(x).count() <= usize::MAX ==> ok(x),
        bottom_up(rule, t).count() <= usize::MAX,
    ensures
        covers(ok, rule, t),
        bottom_up(rule, t).valid(),
        rebuilt(rule, t).valid(),
        bottom_up(rule, t).count() >= t.count(),
    decreases t,
{
    let node = rebuilt(rule, t);
    if t.left is Some {
        lemma_pass_valid(rule, t.l());
    }
    if t.right is Some {
        lemma_pass_valid(rule, t.r());
    }
    assert(node.valid());
    assert(rule(node).count() >= node.count());
    if t.left is Some {
        lemma_growing_pass(ok, rule, t.l());
    }
    if t.right is Some {
        lemma_growing_pass(ok, rule, t.r());
    }
}

/// A bottom-up pass keeps a formula valid when its rule does.
pub proof fn lemma_pass_valid(rule: spec_fn(Tree) -> Tree, t: Tree)
    requires
        t.valid(),
        forall|x: Tree| #![trigger rule(x)] x.valid() ==> rule(x).valid(),
    ensures
        bottom_up(rule, t).valid(),
        rebuilt(rule, t).valid(),
    decreases t,
{
    if t.left is Some {
        lemma_pass_valid(rule, t.l());
    }
    if t.right is Some {
        lemma_pass_valid(rule, t.r());
    }
}

/// A rule that never grows a formula is applicable throughout a bottom-up
/// pass, and the pass does not grow the formula either.
pub proof fn lemma_shrinking_pass(ok: spec_fn(Tree) -> bool, rule: spec_fn(Tree) -> Tree, t: Tree)
    requires
        t.valid(),
        forall|x: Tree| #![trigger rule(x)] x.valid() ==> rule(x).valid() && rule(x).count() <= x.count(),
        forall|x: Tree| #![trigger ok(x)] x.valid() ==> ok(x),
        t.count() <= usize::MAX,
    ensures
        covers(ok, rule, t),
        bottom_up(rule, t).valid(),
        rebuilt(rule, t).valid(),
        rebuilt(rule, t).count() <= t.count(),
        bottom_up(rule, t).count() <= t.count(),
    decreases t,
{
    if t.left is Some {
        lemma_shrinking_pass(ok, rule, t.l());
    }
    if t.right is Some {
        lemma_shrinking_pass(ok, rule, t.r());
    }
}

impl PropFormula {
    /// Applies `method` at every node of the formula, at the children of a
    /// node before the node itself. `rule` says what `method` computes and
    /// `ok` where it may be called.
    pub(crate) fn subtree_recurse<F: Fn(PropFormula) -> PropFormula>(
        self,
        method: &F,
        Ghost(ok): Ghost<spec_fn(Tree) -> bool>,
        Ghost(rule): Ghost<spec_fn(Tree) -> Tree>,
    ) -> (out: Self)
        requires
            self.wf(),
            self@.valid(),
            covers(ok, rule, self@),
            forall|x: PropFormula| x.wf() && ok(x@) ==> #[trigger] call_requires(method, (x,)),
            forall|x: PropFormula, y: PropFormula|
                x.wf() && ok(x@) && #[trigger] call_ensures(method, (x,), y) ==> y.wf() && y@
                    == rule(x@),
        ensures
            out.wf(),
            out@ == bottom_up(rule, self@),
        decreases self@,
    {
        let ghost t = self@;
        let formula = match self.root() {
            Symbol::Binary(b) => {
                let (right, left) = self.take_children();
                let left = left.subtree_recurse(method, Ghost(ok), Ghost(rule));
                let right = right.subtree_recurse(method, Ghost(ok), Ghost(rule));
                left.combine(b, right)
            },
            Symbol::Unary(_) => {
                let child = self.take_child(true);
                child.subtree_recurse(method, Ghost(ok), Ghost(rule)).negate()
            },
            _ => self,
        };
        assert(formula@ == rebuilt(rule, t));
        method(formula)
    }

    /// Turns an implication `a → b` into `¬a ∨ b`; any other formula is
    /// returned as it is.
    pub fn de_imply(self) -> (out: Self)
        requires
            self.wf(),
            self@.valid(),
            imply_rule(self@).count() <= usize::MAX,
        ensures
            out.wf(),
            out@ == imply_rule(self@),
    {
        if let Symbol::Binary(BinaryOp::Implies) = self.root() {
            proof {
                broadcast use group_tree;

                lemma_valid_form(self@);
            }
            self.possess_child(false, PropFormula::negate).recombine(BinaryOp::Or)
        } else {
            self
        }
    }

    /// Turns a biconditional `a ↔ b` into `(¬a ∨ b) ∧ (¬b ∨ a)`; any other
    /// formula is returned as it is.
    pub fn de_iff(self) -> (out: Self)
        requires
            self.wf(),
            self@.valid(),
            iff_rule(self@).count() <= usize::MAX,
        ensures
            out.wf(),
            out@ == iff_rule(self@),
    {
        if let Symbol::Binary(BinaryOp::Iff) = self.root() {
            proof {
                broadcast use group_tree;

                lemma_valid_form(self@);
            }
            let backward = self.clone().swap_children().recombine(BinaryOp::Implies).de_imply();
            self.recombine(BinaryOp::Implies).de_imply().combine(BinaryOp::And, backward)
        } else {
            self
        }
    }

    /// Removes implications and biconditionals throughout the formula.
    pub fn eliminate_implies(self) -> (out: Self)
        requires
            self.wf(),
            self@.valid(),
            eliminated(self@).count() <= usize::MAX,
        ensures
            out.wf(),
            out@ == eliminated(self@),
            out@.valid(),
            shaped(out@, 1),
            equivalent(out@, self@),
    {
        let ghost ok = |x: Tree| x.valid() && iff_rule(imply_rule(x)).count() <= usize::MAX;
        proof {
            lemma_eliminated_shape(self@);
            assert forall|v: spec_fn(char) -> bool| #[trigger]
                truth(eliminated(self@), v) == truth(self@, v) by {
                lemma_eliminated_truth(self@, v);
            }
            assert forall|x: Tree| #![trigger eliminate_rule()(x)] x.valid() implies eliminate_rule()(
                x,
            ).valid() && eliminate_rule()(x).count() >= x.count() by {
                lemma_eliminate_rule(x);
            }
            lemma_growing_pass(ok, eliminate_rule(), self@);
        }
        let method = |f: PropFormula| -> (g: PropFormula)
            requires
                f.wf(),
                f@.valid(),
                iff_rule(imply_rule(f@)).count() <= usize::MAX,
            ensures
                g.wf(),
                g@ == iff_rule(imply_rule(f@)),
            {
                proof {
                    lemma_eliminate_rule(f@);
                }
                f.de_imply().de_iff()
            };
        self.subtree_recurse(&method, Ghost(ok), Ghost(eliminate_rule()))
    }

    /// De Morgan's first law at the root: `¬(a ∧ b)` becomes `¬a ∨ ¬b`; any
    /// other formula is returned as it is.
    pub fn and_to_or(self) -> (out: Self)
        requires
            self.wf(),
            self@.valid(),
            and_to_or_rule(self@).count() <= usize::MAX,
        ensures
            out.wf(),
            out@ == and_to_or_rule(self@),
    {
        proof {
            broadcast use group_tree;

            lemma_valid_form(self@);
        }
        if let Symbol::Unary(UnaryOp::Not) = self.root() {
            if let Symbol::Binary(BinaryOp::And) = self.get_child(true).root() {
                proof {
                    lemma_valid_form(self@.r());
                }
                return self.take_child(true).possess_children(PropFormula::negate, PropFormula::negate).recombine(
                    BinaryOp::Or,
                );
            }
        }
        self
    }

    /// De Morgan's second law at the root: `¬(a ∨ b)` becomes `¬a ∧ ¬b`; any
    /// other formula is returned as it is.
    pub fn or_to_and(self) -> (out: Self)
        requires
            self.wf(),
            self@.valid(),
            or_to_and_rule(self@).count() <= usize::MAX,
        ensures
            out.wf(),
            out@ == or_to_and_rule(self@),
    {
        proof {
            broadcast use group_tree;

            lemma_valid_form(self@);
        }
        if let Symbol::Unary(UnaryOp::Not) = self.root() {
            if let Symbol::Binary(BinaryOp::Or) = self.get_child(true).root() {
                proof {
                    lemma_valid_form(self@.r());
                }
                return self.take_child(true).possess_children(PropFormula::negate, PropFormula::negate).recombine(
                    BinaryOp::And,
                );
            }
        }
        self
    }

    /// Pushes the negation at the root inward through the conjunctions and
    /// disjunctions below it, by De Morgan's laws.
    pub fn push_negation(self) -> (out: Self)
        requires
            self.wf(),
            self@.valid(),
            pushed(self@).count() <= usize::MAX,
        ensures
            out.wf(),
            out@ == pushed(self@),
        decreases self@.count(),
    {
        let ghost x = self@;
        proof {
            broadcast use group_tree;

            lemma_valid_form(x);
        }
        if let Symbol::Unary(UnaryOp::Not) = self.root() {
            let dual = match self.get_child(true).root() {
                Symbol::Binary(BinaryOp::And) => BinaryOp::Or,
                Symbol::Binary(BinaryOp::Or) => BinaryOp::And,
                _ => {
                    return self;
                },
            };
            proof {
                lemma_valid_form(x.r());
                lemma_pushed(Tree::not(x.r().l()));
                lemma_pushed(Tree::not(x.r().r()));
            }
            let (right, left) = self.and_to_or().or_to_and().take_children();
            left.push_negation().combine(dual, right.push_negation())
        } else {
            self
        }
    }

    /// Applies De Morgan's laws throughout the formula.
    pub fn de_morgans(self) -> (out: Self)
        requires
            self.wf(),
            self@.valid(),
            de_morganed(self@).count() <= usize::MAX,
        ensures
            out.wf(),
            out@ == de_morganed(self@),
            out@.valid(),
            shaped(self@, 1) ==> shaped(out@, 2),
            equivalent(out@, self@),
    {
        let ghost ok = |x: Tree| x.valid() && pushed(x).count() <= usize::MAX;
        proof {
            if shaped(self@, 1) {
                lemma_de_morganed_shape(self@);
            }
            assert forall|v: spec_fn(char) -> bool| #[trigger]
                truth(de_morganed(self@), v) == truth(self@, v) by {
                lemma_de_morganed_truth(self@, v);
            }
            assert forall|x: Tree| #![trigger de_morgan_rule()(x)] x.valid() implies de_morgan_rule()(
                x,
            ).valid() && de_morgan_rule()(x).count() >= x.count() by {
                lemma_pushed(x);
            }
            lemma_growing_pass(ok, de_morgan_rule(), self@);
        }
        let method = |f: PropFormula| -> (g: PropFormula)
            requires
                f.wf(),
                f@.valid(),
                pushed(f@).count() <= usize::MAX,
            ensures
                g.wf(),
                g@ == pushed(f@),
            { f.push_negation() };
        self.subtree_recurse(&method, Ghost(ok), Ghost(de_morgan_rule()))
    }

    /// Takes double negations off the root until none is left there.
    pub fn de_negate(self) -> (out: Self)
        requires
            self.wf(),
            self@.valid(),
        ensures
            out.wf(),
            out@ == bared(self@),
    {
        let ghost x = self@;
        let mut formula = self;
        while formula.has_child(true)
            invariant
                formula.wf(),
                formula@.valid(),
                bared(formula@) == bared(x),
            ensures
                formula.wf(),
                formula@ == bared(x),
            decreases formula@.count(),
        {
            proof {
                lemma_valid_form(formula@);
                lemma_valid_form(formula@.r());
            }
            if let (Symbol::Unary(UnaryOp::Not), Symbol::Unary(UnaryOp::Not)) = (
                formula.root(),
                formula.get_child(true).root(),
            ) {
                formula = formula.take_child(true).take_child(true);
            } else {
                break ;
            }
        }
        formula
    }

    /// Removes double negations throughout the formula.
    pub fn strip_negate(self) -> (out: Self)
        requires
            self.wf(),
            self@.valid(),
        ensures
            out.wf(),
            out@ == stripped(self@),
            out@.valid(),
            out@.count() <= self@.count(),
            shaped(self@, 2) ==> shaped(out@, 3),
            equivalent(out@, self@),
    {
        let ghost ok = |x: Tree| x.valid();
        proof {
            if shaped(self@, 2) {
                lemma_stripped_shape(self@);
            }
            assert forall|v: spec_fn(char) -> bool| #[trigger]
                truth(stripped(self@), v) == truth(self@, v) by {
                lemma_stripped_truth(self@, v);
            }
            assert forall|x: Tree| #![trigger strip_rule()(x)] x.valid() implies strip_rule()(
                x,
            ).valid() && strip_rule()(x).count() <= x.count() by {
                lemma_bared(x);
            }
            self.lemma_fits();
            lemma_shrinking_pass(ok, strip_rule(), self@);
        }
        let method = |f: PropFormula| -> (g: PropFormula)
            requires
                f.wf(),
                f@.valid(),
            ensures
                g.wf(),
                g@ == bared(f@),
            { f.de_negate() };
        self.subtree_recurse(&method, Ghost(ok), Ghost(strip_rule()))
    }

    /// Distributes the disjunction at the root over a conjunction below it:
    /// `a ∨ (b ∧ c)` becomes `(a ∨ b) ∧ (a ∨ c)`, `(a ∧ b) ∨ c` becomes
    /// `(a ∨ c) ∧ (b ∨ c)`, and the same is done in both halves.
    pub fn split_conjunction(self) -> (out: Self)
        requires
            self.wf(),
            self@.valid(),
            split(self@).count() <= usize::MAX,
        ensures
            out.wf(),
            out@ == split(self@),
        decreases self@.count(),
    {
        let ghost x = self@;
        proof {
            broadcast use group_tree;

            lemma_valid_form(x);
        }
        let mut formula = self;
        if formula.has_child(true) {
            if let (Symbol::Binary(BinaryOp::Or), Symbol::Binary(BinaryOp::And)) = (
                formula.root(),
                formula.get_child(true).root(),
            ) {
                proof {
                    lemma_valid_form(x.r());
                    lemma_split(Tree::bin(BinaryOp::Or, x.l(), x.r().l()));
                    lemma_split(Tree::bin(BinaryOp::Or, x.l(), x.r().r()));
                }
                let a = formula.get_child(false).clone();
                let attach = move |f: PropFormula| -> (g: PropFormula)
                    requires
                        f.wf(),
                        a.wf(),
                        f@.count() + a@.count() < usize::MAX,
                    ensures
                        g.wf(),
                        g@ == Tree::bin(BinaryOp::Or, a@, f@),
                    { f.left_combine(BinaryOp::Or, a) };
                formula = formula.rotate_left().possess_child(true, attach);
                assert(formula@ == Tree::bin(
                    BinaryOp::And,
                    Tree::bin(BinaryOp::Or, x.l(), x.r().l()),
                    Tree::bin(BinaryOp::Or, x.l(), x.r().r()),
                ));
                let (right, left) = formula.take_children();
                return left.split_conjunction().combine(
                    BinaryOp::And,
                    right.split_conjunction(),
                );
            }
        }
        if formula.has_child(false) {
            if let (Symbol::Binary(BinaryOp::Or), Symbol::Binary(BinaryOp::And)) = (
                formula.root(),
                formula.get_child(false).root(),
            ) {
                proof {
                    lemma_valid_form(x.l());
                    lemma_split(Tree::bin(BinaryOp::Or, x.l().l(), x.r()));
                    lemma_split(Tree::bin(BinaryOp::Or, x.l().r(), x.r()));
                }
                let c = formula.get_child(true).clone();
                let attach = move |f: PropFormula| -> (g: PropFormula)
                    requires
                        f.wf(),
                        c.wf(),
                        f@.count() + c@.count() < usize::MAX,
                    ensures
                        g.wf(),
                        g@ == Tree::bin(BinaryOp::Or, f@, c@),
                    { f.combine(BinaryOp::Or, c) };
                formula = formula.rotate_right().possess_child(false, attach);
                assert(formula@ == Tree::bin(
                    BinaryOp::And,
                    Tree::bin(BinaryOp::Or, x.l().l(), x.r()),
                    Tree::bin(BinaryOp::Or, x.l().r(), x.r()),
                ));
                let (right, left) = formula.take_children();
                return left.split_conjunction().combine(
                    BinaryOp::And,
                    right.split_conjunction(),
                );
            }
        }
        formula
    }

    /// Distributes disjunction over conjunction throughout the formula.
    pub fn distribute_conjunction(self) -> (out: Self)
        requires
            self.wf(),
            self@.valid(),
            distributed(self@).count() <= usize::MAX,
        ensures
            out.wf(),
            out@ == distributed(self@),
            out@.valid(),
            shaped(self@, 3) ==> shaped(out@, 4),
            equivalent(out@, self@),
    {
        let ghost ok = |x: Tree| x.valid() && split(x).count() <= usize::MAX;
        proof {
            if shaped(self@, 3) {
                lemma_distributed_shape(self@);
            }
            assert forall|v: spec_fn(char) -> bool| #[trigger]
                truth(distributed(self@), v) == truth(self@, v) by {
                lemma_distributed_truth(self@, v);
            }
            assert forall|x: Tree| #![trigger distribute_rule()(x)] x.valid() implies distribute_rule()(
                x,
            ).valid() && distribute_rule()(x).count() >= x.count() by {
                lemma_split(x);
            }
            lemma_growing_pass(ok, distribute_rule(), self@);
        }
        let method = |f: PropFormula| -> (g: PropFormula)
            requires
                f.wf(),
                f@.valid(),
                split(f@).count() <= usize::MAX,
            ensures
                g.wf(),
                g@ == split(f@),
            { f.split_conjunction() };
        self.subtree_recurse(&method, Ghost(ok), Ghost(distribute_rule()))
    }

    /// Rewrites the formula into conjunctive normal form. A formula that
    /// breaks the shape rules is refused with its first defect.
    pub fn conjunctive_normal_form(&self) -> (r: Result<Self, ValidationError>)
        requires
            self.wf(),
            self@.valid() ==> cnf_fits(self@),
        ensures
            match first_defect(self@) {
                Some(e) => r == Err::<Self, ValidationError>(e),
                None => r matches Ok(out) && out.wf() && out@ == cnf(self@) && cnf_shape(out@)
                    && equivalent(out@, self@),
            },
    {
        match self.validate() {
            Err(e) => {
                return Err(e);
            },
            Ok(_) => {},
        }
        let ghost t = self@;
        proof {
            let e = eliminated(t);
            assert forall|x: Tree| #![trigger eliminate_rule()(x)] x.valid() implies eliminate_rule()(
                x,
            ).valid() by {
                lemma_eliminate_rule(x);
            }
            assert forall|x: Tree| #![trigger de_morgan_rule()(x)] x.valid() implies de_morgan_rule()(
                x,
            ).valid() && de_morgan_rule()(x).count() >= x.count() by {
                lemma_pushed(x);
            }
            lemma_pass_valid(eliminate_rule(), t);
            lemma_growing_pass(|x: Tree| true, de_morgan_rule(), e);
            lemma_cnf_shape(t);
            assert forall|v: spec_fn(char) -> bool| #[trigger] truth(cnf(t), v) == truth(t, v) by {
                lemma_cnf_truth(t, v);
            }
        }
        Ok(self.clone().eliminate_implies().de_morgans().strip_negate().distribute_conjunction())
    }
}

} // verus!
