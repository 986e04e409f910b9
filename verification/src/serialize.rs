//! Writing a formula down: as a sequence of symbols in preorder or in infix
//! order, and as text.

use vstd::prelude::*;
use crate::formula::PropFormula;
use crate::symbol::{rank, Symbol};
use crate::tree::{render, wrapped};

verus! {

/// Writes a sequence of symbols as text.
pub fn render_symbols(symbols: &Vec<Symbol>) -> (text: String)
    ensures
        text@ == render(symbols@),
{
    let mut text = String::new();
    let mut i: usize = 0;
    assert(symbols@.take(0) =~= Seq::<Symbol>::empty());
    while i < symbols.len()
        invariant
            i <= symbols.len(),
            text@ == render(symbols@.take(i as int)),
        decreases symbols.len() - i,
    {
        assert(symbols@.take(i + 1).drop_last() =~= symbols@.take(i as int));
        symbols[i].write_to(&mut text);
        i += 1;
    }
    assert(symbols@.take(symbols.len() as int) =~= symbols@);
    text
}

/// Whether two sequences hold the same symbols.
pub fn same_symbols(a: &Vec<Symbol>, b: &Vec<Symbol>) -> (r: bool)
    ensures
        r == (a@ == b@),
{
    if a.len() != b.len() {
        return false;
    }
    let mut i: usize = 0;
    while i < a.len()
        invariant
            i <= a.len(),
            a.len() == b.len(),
            forall|k: int| 0 <= k < i ==> a@[k] == b@[k],
        decreases a.len() - i,
    {
        if a[i] != b[i] {
            return false;
        }
        i += 1;
    }
    assert(a@ =~= b@);
    true
}

impl PropFormula {
    /// Appends the symbols of the formula in preorder.
    pub fn preorder_traverse(&self, seq: &mut Vec<Symbol>)
        ensures
            final(seq)@ == old(seq)@ + self@.preorder(),
        decreases self@,
    {
        seq.push(self.root());
        if self.has_child(false) {
            self.get_child(false).preorder_traverse(seq);
        }
        if self.has_child(true) {
            self.get_child(true).preorder_traverse(seq);
        }
    }

    /// The symbols of the formula in preorder.
    pub fn to_preorder_sequence(&self) -> (seq: Vec<Symbol>)
        ensures
            seq@ == self@.preorder(),
    {
        let mut seq: Vec<Symbol> = Vec::new();
        self.preorder_traverse(&mut seq);
        seq
    }

    /// The formula as text in preorder.
    pub fn to_preorder_string(&self) -> (text: String)
        ensures
            text@ == render(self@.preorder()),
    {
        render_symbols(&self.to_preorder_sequence())
    }

    /// Appends the symbols of the formula in infix order, between
    /// parentheses where `wrap` is set.
    fn inorder_operand(&self, wrap: bool, seq: &mut Vec<Symbol>)
        ensures
            final(seq)@ == old(seq)@ + (if wrap {
                wrapped(self@.inorder())
            } else {
                self@.inorder()
            }),
        decreases self@, 1int,
    {
        let ghost before = seq@;
        if wrap {
            seq.push(Symbol::Left);
        }
        self.inorder_traverse(seq);
        if wrap {
            seq.push(Symbol::Right);
            assert(seq@ =~= before + wrapped(self@.inorder()));
        }
    }

    /// Appends the symbols of the formula in infix order, with the
    /// parentheses that the structure needs.
    pub fn inorder_traverse(&self, seq: &mut Vec<Symbol>)
        ensures
            final(seq)@ == old(seq)@ + self@.inorder(),
        decreases self@, 0int,
    {
        let ghost before = seq@;
        let ghost t = self@;
        let ghost left_part = match t.left {
            Some(l) => if rank(l.root) <= rank(t.root) {
                wrapped(l.inorder())
            } else {
                l.inorder()
            },
            None => Seq::empty(),
        };
        let ghost right_part = match t.right {
            Some(r) => if rank(r.root) < rank(t.root) {
                wrapped(r.inorder())
            } else {
                r.inorder()
            },
            None => Seq::empty(),
        };
        assert(t.inorder() == left_part + seq![t.root] + right_part);
        let root = self.root();
        if self.has_child(false) {
            let child = self.get_child(false);
            child.inorder_operand(child.root().rank() <= root.rank(), seq);
        }
        assert(seq@ =~= before + left_part);
        seq.push(root);
        assert(seq@ =~= before + left_part + seq![t.root]);
        if self.has_child(true) {
            let child = self.get_child(true);
            child.inorder_operand(child.root().rank() < root.rank(), seq);
        }
        assert(seq@ =~= before + (left_part + seq![t.root] + right_part));
    }

    /// The symbols of the formula in infix order.
    pub fn to_inorder_sequence(&self) -> (seq: Vec<Symbol>)
        ensures
            seq@ == self@.inorder(),
    {
        let mut seq: Vec<Symbol> = Vec::new();
        self.inorder_traverse(&mut seq);
        seq
    }

    /// The formula as text in infix order.
    pub fn to_inorder_string(&self) -> (text: String)
        ensures
            text@ == render(self@.inorder()),
    {
        render_symbols(&self.to_inorder_sequence())
    }

    /// The formula as text: in infix order.
    pub fn to_string(&self) -> (text: String)
        ensures
            text@ == render(self@.inorder()),
    {
        self.to_inorder_string()
    }

    /// The formula as text, in preorder or in infix order.
    pub fn convert_to_string(&self, preorder: bool) -> (text: String)
        ensures
            text@ == (if preorder {
                render(self@.preorder())
            } else {
                render(self@.inorder())
            }),
    {
        if preorder {
            self.to_preorder_string()
        } else {
            self.to_inorder_string()
        }
    }
}

impl PartialEq for PropFormula {
    /// Two formulas are equal when they hold the same symbols in preorder.
    /// This is equality of structure, not of meaning.
    fn eq(&self, other: &Self) -> (r: bool) {
        same_symbols(&self.to_preorder_sequence(), &other.to_preorder_sequence())
    }
}

impl vstd::std_specs::cmp::PartialEqSpecImpl for PropFormula {
    open spec fn obeys_eq_spec() -> bool {
        true
    }

    open spec fn eq_spec(&self, other: &Self) -> bool {
        self@.same(other@)
    }
}

impl Eq for PropFormula {

}

} // verus!
