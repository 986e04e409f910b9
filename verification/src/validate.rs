//! Checking the shape rules of a formula, node by node.

use vstd::prelude::*;
use crate::error::ValidationError;
use crate::formula::PropFormula;
use crate::symbol::Symbol;
use crate::tree::Tree;

verus! {

/// The first breach of the shape rules in `t`, looking at a node before its
/// children and at the left child before the right one; `None` where there
/// is no breach.
pub open spec fn first_defect(t: Tree) -> Option<ValidationError>
    decreases t,
{
    match t.root {
        Symbol::Binary(b) => if t.left is Some && t.right is Some {
            match first_defect(t.l()) {
                Some(e) => Some(e),
                None => first_defect(t.r()),
            }
        } else {
            Some(ValidationError::Binary(b))
        },
        Symbol::Unary(u) => if t.left is None && t.right is Some {
            first_defect(t.r())
        } else {
            Some(ValidationError::Unary(u))
        },
        Symbol::Atom(a) => if t.left is None && t.right is None {
            None
        } else {
            Some(ValidationError::Atom(a))
        },
        Symbol::Left | Symbol::Right => Some(ValidationError::Parentheses),
    }
}

/// A tree has no defect exactly when it obeys the shape rules.
pub proof fn lemma_defect_free(t: Tree)
    ensures
        first_defect(t) is None <==> t.valid(),
    decreases t,
{
    if t.left is Some {
        lemma_defect_free(t.l());
    }
    if t.right is Some {
        lemma_defect_free(t.r());
    }
}

impl PropFormula {
    /// Checks the shape rules. A formula that obeys them is handed back; of
    /// one that does not, the first defect is reported.
    pub fn validate(&self) -> (r: Result<&Self, ValidationError>)
        ensures
            match first_defect(self@) {
                None => r == Ok::<&Self, ValidationError>(self),
                Some(e) => r == Err::<&Self, ValidationError>(e),
            },
            r is Ok <==> self@.valid(),
        decreases self@,
    {
        proof {
            lemma_defect_free(self@);
        }
        match self.root() {
            Symbol::Binary(b) => {
                if self.has_child(false) && self.has_child(true) {
                    match self.get_child(false).validate() {
                        Err(e) => {
                            return Err(e);
                        },
                        Ok(_) => {},
                    }
                    match self.get_child(true).validate() {
                        Err(e) => {
                            return Err(e);
                        },
                        Ok(_) => {},
                    }
                    Ok(self)
                } else {
                    Err(ValidationError::Binary(b))
                }
            },
            Symbol::Unary(u) => {
                if !self.has_child(false) && self.has_child(true) {
                    match self.get_child(true).validate() {
                        Err(e) => {
                            return Err(e);
                        },
                        Ok(_) => {},
                    }
                    Ok(self)
                } else {
                    Err(ValidationError::Unary(u))
                }
            },
            Symbol::Atom(a) => {
                if !self.has_child(false) && !self.has_child(true) {
                    Ok(self)
                } else {
                    Err(ValidationError::Atom(a))
                }
            },
            Symbol::Left | Symbol::Right => Err(ValidationError::Parentheses),
        }
    }
}

} // verus!
