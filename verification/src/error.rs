//! The errors that parsing and validation report, each with its message.

use vstd::prelude::*;
use crate::symbol::{binary_text, symbol_text, unary_text, BinaryOp, Symbol, UnaryOp};

verus! {

/// Why a text could not be read as a sequence of symbols.
#[derive(Debug, Clone, Copy, PartialEq, Eq, Structural)]
pub enum SymbolParseError {
    /// The character stands for no symbol.
    InvalidChar(char),
    /// A parenthesis has no partner.
    UnbalancedParentheses,
}

/// Why a tree, or a sequence of symbols, is no formula.
#[derive(Debug, Clone, Copy, PartialEq, Eq, Structural)]
pub enum ValidationError {
    /// A binary connective lacks an operand.
    Binary(BinaryOp),
    /// A unary connective has a left operand, lacks its right one, or does
    /// not stand in front of its operand.
    Unary(UnaryOp),
    /// An atom has children.
    Atom(char),
    /// A parenthesis stands in a tree.
    Parentheses,
    /// There is no symbol at all.
    EmptyFormula,
    /// A single symbol that is no atom.
    NoLiteral,
    /// Several symbols and no connective outside parentheses.
    NoConnectives,
    /// The symbol at the given place is not the binary connective expected.
    MismatchedSymbol(Symbol),
    /// The text could not be read as symbols.
    ParseError(SymbolParseError),
}

/// Why no atomic formula could be made from what was given.
#[derive(Debug, Clone, Copy, PartialEq, Eq, Structural)]
pub enum AtomError {
    /// A random atom was asked for from an empty choice.
    EmptyChoice,
    /// A random atom was asked for and no choice was given.
    NoChoice,
    /// No name was given for the atom.
    NoName,
}

/// Why a step of modus ponens cannot be taken.
#[derive(Debug, Clone, Copy, PartialEq, Eq, Structural)]
pub enum MPErr {
    InvalidIndex,
    NotAntecedent,
    NotImplies,
}

impl SymbolParseError {
    /// The message of the error.
    pub open spec fn text(self) -> Seq<char> {
        match self {
            SymbolParseError::InvalidChar(c) => seq![c]
                + " does not correspond to a valid symbol."@,
            SymbolParseError::UnbalancedParentheses => "The given string does not contain valid balanced parentheses."@,
        }
    }

    /// The message of the error, as a string.
    pub fn to_string(&self) -> (s: String)
        ensures
            s@ == self.text(),
    {
        match self {
            SymbolParseError::InvalidChar(c) => {
                let mut s = String::new();
                s.push(*c);
                s.append(" does not correspond to a valid symbol.");
                assert(s@ == seq![*c] + " does not correspond to a valid symbol."@);
                s
            },
            SymbolParseError::UnbalancedParentheses => String::from_str(
                "The given string does not contain valid balanced parentheses.",
            ),
        }
    }
}

/// `middle` between `before` and `after`.
fn framed(before: &str, middle: &String, after: &str) -> (s: String)
    ensures
        s@ == before@ + middle@ + after@,
{
    let mut s = String::from_str(before);
    s.append(middle.as_str());
    s.append(after);
    s
}

impl ValidationError {
    /// The message of the error.
    pub open spec fn text(self) -> Seq<char> {
        match self {
            ValidationError::Binary(b) => "Binary operator "@ + binary_text(b)
                + " doesn't have two children."@,
            ValidationError::Unary(u) => "Unary operator "@ + unary_text(u)
                + " doesn't have right child, has left child, or both."@,
            ValidationError::Atom(a) => "Atom "@ + seq![a] + " has children."@,
            ValidationError::Parentheses => "No parentheses in a tree formula!"@,
            ValidationError::EmptyFormula => "The empty formula is not constructible."@,
            ValidationError::ParseError(e) => e.text(),
            ValidationError::NoLiteral => "All subformulas need to terminate in a literal."@,
            ValidationError::NoConnectives => "This formula doesn't have any connectives, but has more than one literal."@,
            ValidationError::MismatchedSymbol(s) => symbol_text(s)
                + " is not the expected symbol at this point in the formula."@,
        }
    }

    /// The message of the error, as a string.
    pub fn to_string(&self) -> (s: String)
        ensures
            s@ == self.text(),
    {
        match self {
            ValidationError::Binary(b) => framed(
                "Binary operator ",
                &b.to_string(),
                " doesn't have two children.",
            ),
            ValidationError::Unary(u) => framed(
                "Unary operator ",
                &u.to_string(),
                " doesn't have right child, has left child, or both.",
            ),
            ValidationError::Atom(a) => {
                let mut name = String::new();
                name.push(*a);
                assert(name@ == seq![*a]);
                framed("Atom ", &name, " has children.")
            },
            ValidationError::Parentheses => String::from_str("No parentheses in a tree formula!"),
            ValidationError::EmptyFormula => String::from_str(
                "The empty formula is not constructible.",
            ),
            ValidationError::ParseError(e) => e.to_string(),
            ValidationError::NoLiteral => String::from_str(
                "All subformulas need to terminate in a literal.",
            ),
            ValidationError::NoConnectives => String::from_str(
                "This formula doesn't have any connectives, but has more than one literal.",
            ),
            ValidationError::MismatchedSymbol(s) => {
                let mut out = s.to_string();
                out.append(" is not the expected symbol at this point in the formula.");
                out
            },
        }
    }
}

impl AtomError {
    /// The message of the error.
    pub open spec fn text(self) -> Seq<char> {
        match self {
            AtomError::EmptyChoice => "set of atoms must be non-empty!"@,
            AtomError::NoChoice => "if you want a random atom, set of atoms must be provided"@,
            AtomError::NoName => "atom must be provided"@,
        }
    }

    /// The message of the error, as a string.
    pub fn to_string(&self) -> (s: String)
        ensures
            s@ == self.text(),
    {
        match self {
            AtomError::EmptyChoice => String::from_str("set of atoms must be non-empty!"),
            AtomError::NoChoice => String::from_str(
                "if you want a random atom, set of atoms must be provided",
            ),
            AtomError::NoName => String::from_str("atom must be provided"),
        }
    }
}

impl MPErr {
    /// The message of the error.
    pub open spec fn text(self) -> Seq<char> {
        match self {
            MPErr::InvalidIndex => "Not a valid index into the proof."@,
            MPErr::NotAntecedent => "This is not an antecedent of the current formula."@,
            MPErr::NotImplies => "This formula is not an implication."@,
        }
    }

    /// The message of the error, as a string.
    pub fn to_string(&self) -> (s: String)
        ensures
            s@ == self.text(),
    {
        match self {
            MPErr::InvalidIndex => String::from_str("Not a valid index into the proof."),
            MPErr::NotAntecedent => String::from_str(
                "This is not an antecedent of the current formula.",
            ),
            MPErr::NotImplies => String::from_str("This formula is not an implication."),
        }
    }
}

} // verus!
