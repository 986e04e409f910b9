//! The closed set of symbols a formula is written with: atoms, negation, the
//! four binary connectives and the two grouping marks, with their binding
//! strength and their printed form.

use vstd::prelude::*;

verus! {

/// The only unary connective.
#[derive(Debug, Clone, Copy, PartialEq, Eq, PartialOrd, Ord, Hash, Structural)]
pub enum UnaryOp {
    Not,
}

/// The binary connectives, weakest binding first.
#[derive(Debug, Clone, Copy, PartialEq, Eq, PartialOrd, Ord, Hash, Structural)]
pub enum BinaryOp {
    Iff,
    Implies,
    Or,
    And,
}

/// One token of a formula. `Left` and `Right` are the opening and the closing
/// parenthesis; they occur in symbol sequences only, never in a valid tree.
#[derive(Debug, Clone, Copy, PartialEq, Eq, PartialOrd, Ord, Hash, Structural)]
pub enum Symbol {
    Binary(BinaryOp),
    Unary(UnaryOp),
    Atom(char),
    Left,
    Right,
}

/// Binding strength of a binary connective: `Iff` binds weakest, `And` strongest.
pub open spec fn binary_rank(op: BinaryOp) -> int {
    match op {
        BinaryOp::Iff => 0,
        BinaryOp::Implies => 1,
        BinaryOp::Or => 2,
        BinaryOp::And => 3,
    }
}

/// Binding strength of a symbol. Every binary connective binds weaker than
/// negation, negation weaker than an atom; the grouping marks come last.
pub open spec fn rank(s: Symbol) -> int {
    match s {
        Symbol::Binary(op) => binary_rank(op),
        Symbol::Unary(_) => 4,
        Symbol::Atom(_) => 5,
        Symbol::Left => 6,
        Symbol::Right => 7,
    }
}

/// Whether the symbol is a unary or binary connective.
pub open spec fn is_connective(s: Symbol) -> bool {
    s is Binary || s is Unary
}

pub open spec fn not_glyph() -> char {
    '\u{00AC}'
}

pub open spec fn binary_glyph(op: BinaryOp) -> char {
    match op {
        BinaryOp::Iff => '\u{2194}',
        BinaryOp::Implies => '\u{2192}',
        BinaryOp::Or => '\u{2228}',
        BinaryOp::And => '\u{2227}',
    }
}

/// The printed form of a unary connective: its glyph.
pub open spec fn unary_text(op: UnaryOp) -> Seq<char> {
    seq![not_glyph()]
}

/// The printed form of a binary connective: its glyph, with no blank
/// before or after it.
pub open spec fn binary_text(op: BinaryOp) -> Seq<char> {
    seq![binary_glyph(op)]
}

/// The printed form of a symbol.
pub open spec fn symbol_text(s: Symbol) -> Seq<char> {
    match s {
        Symbol::Binary(op) => binary_text(op),
        Symbol::Unary(op) => unary_text(op),
        Symbol::Atom(c) => seq![c],
        Symbol::Left => seq!['('],
        Symbol::Right => seq![')'],
    }
}

/// `String::push` of std appends exactly the given character to the string.
pub assume_specification[ String::push ](s: &mut String, ch: char)
    ensures
        final(s)@ == old(s)@.push(ch),
;

impl UnaryOp {
    /// The glyph of the connective.
    pub fn glyph(&self) -> (c: char)
        ensures
            c == not_glyph(),
    {
        '\u{00AC}'
    }

    /// The printed form, as a string.
    pub fn to_string(&self) -> (s: String)
        ensures
            s@ == unary_text(*self),
    {
        let mut s = String::new();
        s.push(self.glyph());
        s
    }
}

impl BinaryOp {
    /// Binding strength, as a number that can be compared.
    pub fn rank(&self) -> (r: u8)
        ensures
            r == binary_rank(*self),
    {
        match self {
            BinaryOp::Iff => 0,
            BinaryOp::Implies => 1,
            BinaryOp::Or => 2,
            BinaryOp::And => 3,
        }
    }

    /// The glyph of the connective.
    pub fn glyph(&self) -> (c: char)
        ensures
            c == binary_glyph(*self),
    {
        match self {
            BinaryOp::Iff => '\u{2194}',
            BinaryOp::Implies => '\u{2192}',
            BinaryOp::Or => '\u{2228}',
            BinaryOp::And => '\u{2227}',
        }
    }

    /// The printed form, as a string.
    pub fn to_string(&self) -> (s: String)
        ensures
            s@ == binary_text(*self),
    {
        let mut s = String::new();
        s.push(self.glyph());
        s
    }
}

impl Symbol {
    /// Binding strength, as a number that can be compared.
    pub fn rank(&self) -> (r: u8)
        ensures
            r == rank(*self),
    {
        match self {
            Symbol::Binary(op) => op.rank(),
            Symbol::Unary(_) => 4,
            Symbol::Atom(_) => 5,
            Symbol::Left => 6,
            Symbol::Right => 7,
        }
    }

    /// Appends the printed form of the symbol to `out`.
    pub fn write_to(&self, out: &mut String)
        ensures
            final(out)@ == old(out)@ + symbol_text(*self),
    {
        match self {
            Symbol::Binary(op) => {
                out.push(op.glyph());
            },
            Symbol::Unary(op) => {
                out.push(op.glyph());
            },
            Symbol::Atom(c) => {
                out.push(*c);
            },
            Symbol::Left => {
                out.push('(');
            },
            Symbol::Right => {
                out.push(')');
            },
        }
    }

    /// The printed form, as a string.
    pub fn to_string(&self) -> (s: String)
        ensures
            s@ == symbol_text(*self),
    {
        let mut s = String::new();
        self.write_to(&mut s);
        s
    }
}

} // verus!
