//! Reading a formula from text: characters to symbols, symbols to a tree.
//!
//! A sequence of symbols is split at the connective that binds weakest among
//! those outside every parenthesis; of several such connectives of one
//! strength the leftmost is taken, which makes the binary connectives
//! associate to the right.

use vstd::prelude::*;
use vstd::std_specs::iter::IteratorSpec;
use crate::error::{SymbolParseError, ValidationError};
use crate::formula::PropFormula;
use crate::symbol::{is_connective, rank, BinaryOp, Symbol, UnaryOp};
use crate::tree::{group_tree, Tree};

verus! {

/// What a symbol adds to the number of open parentheses.
pub open spec fn weight(s: Symbol) -> int {
    match s {
        Symbol::Left => 1,
        Symbol::Right => -1,
        _ => 0,
    }
}

/// Opening parentheses minus closing parentheses in `s`.
pub open spec fn net(s: Seq<Symbol>) -> int
    decreases s.len(),
{
    if s.len() == 0 {
        0
    } else {
        net(s.drop_last()) + weight(s.last())
    }
}

/// Whether the character is an ASCII letter.
pub open spec fn is_letter(c: char) -> bool {
    ('a' <= c && c <= 'z') || ('A' <= c && c <= 'Z')
}

/// The symbol a character stands for; `None` for a blank and for every
/// character that stands for nothing.
pub open spec fn symbol_of(c: char) -> Option<Symbol> {
    if c == '\u{2194}' {
        Some(Symbol::Binary(BinaryOp::Iff))
    } else if c == '\u{2192}' {
        Some(Symbol::Binary(BinaryOp::Implies))
    } else if c == '\u{2227}' {
        Some(Symbol::Binary(BinaryOp::And))
    } else if c == '\u{2228}' {
        Some(Symbol::Binary(BinaryOp::Or))
    } else if c == '\u{00AC}' {
        Some(Symbol::Unary(UnaryOp::Not))
    } else if c == '(' {
        Some(Symbol::Left)
    } else if c == ')' {
        Some(Symbol::Right)
    } else if is_letter(c) {
        Some(Symbol::Atom(c))
    } else {
        None
    }
}

/// The symbols of a text as far as reading from left to right goes. Blanks
/// are skipped. The first character that stands for no symbol, or the first
/// closing parenthesis with no open one before it, ends the reading with
/// its error.
pub open spec fn scanned(text: Seq<char>) -> Result<Seq<Symbol>, SymbolParseError>
    decreases text.len(),
{
    if text.len() == 0 {
        Ok(Seq::empty())
    } else {
        match scanned(text.drop_last()) {
            Err(e) => Err(e),
            Ok(read) => {
                let c = text.last();
                if c == ' ' {
                    Ok(read)
                } else {
                    match symbol_of(c) {
                        None => Err(SymbolParseError::InvalidChar(c)),
                        Some(Symbol::Right) => if net(read) <= 0 {
                            Err(SymbolParseError::UnbalancedParentheses)
                        } else {
                            Ok(read.push(Symbol::Right))
                        },
                        Some(s) => Ok(read.push(s)),
                    }
                }
            },
        }
    }
}

/// The symbols of a text: what reading from left to right gives, provided
/// every parenthesis that was opened has been closed at the end. A text
/// with one left open is refused as unbalanced.
pub open spec fn tokens(text: Seq<char>) -> Result<Seq<Symbol>, SymbolParseError> {
    match scanned(text) {
        Err(e) => Err(e),
        Ok(read) => if net(read) == 0 {
            Ok(read)
        } else {
            Err(SymbolParseError::UnbalancedParentheses)
        },
    }
}

/// `i` is the first place after `idx` where the parentheses opened after
/// `idx` are all closed and one more: the partner of an opening parenthesis
/// at `idx`.
pub open spec fn closes_at(s: Seq<Symbol>, idx: int, i: int) -> bool {
    &&& idx < i < s.len()
    &&& net(s.subrange(idx + 1, i + 1)) == -1
    &&& forall|k: int| idx < k < i ==> net(#[trigger] s.subrange(idx + 1, k + 1)) >= 0
}

/// The place of the partner of the parenthesis at `idx`, if it has one.
pub open spec fn closing(s: Seq<Symbol>, idx: int) -> Option<int> {
    if exists|i: int| closes_at(s, idx, i) {
        Some(choose|i: int| closes_at(s, idx, i))
    } else {
        None
    }
}

/// Some opening parenthesis of `s` is never closed.
pub open spec fn unopened(s: Seq<Symbol>) -> bool {
    exists|i: int| 0 <= i < s.len() && net(#[trigger] s.skip(i)) > 0
}

/// A connective at `j` outside every parenthesis, going by what follows it.
pub open spec fn top(s: Seq<Symbol>, j: int) -> bool {
    0 <= j < s.len() && is_connective(s[j]) && net(s.skip(j + 1)) == 0
}

/// Among the connectives outside parentheses from `lo` on, the one at `i`
/// binds weakest, and it is the leftmost of that strength.
pub open spec fn is_pivot_from(s: Seq<Symbol>, lo: int, i: int) -> bool {
    &&& lo <= i
    &&& top(s, i)
    &&& forall|j: int|
        lo <= j && #[trigger] top(s, j) ==> (j < i ==> rank(s[j]) > rank(s[i])) && (j > i ==> rank(
            s[j],
        ) >= rank(s[i]))
}

/// The connective at `i` is where `s` is split.
pub open spec fn is_pivot(s: Seq<Symbol>, i: int) -> bool {
    is_pivot_from(s, 0, i)
}

/// Where `s` is split, if it has a connective outside parentheses.
pub open spec fn pivot(s: Seq<Symbol>) -> Option<int> {
    if exists|i: int| is_pivot(s, i) {
        Some(choose|i: int| is_pivot(s, i))
    } else {
        None
    }
}

/// Two operands joined, or the error of the first that has one.
pub open spec fn join(
    op: BinaryOp,
    l: Result<Tree, ValidationError>,
    r: Result<Tree, ValidationError>,
) -> Result<Tree, ValidationError> {
    match l {
        Err(e) => Err(e),
        Ok(a) => match r {
            Err(e) => Err(e),
            Ok(b) => Ok(Tree::bin(op, a, b)),
        },
    }
}

/// An operand negated, or its error.
pub open spec fn negated(x: Result<Tree, ValidationError>) -> Result<Tree, ValidationError> {
    match x {
        Err(e) => Err(e),
        Ok(a) => Ok(Tree::not(a)),
    }
}

/// The tree that a sequence of symbols denotes, or why it denotes none.
pub open spec fn parse(s: Seq<Symbol>) -> Result<Tree, ValidationError>
    decreases s.len(),
{
    if s.len() == 0 {
        Err(ValidationError::EmptyFormula)
    } else if s.len() == 1 {
        match s[0] {
            Symbol::Atom(a) => Ok(Tree::leaf(a)),
            _ => Err(ValidationError::NoLiteral),
        }
    } else if s[0] == Symbol::Left && closing(s, 0) is None {
        Err(ValidationError::ParseError(SymbolParseError::UnbalancedParentheses))
    } else if s[0] == Symbol::Left && closing(s, 0) == Some(s.len() - 1) {
        parse(s.subrange(1, s.len() - 1))
    } else if unopened(s) {
        Err(ValidationError::ParseError(SymbolParseError::UnbalancedParentheses))
    } else {
        match pivot(s) {
            None => Err(ValidationError::NoConnectives),
            Some(i) => if 0 <= i < s.len() {
                match s[i] {
                    Symbol::Binary(b) => if 0 < i < s.len() - 1 {
                        join(b, parse(s.take(i)), parse(s.skip(i + 1)))
                    } else {
                        Err(ValidationError::Binary(b))
                    },
                    Symbol::Unary(u) => if i == 0 {
                        negated(parse(s.skip(1)))
                    } else {
                        Err(ValidationError::Unary(u))
                    },
                    _ => Err(ValidationError::NoConnectives),
                }
            } else {
                Err(ValidationError::NoConnectives)
            },
        }
    }
}

/// The tree that `s` denotes when split at the binary connective at `i`.
pub open spec fn parse_binary(s: Seq<Symbol>, i: int) -> Result<Tree, ValidationError> {
    match s[i] {
        Symbol::Binary(b) => if 0 < i < s.len() - 1 {
            join(b, parse(s.take(i)), parse(s.skip(i + 1)))
        } else {
            Err(ValidationError::Binary(b))
        },
        other => Err(ValidationError::MismatchedSymbol(other)),
    }
}

/// The tree that a text denotes, or why it denotes none.
pub open spec fn parse_text(text: Seq<char>) -> Result<Tree, ValidationError> {
    match tokens(text) {
        Err(e) => Err(ValidationError::ParseError(e)),
        Ok(s) => parse(s),
    }
}

/// A computed result is the one specified: the same error, or a
/// well-formed formula with the specified tree.
pub open spec fn agrees(
    r: Result<PropFormula, ValidationError>,
    expected: Result<Tree, ValidationError>,
) -> bool {
    match (r, expected) {
        (Ok(f), Ok(t)) => f.wf() && f@ == t,
        (Err(a), Err(b)) => a == b,
        _ => false,
    }
}

pub proof fn lemma_net_concat(a: Seq<Symbol>, b: Seq<Symbol>)
    ensures
        net(a + b) == net(a) + net(b),
    decreases b.len(),
{
    if b.len() == 0 {
        assert(a + b =~= a);
    } else {
        assert((a + b).drop_last() =~= a + b.drop_last());
        lemma_net_concat(a, b.drop_last());
    }
}

pub proof fn lemma_net_one(x: Symbol)
    ensures
        net(seq![x]) == weight(x),
{
    reveal_with_fuel(net, 2);
    assert(seq![x].drop_last() =~= Seq::<Symbol>::empty());
}

pub proof fn lemma_net_skip(s: Seq<Symbol>, i: int)
    requires
        0 <= i < s.len(),
    ensures
        net(s.skip(i)) == weight(s[i]) + net(s.skip(i + 1)),
{
    assert(s.skip(i) =~= seq![s[i]] + s.skip(i + 1));
    lemma_net_concat(seq![s[i]], s.skip(i + 1));
    lemma_net_one(s[i]);
}

pub proof fn lemma_net_range(s: Seq<Symbol>, a: int, b: int)
    requires
        0 <= a <= b < s.len(),
    ensures
        net(s.subrange(a, b + 1)) == net(s.subrange(a, b)) + weight(s[b]),
{
    assert(s.subrange(a, b + 1).drop_last() =~= s.subrange(a, b));
}

/// A parenthesis has at most one partner.
pub proof fn lemma_closing_unique(s: Seq<Symbol>, idx: int, i: int)
    requires
        closes_at(s, idx, i),
    ensures
        closing(s, idx) == Some(i),
{
    let j = choose|j: int| closes_at(s, idx, j);
    if j < i {
        assert(net(s.subrange(idx + 1, j + 1)) >= 0);
    } else if i < j {
        assert(net(s.subrange(idx + 1, i + 1)) >= 0);
    }
}

/// A sequence is split at one place at most.
pub proof fn lemma_pivot_unique(s: Seq<Symbol>, i: int)
    requires
        is_pivot(s, i),
    ensures
        pivot(s) == Some(i),
{
    let j = choose|j: int| is_pivot(s, j);
    assert(top(s, i) && top(s, j));
}

/// What is read from a sequence of symbols is a valid tree with at most one
/// node for each symbol.
pub proof fn lemma_parse_valid(s: Seq<Symbol>)
    ensures
        parse(s) matches Ok(t) ==> t.valid() && t.count() <= s.len(),
    decreases s.len(),
{
    broadcast use group_tree;

    if s.len() <= 1 {
    } else if s[0] == Symbol::Left && closing(s, 0) is None {
    } else if s[0] == Symbol::Left && closing(s, 0) == Some(s.len() - 1) {
        lemma_parse_valid(s.subrange(1, s.len() - 1));
    } else if unopened(s) {
    } else {
        match pivot(s) {
            Some(i) => {
                if 0 <= i < s.len() {
                    match s[i] {
                        Symbol::Binary(_) => {
                            if 0 < i < s.len() - 1 {
                                lemma_parse_valid(s.take(i));
                                lemma_parse_valid(s.skip(i + 1));
                            }
                        },
                        Symbol::Unary(_) => {
                            if i == 0 {
                                lemma_parse_valid(s.skip(1));
                            }
                        },
                        _ => {},
                    }
                }
            },
            None => {},
        }
    }
}

/// Reads the symbols of a text. A text with a character that stands for
/// nothing, with a parenthesis closed before it is opened, or with one left
/// open at the end is refused.
pub fn tokenize(text: &str) -> (r: Result<Vec<Symbol>, SymbolParseError>)
    ensures
        match tokens(text@) {
            Ok(s) => r is Ok && r->Ok_0@ == s,
            Err(e) => r == Err::<Vec<Symbol>, SymbolParseError>(e),
        },
{
    broadcast use vstd::string::group_string_axioms;

    let mut symbols: Vec<Symbol> = Vec::new();
    let mut left: usize = 0;
    let mut right: usize = 0;
    let mut rest = text.chars();
    let ghost mut i: int = 0;
    assert(text@.take(0) =~= Seq::<char>::empty());
    assert(text@.skip(0) =~= text@);
    loop
        invariant
            0 <= i <= text@.len(),
            rest.remaining() == text@.skip(i),
            scanned(text@.take(i)) == Ok::<Seq<Symbol>, SymbolParseError>(symbols@),
            left - right == net(symbols@),
            right <= left <= symbols@.len() <= i,
        ensures
            scanned(text@) == Ok::<Seq<Symbol>, SymbolParseError>(symbols@),
            left - right == net(symbols@),
        decreases text@.len() - i,
    {
        let ghost before = rest;
        let ch: char = match rest.next() {
            Some(ch) => ch,
            None => {
                assert(text@.take(i) =~= text@);
                break ;
            },
        };
        proof {
            assert(i < text@.len());
            assert(ch == text@[i]);
            assert(text@.skip(i).drop_first() =~= text@.skip(i + 1));
            assert(text@.take(i + 1).drop_last() =~= text@.take(i));
            assert(text@.take(i + 1).last() == ch);
            assert(forall|x: Symbol| #[trigger] symbols@.push(x).drop_last() =~= symbols@);
        }
        if ch == ' ' {
        } else if ch == '\u{2194}' {
            symbols.push(Symbol::Binary(BinaryOp::Iff));
        } else if ch == '\u{2192}' {
            symbols.push(Symbol::Binary(BinaryOp::Implies));
        } else if ch == '\u{2227}' {
            symbols.push(Symbol::Binary(BinaryOp::And));
        } else if ch == '\u{2228}' {
            symbols.push(Symbol::Binary(BinaryOp::Or));
        } else if ch == '\u{00AC}' {
            symbols.push(Symbol::Unary(UnaryOp::Not));
        } else if ch == '(' {
            symbols.push(Symbol::Left);
            assert(left < symbols.len());
            left += 1;
        } else if ch == ')' {
            if right >= left {
                proof {
                    lemma_scanned_error(text@, i + 1);
                }
                return Err(SymbolParseError::UnbalancedParentheses);
            }
            symbols.push(Symbol::Right);
            right += 1;
        } else if ('a' <= ch && ch <= 'z') || ('A' <= ch && ch <= 'Z') {
            symbols.push(Symbol::Atom(ch));
        } else {
            proof {
                lemma_scanned_error(text@, i + 1);
            }
            return Err(SymbolParseError::InvalidChar(ch));
        }
        proof {
            i = i + 1;
        }
    }
    if left != right {
        return Err(SymbolParseError::UnbalancedParentheses);
    }
    Ok(symbols)
}

/// An error met while reading a prefix is the error of the whole text.
pub proof fn lemma_scanned_error(text: Seq<char>, k: int)
    requires
        0 <= k <= text.len(),
        scanned(text.take(k)) is Err,
    ensures
        scanned(text) == scanned(text.take(k)),
    decreases text.len() - k,
{
    if k < text.len() {
        assert(text.take(k + 1).drop_last() =~= text.take(k));
        lemma_scanned_error(text, k + 1);
    } else {
        assert(text.take(k) =~= text);
    }
}

/// Finds the closing parenthesis that is the partner of the opening one at
/// `idx`.
pub fn matching_parentheses(symbols: &[Symbol], idx: usize) -> (r: Result<usize, ValidationError>)
    ensures
        match r {
            Ok(m) => closing(symbols@, idx as int) == Some(m as int),
            Err(e) => e == ValidationError::ParseError(SymbolParseError::UnbalancedParentheses)
                && closing(symbols@, idx as int) is None,
        },
{
    let len: usize = symbols.len();
    if idx >= len {
        return Err(ValidationError::ParseError(SymbolParseError::UnbalancedParentheses));
    }
    let mut depth: usize = 1;
    let mut i: usize = idx + 1;
    let ghost s = symbols@;
    assert(s.subrange(idx + 1, idx + 1) =~= Seq::<Symbol>::empty());
    while i < len
        invariant
            idx < i <= len,
            len == s.len(),
            s == symbols@,
            depth == 1 + net(s.subrange(idx + 1, i as int)),
            1 <= depth <= 1 + (i - idx - 1),
            forall|k: int| idx < k < i ==> net(#[trigger] s.subrange(idx + 1, k + 1)) >= 0,
        decreases len - i,
    {
        proof {
            lemma_net_range(s, idx + 1, i as int);
        }
        match symbols[i] {
            Symbol::Right => {
                depth -= 1;
                if depth == 0 {
                    proof {
                        lemma_closing_unique(s, idx as int, i as int);
                    }
                    return Ok(i);
                }
            },
            Symbol::Left => {
                depth += 1;
            },
            _ => {},
        }
        i += 1;
    }
    Err(ValidationError::ParseError(SymbolParseError::UnbalancedParentheses))
}

/// Builds the formula that a sequence of symbols denotes.
pub fn construct_from_symbols(symbols: &[Symbol]) -> (r: Result<PropFormula, ValidationError>)
    ensures
        agrees(r, parse(symbols@)),
        r matches Ok(f) ==> f@.valid() && f@.count() <= symbols@.len(),
    decreases symbols@.len(), 1int,
{
    let len: usize = symbols.len();
    let ghost s = symbols@;
    proof {
        lemma_parse_valid(s);
    }
    if len == 0 {
        return Err(ValidationError::EmptyFormula);
    }
    if len == 1 {
        if let Symbol::Atom(a) = symbols[0] {
            return Ok(PropFormula::new(a));
        } else {
            return Err(ValidationError::NoLiteral);
        }
    }
    if let Symbol::Left = symbols[0] {
        match matching_parentheses(symbols, 0) {
            Err(e) => {
                return Err(e);
            },
            Ok(m) => {
                if m == len - 1 {
                    return construct_from_symbols(&symbols[1..len - 1]);
                }
            },
        }
    }
    let mut depth: usize = 0;
    let mut idx: Option<usize> = None;
    let mut symbol: Option<Symbol> = None;
    let mut i: usize = len;
    assert(s.skip(len as int) =~= Seq::<Symbol>::empty());
    while i > 0
        invariant
            i <= len,
            2 <= len == s.len(),
            s == symbols@,
            s[0] == Symbol::Left ==> closing(s, 0) is Some && closing(s, 0) != Some(len - 1),
            depth == -net(s.skip(i as int)),
            depth <= len - i,
            forall|k: int| i <= k < len ==> net(#[trigger] s.skip(k)) <= 0,
            match idx {
                None => symbol is None && forall|j: int| i <= j ==> !#[trigger] top(s, j),
                Some(b) => symbol == Some(s[b as int]) && is_pivot_from(s, i as int, b as int),
            },
        decreases i,
    {
        i -= 1;
        let sym: Symbol = symbols[i];
        proof {
            lemma_net_skip(s, i as int);
        }
        match sym {
            Symbol::Binary(_) | Symbol::Unary(_) => {
                if depth == 0 {
                    let better: bool = match symbol {
                        Some(best) => sym.rank() <= best.rank(),
                        None => true,
                    };
                    if better {
                        idx = Some(i);
                        symbol = Some(sym);
                    }
                }
            },
            Symbol::Atom(_) => {},
            Symbol::Left => {
                if depth == 0 {
                    assert(unopened(s));
                    return Err(
                        ValidationError::ParseError(SymbolParseError::UnbalancedParentheses),
                    );
                }
                depth -= 1;
            },
            Symbol::Right => {
                depth += 1;
            },
        }
    }
    proof {
        assert(s.skip(0) =~= s);
        assert(!unopened(s));
        match idx {
            None => {
                assert(forall|j: int| is_pivot(s, j) ==> top(s, j));
            },
            Some(b) => {
                lemma_pivot_unique(s, b as int);
            },
        }
    }
    match symbol {
        Some(Symbol::Binary(_)) => construct_from_binary(symbols, idx.unwrap()),
        Some(Symbol::Unary(u)) => {
            if idx.unwrap() != 0 {
                Err(ValidationError::Unary(u))
            } else {
                match construct_from_symbols(&symbols[1..len]) {
                    Ok(f) => Ok(f.negate()),
                    Err(e) => Err(e),
                }
            }
        },
        _ => Err(ValidationError::NoConnectives),
    }
}

/// Builds the formula that `symbols` denotes when split at the binary
/// connective at `idx`: what stands before it and what stands after it,
/// joined by it.
pub fn construct_from_binary(symbols: &[Symbol], idx: usize) -> (r: Result<
    PropFormula,
    ValidationError,
>)
    requires
        idx < symbols@.len(),
    ensures
        agrees(r, parse_binary(symbols@, idx as int)),
        r matches Ok(f) ==> f@.count() <= symbols@.len(),
    decreases symbols@.len(), 0int,
{
    let len: usize = symbols.len();
    if let Symbol::Binary(b) = symbols[idx] {
        if idx == 0 || idx == len - 1 {
            Err(ValidationError::Binary(b))
        } else {
            let left = match construct_from_symbols(&symbols[0..idx]) {
                Ok(f) => f,
                Err(e) => {
                    return Err(e);
                },
            };
            let right = match construct_from_symbols(&symbols[idx + 1..len]) {
                Ok(f) => f,
                Err(e) => {
                    return Err(e);
                },
            };
            Ok(left.combine(b, right))
        }
    } else {
        Err(ValidationError::MismatchedSymbol(symbols[idx]))
    }
}

impl PropFormula {
    /// Reads a formula from its text.
    pub fn string_to_formula(string: &str) -> (r: Result<PropFormula, ValidationError>)
        ensures
            agrees(r, parse_text(string@)),
            r matches Ok(f) ==> f@.valid(),
    {
        PropFormula::from_string(string)
    }

    /// Reads a formula from its text.
    pub fn from_string(string: &str) -> (r: Result<PropFormula, ValidationError>)
        ensures
            agrees(r, parse_text(string@)),
            r matches Ok(f) ==> f@.valid(),
    {
        match tokenize(string) {
            Err(e) => Err(ValidationError::ParseError(e)),
            Ok(symbols) => construct_from_symbols(symbols.as_slice()),
        }
    }
}

} // verus!
