use hilbert_prop_logic::parse::{
    construct_from_binary, construct_from_symbols, matching_parentheses, tokenize,
};
use hilbert_prop_logic::{
    BinaryOp, PropFormula, Symbol, SymbolParseError, UnaryOp, ValidationError,
};

fn atom(c: char) -> PropFormula {
    PropFormula::new(c)
}

#[test]
fn tokenize_reads_every_symbol_and_skips_blanks() {
    let symbols = tokenize(" ( p ∧ q ) ∨ ¬ r → s ↔ T").unwrap();
    assert_eq!(
        symbols,
        vec![
            Symbol::Left,
            Symbol::Atom('p'),
            Symbol::Binary(BinaryOp::And),
            Symbol::Atom('q'),
            Symbol::Right,
            Symbol::Binary(BinaryOp::Or),
            Symbol::Unary(UnaryOp::Not),
            Symbol::Atom('r'),
            Symbol::Binary(BinaryOp::Implies),
            Symbol::Atom('s'),
            Symbol::Binary(BinaryOp::Iff),
            Symbol::Atom('T'),
        ]
    );
    assert_eq!(tokenize("").unwrap(), vec![]);
    assert_eq!(tokenize("   ").unwrap(), vec![]);
}

#[test]
fn tokenize_refuses_what_is_no_symbol() {
    assert_eq!(tokenize("p & q"), Err(SymbolParseError::InvalidChar('&')));
    assert_eq!(tokenize("p1"), Err(SymbolParseError::InvalidChar('1')));
    assert_eq!(tokenize("é"), Err(SymbolParseError::InvalidChar('é')));
    assert_eq!(tokenize("p\tq"), Err(SymbolParseError::InvalidChar('\t')));
    // the first offence is the one reported
    assert_eq!(tokenize("p ) 1"), Err(SymbolParseError::UnbalancedParentheses));
    assert_eq!(tokenize("p 1 )"), Err(SymbolParseError::InvalidChar('1')));
}

#[test]
fn tokenize_refuses_a_closing_parenthesis_without_an_open_one() {
    assert_eq!(tokenize(")"), Err(SymbolParseError::UnbalancedParentheses));
    assert_eq!(tokenize("(p))"), Err(SymbolParseError::UnbalancedParentheses));
    assert_eq!(tokenize(")("), Err(SymbolParseError::UnbalancedParentheses));
    // an opening parenthesis that is never closed is refused at the end
    assert_eq!(tokenize("(p"), Err(SymbolParseError::UnbalancedParentheses));
    assert_eq!(tokenize("("), Err(SymbolParseError::UnbalancedParentheses));
    assert_eq!(tokenize("(()"), Err(SymbolParseError::UnbalancedParentheses));
    // a character that stands for nothing comes first where it stands first
    assert_eq!(tokenize("(p 1"), Err(SymbolParseError::InvalidChar('1')));
    assert_eq!(tokenize("(p)").unwrap(), vec![Symbol::Left, Symbol::Atom('p'), Symbol::Right]);
}

#[test]
fn matching_parentheses_finds_the_partner() {
    let symbols = tokenize("((p) ∧ (q)) → r").unwrap();
    assert_eq!(matching_parentheses(&symbols, 0), Ok(8));
    assert_eq!(matching_parentheses(&symbols, 1), Ok(3));
    assert_eq!(matching_parentheses(&symbols, 5), Ok(7));
    let open = vec![Symbol::Left, Symbol::Left, Symbol::Atom('p'), Symbol::Right];
    assert_eq!(
        matching_parentheses(&open, 0),
        Err(ValidationError::ParseError(SymbolParseError::UnbalancedParentheses))
    );
    assert_eq!(matching_parentheses(&open, 1), Ok(3));
    assert_eq!(
        matching_parentheses(&open, 9),
        Err(ValidationError::ParseError(SymbolParseError::UnbalancedParentheses))
    );
}

#[test]
fn right_associativity() {
    let parsed = PropFormula::from_string("p→q→r").unwrap();
    let right = atom('p').combine(
        BinaryOp::Implies,
        atom('q').combine(BinaryOp::Implies, atom('r')),
    );
    let left = atom('p')
        .combine(BinaryOp::Implies, atom('q'))
        .combine(BinaryOp::Implies, atom('r'));
    assert_eq!(parsed, right);
    assert_ne!(parsed, left);
    assert_eq!(PropFormula::from_string("(p→q)→r").unwrap(), left);
}

#[test]
fn precedence_of_the_connectives() {
    // ∧ binds stronger than ∨, ∨ than →, → than ↔, and ¬ strongest
    let parsed = PropFormula::from_string("a ↔ b → c ∨ d ∧ ¬e").unwrap();
    let expected = atom('a').combine(
        BinaryOp::Iff,
        atom('b').combine(
            BinaryOp::Implies,
            atom('c').combine(
                BinaryOp::Or,
                atom('d').combine(BinaryOp::And, atom('e').negate()),
            ),
        ),
    );
    assert_eq!(parsed, expected);
    let other = PropFormula::from_string("¬a ∧ b ∨ c → d ↔ e").unwrap();
    let expected = atom('a')
        .negate()
        .combine(BinaryOp::And, atom('b'))
        .combine(BinaryOp::Or, atom('c'))
        .combine(BinaryOp::Implies, atom('d'))
        .combine(BinaryOp::Iff, atom('e'));
    assert_eq!(other, expected);
}

#[test]
fn minimal_parenthesization() {
    let parsed = PropFormula::from_string("(p→q)→(r∧s)").unwrap();
    assert_eq!(parsed.to_string(), "(p→q)→r∧s");
    let nested = PropFormula::from_string("((p))").unwrap();
    assert_eq!(nested.to_string(), "p");
    let negated = PropFormula::from_string("¬(p ∧ q)").unwrap();
    assert_eq!(negated.to_string(), "¬(p∧q)");
    let chain = PropFormula::from_string("(p ∧ q) ∧ r").unwrap();
    assert_eq!(chain.to_string(), "(p∧q)∧r");
    let chain = PropFormula::from_string("p ∧ (q ∧ r)").unwrap();
    assert_eq!(chain.to_string(), "p∧q∧r");
}

#[test]
fn triple_negation() {
    assert_eq!(
        PropFormula::from_string("¬¬¬d").unwrap(),
        atom('d').negate().negate().negate()
    );
}

#[test]
fn parse_errors() {
    assert_eq!(PropFormula::from_string(""), Err(ValidationError::EmptyFormula));
    assert_eq!(PropFormula::from_string("  "), Err(ValidationError::EmptyFormula));
    assert_eq!(PropFormula::from_string("()"), Err(ValidationError::EmptyFormula));
    assert_eq!(PropFormula::from_string("∧"), Err(ValidationError::NoLiteral));
    assert_eq!(PropFormula::from_string("¬"), Err(ValidationError::NoLiteral));
    assert_eq!(PropFormula::from_string("p q"), Err(ValidationError::NoConnectives));
    assert_eq!(PropFormula::from_string("(p)(q)"), Err(ValidationError::NoConnectives));
    assert_eq!(
        PropFormula::from_string("p ∧"),
        Err(ValidationError::Binary(BinaryOp::And))
    );
    assert_eq!(
        PropFormula::from_string("→ p"),
        Err(ValidationError::Binary(BinaryOp::Implies))
    );
    assert_eq!(
        PropFormula::from_string("p ¬ q"),
        Err(ValidationError::Unary(UnaryOp::Not))
    );
    assert_eq!(
        PropFormula::from_string("(p"),
        Err(ValidationError::ParseError(SymbolParseError::UnbalancedParentheses))
    );
    assert_eq!(
        PropFormula::from_string("("),
        Err(ValidationError::ParseError(SymbolParseError::UnbalancedParentheses))
    );
    assert_eq!(
        PropFormula::from_string(")"),
        Err(ValidationError::ParseError(SymbolParseError::UnbalancedParentheses))
    );
    assert_eq!(
        PropFormula::from_string("(("),
        Err(ValidationError::ParseError(SymbolParseError::UnbalancedParentheses))
    );
    assert_eq!(
        PropFormula::from_string("p ∧ (q"),
        Err(ValidationError::ParseError(SymbolParseError::UnbalancedParentheses))
    );
    assert_eq!(
        PropFormula::from_string("p)"),
        Err(ValidationError::ParseError(SymbolParseError::UnbalancedParentheses))
    );
    assert_eq!(
        PropFormula::from_string("p ∧ 7"),
        Err(ValidationError::ParseError(SymbolParseError::InvalidChar('7')))
    );
    // the error of the left operand comes before that of the right one
    assert_eq!(
        PropFormula::from_string("(p q) ∧ (∨)"),
        Err(ValidationError::NoConnectives)
    );
}

#[test]
fn construct_from_binary_splits_at_the_given_place() {
    let symbols = tokenize("p ∧ q ∨ r").unwrap();
    let at_and = construct_from_binary(&symbols, 1).unwrap();
    assert_eq!(
        at_and,
        atom('p').combine(BinaryOp::And, atom('q').combine(BinaryOp::Or, atom('r')))
    );
    let at_or = construct_from_binary(&symbols, 3).unwrap();
    assert_eq!(
        at_or,
        atom('p').combine(BinaryOp::And, atom('q')).combine(BinaryOp::Or, atom('r'))
    );
    assert_eq!(
        construct_from_binary(&symbols, 2),
        Err(ValidationError::MismatchedSymbol(Symbol::Atom('q')))
    );
    let dangling = tokenize("∧ p").unwrap();
    assert_eq!(
        construct_from_binary(&dangling, 0),
        Err(ValidationError::Binary(BinaryOp::And))
    );
    assert_eq!(construct_from_symbols(&symbols).unwrap(), at_or);
}

#[test]
fn string_to_formula_agrees_with_from_string() {
    assert_eq!(
        PropFormula::string_to_formula("p ∨ q").unwrap(),
        PropFormula::from_string("p ∨ q").unwrap()
    );
    assert_eq!(
        PropFormula::string_to_formula("p ∨"),
        Err(ValidationError::Binary(BinaryOp::Or))
    );
}

#[test]
fn round_trip_of_chosen_formulas() {
    let texts = [
        "p",
        "¬p",
        "¬¬p",
        "p ∧ q",
        "(p → q) → r",
        "p → q → r",
        "¬(p ∨ q) ∧ r",
        "(a ↔ b) ↔ (c ↔ d)",
        "¬(¬(a ∧ b) ∨ ¬(c → (d ↔ e)))",
        "((a ∨ b) ∧ c) ∨ (a ∧ (b ∨ c))",
    ];
    for text in texts {
        let formula = PropFormula::from_string(text).unwrap();
        assert!(formula.validate().is_ok());
        let printed = formula.to_string();
        assert_eq!(PropFormula::from_string(&printed).unwrap(), formula);
        // printing again changes nothing
        assert_eq!(PropFormula::from_string(&printed).unwrap().to_string(), printed);
    }
}

#[test]
fn round_trip_of_random_formulas() {
    for _ in 0..120 {
        let formula = PropFormula::generate(Some(40));
        assert!(formula.validate().is_ok());
        assert_eq!(PropFormula::from_string(&formula.to_string()).unwrap(), formula);
    }
}

#[test]
fn symbols_given_directly_are_read_as_they_stand() {
    // a row of symbols is not a text: a single symbol that is no atom is no literal
    assert_eq!(construct_from_symbols(&[Symbol::Left]), Err(ValidationError::NoLiteral));
    assert_eq!(
        construct_from_symbols(&[Symbol::Left, Symbol::Atom('p')]),
        Err(ValidationError::ParseError(SymbolParseError::UnbalancedParentheses))
    );
    assert_eq!(
        construct_from_symbols(&[Symbol::Atom('p'), Symbol::Left]),
        Err(ValidationError::ParseError(SymbolParseError::UnbalancedParentheses))
    );
}

#[test]
fn the_text_of_a_formula_has_no_blanks() {
    let formula = PropFormula::from_string(" ( p → q ) → ( r ∧ s ) ").unwrap();
    let text = formula.to_string();
    assert_eq!(text, "(p→q)→r∧s");
    assert_eq!(text.chars().count(), 9);
    assert!(!text.contains(' '));
}
