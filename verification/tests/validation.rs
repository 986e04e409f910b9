use hilbert_prop_logic::{
    AtomError, BinaryOp, MPErr, PropFormula, Symbol, SymbolParseError, UnaryOp, ValidationError,
};

fn read(text: &str) -> PropFormula {
    PropFormula::from_string(text).unwrap()
}

#[test]
fn a_built_formula_is_valid() {
    let formula = read("¬(p ∧ q) → (r ↔ ¬s)");
    assert_eq!(formula.validate(), Ok(&formula));
    assert!(PropFormula::new('p').validate().is_ok());
    assert!(PropFormula::symmetry().validate().is_ok());
    assert!(PropFormula::distribution().validate().is_ok());
    assert!(PropFormula::contraposition().validate().is_ok());
}

#[test]
fn a_binary_node_needs_both_children() {
    let mut leaf = PropFormula::new('p');
    leaf.root = Symbol::Binary(BinaryOp::Or);
    assert_eq!(leaf.validate(), Err(ValidationError::Binary(BinaryOp::Or)));
    let mut negation = read("¬p");
    negation.root = Symbol::Binary(BinaryOp::Iff);
    assert_eq!(negation.validate(), Err(ValidationError::Binary(BinaryOp::Iff)));
}

#[test]
fn a_unary_node_needs_its_right_child_only() {
    let mut leaf = PropFormula::new('p');
    leaf.root = Symbol::Unary(UnaryOp::Not);
    assert_eq!(leaf.validate(), Err(ValidationError::Unary(UnaryOp::Not)));
    let mut pair = read("p ∧ q");
    pair.root = Symbol::Unary(UnaryOp::Not);
    assert_eq!(pair.validate(), Err(ValidationError::Unary(UnaryOp::Not)));
}

#[test]
fn an_atom_has_no_children() {
    let mut pair = read("p ∧ q");
    pair.root = Symbol::Atom('x');
    assert_eq!(pair.validate(), Err(ValidationError::Atom('x')));
    let mut negation = read("¬p");
    negation.root = Symbol::Atom('y');
    assert_eq!(negation.validate(), Err(ValidationError::Atom('y')));
}

#[test]
fn a_parenthesis_is_no_node() {
    let mut leaf = PropFormula::new('p');
    leaf.root = Symbol::Left;
    assert_eq!(leaf.validate(), Err(ValidationError::Parentheses));
    leaf.root = Symbol::Right;
    assert_eq!(leaf.validate(), Err(ValidationError::Parentheses));
}

#[test]
fn the_first_defect_is_reported() {
    // a defect of the node comes before those of its children
    let mut formula = read("(p ∧ q) → (r ∨ s)");
    formula.get_mut_child(true).root = Symbol::Atom('b');
    formula.get_mut_child(false).root = Symbol::Atom('a');
    assert_eq!(formula.validate(), Err(ValidationError::Atom('a')));
    formula.root = Symbol::Left;
    assert_eq!(formula.validate(), Err(ValidationError::Parentheses));
    // a defect on the left comes before one on the right
    let mut formula = read("(p ∧ q) → (r ∨ s)");
    formula.get_mut_child(true).root = Symbol::Atom('b');
    assert_eq!(formula.validate(), Err(ValidationError::Atom('b')));
    formula.get_mut_child(false).get_mut_child(true).root = Symbol::Unary(UnaryOp::Not);
    assert_eq!(formula.validate(), Err(ValidationError::Unary(UnaryOp::Not)));
}

#[test]
fn messages_of_the_errors() {
    assert_eq!(
        SymbolParseError::InvalidChar('#').to_string(),
        "# does not correspond to a valid symbol."
    );
    assert_eq!(
        SymbolParseError::UnbalancedParentheses.to_string(),
        "The given string does not contain valid balanced parentheses."
    );
    assert_eq!(
        ValidationError::Binary(BinaryOp::And).to_string(),
        "Binary operator ∧ doesn't have two children."
    );
    assert_eq!(
        ValidationError::Unary(UnaryOp::Not).to_string(),
        "Unary operator ¬ doesn't have right child, has left child, or both."
    );
    assert_eq!(ValidationError::Atom('p').to_string(), "Atom p has children.");
    assert_eq!(ValidationError::Parentheses.to_string(), "No parentheses in a tree formula!");
    assert_eq!(
        ValidationError::EmptyFormula.to_string(),
        "The empty formula is not constructible."
    );
    assert_eq!(
        ValidationError::NoLiteral.to_string(),
        "All subformulas need to terminate in a literal."
    );
    assert_eq!(
        ValidationError::NoConnectives.to_string(),
        "This formula doesn't have any connectives, but has more than one literal."
    );
    assert_eq!(
        ValidationError::MismatchedSymbol(Symbol::Left).to_string(),
        "( is not the expected symbol at this point in the formula."
    );
    assert_eq!(
        ValidationError::ParseError(SymbolParseError::InvalidChar('%')).to_string(),
        "% does not correspond to a valid symbol."
    );
    assert_eq!(MPErr::InvalidIndex.to_string(), "Not a valid index into the proof.");
    assert_eq!(
        MPErr::NotAntecedent.to_string(),
        "This is not an antecedent of the current formula."
    );
    assert_eq!(MPErr::NotImplies.to_string(), "This formula is not an implication.");
    assert_eq!(AtomError::EmptyChoice.to_string(), "set of atoms must be non-empty!");
    assert_eq!(
        AtomError::NoChoice.to_string(),
        "if you want a random atom, set of atoms must be provided"
    );
    assert_eq!(AtomError::NoName.to_string(), "atom must be provided");
}

#[test]
fn printed_forms_and_ranks_of_the_symbols() {
    assert_eq!(Symbol::Left.to_string(), "(");
    assert_eq!(Symbol::Right.to_string(), ")");
    assert_eq!(Symbol::Atom('k').to_string(), "k");
    assert_eq!(Symbol::Unary(UnaryOp::Not).to_string(), "¬");
    assert_eq!(Symbol::Binary(BinaryOp::Iff).to_string(), "↔");
    assert_eq!(BinaryOp::Implies.to_string(), "→");
    assert_eq!(BinaryOp::And.to_string(), "∧");
    assert_eq!(BinaryOp::Or.to_string(), "∨");
    assert_eq!(UnaryOp::Not.to_string(), "¬");
    assert_eq!(BinaryOp::Iff.glyph(), '↔');
    assert_eq!(UnaryOp::Not.glyph(), '¬');
    let mut line = String::from("x");
    Symbol::Binary(BinaryOp::Or).write_to(&mut line);
    assert_eq!(line, "x∨");
    let ranks: Vec<u8> = [
        Symbol::Binary(BinaryOp::Iff),
        Symbol::Binary(BinaryOp::Implies),
        Symbol::Binary(BinaryOp::Or),
        Symbol::Binary(BinaryOp::And),
        Symbol::Unary(UnaryOp::Not),
        Symbol::Atom('a'),
        Symbol::Left,
        Symbol::Right,
    ]
    .iter()
    .map(|s| s.rank())
    .collect();
    assert_eq!(ranks, vec![0, 1, 2, 3, 4, 5, 6, 7]);
    assert_eq!(Symbol::Atom('a').rank(), Symbol::Atom('z').rank());
    assert_eq!(BinaryOp::And.rank(), 3);
}

#[test]
fn a_root_is_set() {
    let mut formula = read("p ∧ q");
    formula.set_root(Symbol::Binary(BinaryOp::Or));
    assert_eq!(formula, read("p ∨ q"));
    assert_eq!(formula.size(), 3);
    formula.set_root(Symbol::Left);
    assert_eq!(formula.validate(), Err(ValidationError::Parentheses));
    formula.set_root(Symbol::Atom('x'));
    assert_eq!(formula.validate(), Err(ValidationError::Atom('x')));
    let mut leaf = PropFormula::new('p');
    leaf.set_root(Symbol::Unary(UnaryOp::Not));
    assert_eq!(leaf.validate(), Err(ValidationError::Unary(UnaryOp::Not)));
    leaf.set_root(Symbol::Atom('q'));
    assert_eq!(leaf, PropFormula::new('q'));
}

#[test]
fn the_order_of_the_symbols_follows_their_ranks() {
    let row = [
        Symbol::Binary(BinaryOp::Iff),
        Symbol::Binary(BinaryOp::Implies),
        Symbol::Binary(BinaryOp::Or),
        Symbol::Binary(BinaryOp::And),
        Symbol::Unary(UnaryOp::Not),
        Symbol::Atom('a'),
        Symbol::Left,
        Symbol::Right,
    ];
    for i in 0..row.len() {
        for j in 0..row.len() {
            assert_eq!(row[i] < row[j], row[i].rank() < row[j].rank());
        }
    }
    assert!(BinaryOp::Iff < BinaryOp::Implies);
    assert!(BinaryOp::Implies < BinaryOp::Or);
    assert!(BinaryOp::Or < BinaryOp::And);
    assert!(PropFormula::new('a') < PropFormula::new('b'));
}
