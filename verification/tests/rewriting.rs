use hilbert_prop_logic::{BinaryOp, PropFormula, Symbol, UnaryOp, ValidationError};

fn read(text: &str) -> PropFormula {
    PropFormula::from_string(text).unwrap()
}

fn has_cnf_shape(f: &PropFormula) -> bool {
    match f.root() {
        Symbol::Atom(_) => !f.has_child(false) && !f.has_child(true),
        Symbol::Unary(UnaryOp::Not) => {
            f.has_child(true) && matches!(f.get_child(true).root(), Symbol::Atom(_))
        }
        Symbol::Binary(BinaryOp::And) => {
            has_cnf_shape(f.get_child(false)) && has_cnf_shape(f.get_child(true))
        }
        Symbol::Binary(BinaryOp::Or) => {
            f.get_child(false).root() != Symbol::Binary(BinaryOp::And)
                && f.get_child(true).root() != Symbol::Binary(BinaryOp::And)
                && has_cnf_shape(f.get_child(false))
                && has_cnf_shape(f.get_child(true))
        }
        _ => false,
    }
}

#[test]
fn implication_is_eliminated() {
    assert_eq!(read("p → q").de_imply(), read("¬p ∨ q"));
    assert_eq!(read("p ∧ q").de_imply(), read("p ∧ q"));
    assert_eq!(read("p ↔ q").de_iff(), read("(¬p ∨ q) ∧ (¬q ∨ p)"));
    assert_eq!(read("p → q").de_iff(), read("p → q"));
    assert_eq!(
        read("(a → b) ↔ ¬(c → d)").eliminate_implies(),
        read("(¬(¬a ∨ b) ∨ ¬(¬c ∨ d)) ∧ (¬¬(¬c ∨ d) ∨ (¬a ∨ b))")
    );
}

#[test]
fn de_morgan_laws() {
    assert_eq!(read("¬(p ∧ q)").and_to_or(), read("¬p ∨ ¬q"));
    assert_eq!(read("¬(p ∨ q)").and_to_or(), read("¬(p ∨ q)"));
    assert_eq!(read("¬(p ∨ q)").or_to_and(), read("¬p ∧ ¬q"));
    assert_eq!(read("¬(p ∧ q)").or_to_and(), read("¬(p ∧ q)"));
    assert_eq!(read("p").and_to_or(), read("p"));
    assert_eq!(read("¬p").or_to_and(), read("¬p"));
    assert_eq!(
        read("¬(a ∧ (b ∨ c))").push_negation(),
        read("¬a ∨ (¬b ∧ ¬c)")
    );
    assert_eq!(
        read("¬(a ∧ (b ∧ c)) ∨ ¬¬(d ∨ e)").de_morgans(),
        read("(¬a ∨ (¬b ∨ ¬c)) ∨ (¬¬d ∨ ¬¬e)")
    );
}

#[test]
fn double_negations_are_stripped() {
    assert_eq!(read("¬¬p").de_negate(), read("p"));
    assert_eq!(read("¬¬¬p").de_negate(), read("¬p"));
    assert_eq!(read("¬¬¬¬p").de_negate(), read("p"));
    assert_eq!(read("¬¬(¬¬p ∧ q)").de_negate(), read("¬¬p ∧ q"));
    assert_eq!(read("¬¬(¬¬p ∧ ¬¬¬q)").strip_negate(), read("p ∧ ¬q"));
    assert_eq!(read("p ∧ q").strip_negate(), read("p ∧ q"));
}

#[test]
fn disjunction_is_distributed() {
    assert_eq!(read("a ∨ (b ∧ c)").split_conjunction(), read("(a ∨ b) ∧ (a ∨ c)"));
    assert_eq!(read("(a ∧ b) ∨ c").split_conjunction(), read("(a ∨ c) ∧ (b ∨ c)"));
    assert_eq!(
        read("(a ∧ b) ∨ (c ∧ d)").split_conjunction(),
        read("((a ∨ c) ∧ (b ∨ c)) ∧ ((a ∨ d) ∧ (b ∨ d))")
    );
    assert_eq!(
        read("a ∨ (b ∧ (c ∧ d))").split_conjunction(),
        read("(a ∨ b) ∧ ((a ∨ c) ∧ (a ∨ d))")
    );
    assert_eq!(read("a ∨ b").split_conjunction(), read("a ∨ b"));
    assert_eq!(read("a ∧ (b ∨ c)").split_conjunction(), read("a ∧ (b ∨ c)"));
    assert_eq!(
        read("(a ∨ (b ∧ c)) ∨ d").distribute_conjunction(),
        read("((a ∨ b) ∨ d) ∧ ((a ∨ c) ∨ d)")
    );
}

#[test]
fn conjunctive_normal_form_of_chosen_formulas() -> Result<(), ValidationError> {
    assert_eq!(read("p → q").conjunctive_normal_form()?, read("¬p ∨ q"));
    assert_eq!(read("p ↔ q").conjunctive_normal_form()?, read("(¬p ∨ q) ∧ (¬q ∨ p)"));
    assert_eq!(read("¬(p → q)").conjunctive_normal_form()?, read("p ∧ ¬q"));
    assert_eq!(
        read("¬(p ∧ (q ∨ ¬r))").conjunctive_normal_form()?,
        read("(¬p ∨ ¬q) ∧ (¬p ∨ r)")
    );
    assert_eq!(read("¬¬¬p").conjunctive_normal_form()?, read("¬p"));
    assert_eq!(read("p").conjunctive_normal_form()?, read("p"));
    Ok(())
}

#[test]
fn conjunctive_normal_form_has_its_shape() -> Result<(), ValidationError> {
    let texts = [
        "¬(a ∧ (b ∧ c))",
        "a ∨ (b ∧ (c ∧ d))",
        "(a ∧ b) ∨ (c ∧ d)",
        "¬((a ↔ b) → ¬(c ∨ ¬¬d))",
        "(a → b) ↔ (c → d)",
        "¬¬¬¬(a ∧ ¬¬b)",
    ];
    for text in texts {
        let normal = read(text).conjunctive_normal_form()?;
        assert!(normal.validate().is_ok());
        assert!(has_cnf_shape(&normal), "{}", normal.to_string());
    }
    for _ in 0..60 {
        let formula = PropFormula::generate(Some(8));
        let normal = formula.conjunctive_normal_form()?;
        assert!(has_cnf_shape(&normal), "{}", normal.to_string());
    }
    Ok(())
}

#[test]
fn conjunctive_normal_form_refuses_an_invalid_formula() {
    let mut broken = read("p ∧ q");
    broken.root = Symbol::Atom('x');
    assert_eq!(broken.conjunctive_normal_form(), Err(ValidationError::Atom('x')));
    let mut nested = read("¬(p ∧ q)");
    nested.get_mut_child(true).root = Symbol::Right;
    assert_eq!(nested.conjunctive_normal_form(), Err(ValidationError::Parentheses));
}

#[test]
fn rotations() {
    assert_eq!(read("a → (b ∧ c)").rotate_left(), read("(a → b) ∧ c"));
    assert_eq!(read("(a → b) ∧ c").rotate_right(), read("a → (b ∧ c)"));
    assert_eq!(read("a → ¬b").rotate_left(), read("a → ¬b"));
    assert_eq!(read("¬a").rotate_right(), read("¬a"));
    assert_eq!(read("a").rotate_left(), read("a"));
    let formula = read("(a ∨ b) ∧ (c → d)");
    assert_eq!(formula.clone().rotate_left().rotate_right(), formula);
}
