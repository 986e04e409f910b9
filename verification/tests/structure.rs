use hilbert_prop_logic::matcher::atom_key;
use hilbert_prop_logic::subformula::holds_formula;
use hilbert_prop_logic::{BinaryOp, PropFormula, Symbol, UnaryOp};
use std::collections::HashSet;

fn read(text: &str) -> PropFormula {
    PropFormula::from_string(text).unwrap()
}

#[test]
fn sizes_are_kept() {
    let p = PropFormula::new('p');
    assert_eq!(p.size(), 1);
    let not_p = p.negate();
    assert_eq!(not_p.size(), 2);
    let joined = not_p.combine(BinaryOp::And, PropFormula::new('q'));
    assert_eq!(joined.size(), 4);
    let other = PropFormula::new('r').left_combine(BinaryOp::Or, joined);
    assert_eq!(other.size(), 6);
    assert_eq!(other, read("(¬p ∧ q) ∨ r"));
    assert_eq!(read("¬(a → b) ↔ (c ∨ ¬d)").size(), 9);
}

#[test]
fn sizes_are_kept_by_the_rewriting() {
    for text in ["(a → b) ↔ ¬(c → d)", "¬(a ∧ (b ∨ ¬c))", "(a ∧ b) ∨ (c ∧ d)"] {
        let normal = read(text).conjunctive_normal_form().unwrap();
        assert_eq!(normal.size(), normal.to_preorder_sequence().len());
        let reread = read(&normal.to_string());
        assert_eq!(reread.size(), normal.size());
    }
}

#[test]
fn children_are_handed_out() {
    let formula = read("(p ∧ q) → ¬r");
    assert_eq!(formula.root(), Symbol::Binary(BinaryOp::Implies));
    assert!(formula.has_child(false) && formula.has_child(true));
    assert_eq!(*formula.get_child(false), read("p ∧ q"));
    assert_eq!(*formula.get_child(true), read("¬r"));
    assert!(!formula.get_child(true).has_child(false));
    assert_eq!(formula.clone().take_child(false), read("p ∧ q"));
    assert_eq!(formula.clone().take_child(true), read("¬r"));
    let (right, left) = formula.take_children();
    assert_eq!(right, read("¬r"));
    assert_eq!(left, read("p ∧ q"));
}

#[test]
fn a_child_is_changed_in_place() {
    let mut formula = read("p ∧ q");
    *formula.get_mut_child(false) = PropFormula::new('r');
    assert_eq!(formula, read("r ∧ q"));
    formula.get_mut_child(true).root = Symbol::Atom('s');
    assert_eq!(formula, read("r ∧ s"));
    assert_eq!(formula.size(), 3);
}

#[test]
fn children_are_worked_on() {
    let formula = read("p → q");
    assert_eq!(formula.clone().possess_child(false, |f| f.negate()), read("¬p → q"));
    assert_eq!(formula.clone().possess_child(true, |f| f.negate()), read("p → ¬q"));
    assert_eq!(formula.clone().possess_child(false, |f| f.negate()).size(), 4);
    assert_eq!(
        formula.clone().possess_children(|f| f.negate(), |f| f.combine(BinaryOp::Or, read("r"))),
        read("¬p → (q ∨ r)")
    );
    // a formula without the child, or without two children, is left alone
    assert_eq!(read("¬p").possess_child(false, |f| f.negate()), read("¬p"));
    assert_eq!(read("p").possess_child(true, |f| f.negate()), read("p"));
    assert_eq!(read("¬p").possess_children(|f| f.negate(), |f| f.negate()), read("¬p"));
}

#[test]
fn roots_are_changed() {
    assert_eq!(read("p → q").recombine(BinaryOp::And), read("p ∧ q"));
    assert_eq!(read("¬p").recombine(BinaryOp::And), read("¬p"));
    assert_eq!(read("p").recombine(BinaryOp::And), read("p"));
    assert_eq!(read("p → q").swap_children(), read("q → p"));
    assert_eq!(read("¬p").swap_children(), read("¬p"));
    assert_eq!(read("p").reassign(read("q ∨ r")), read("q ∨ r"));
    assert_eq!(read("p").connect(&read("q")), read("p → q"));
    assert_eq!(read("p ∧ q").refute(), read("¬(p ∧ q)"));
}

#[test]
fn a_copy_is_equal_and_independent() {
    let formula = read("¬(p ∧ q) → r");
    let mut copy = formula.clone();
    assert_eq!(copy, formula);
    assert_eq!(copy.size(), formula.size());
    copy.root = Symbol::Binary(BinaryOp::And);
    assert_ne!(copy, formula);
    assert_eq!(formula, read("¬(p ∧ q) → r"));
}

#[test]
fn equality_is_structural() {
    assert_ne!(read("a ∨ b"), read("b ∨ a"));
    assert_ne!(read("¬¬a"), read("a"));
    assert_eq!(read("(a ∨ b)"), read("a ∨ b"));
    assert_ne!(read("(a ∧ b) ∧ c"), read("a ∧ (b ∧ c)"));
}

#[test]
fn strings_in_both_orders() {
    let formula = read("(p → q) ∧ ¬r");
    assert_eq!(formula.convert_to_string(false), "(p→q)∧¬r");
    assert_eq!(formula.convert_to_string(true), "∧→pq¬r");
    assert_eq!(formula.to_inorder_string(), formula.to_string());
    assert_eq!(
        formula.to_preorder_sequence(),
        vec![
            Symbol::Binary(BinaryOp::And),
            Symbol::Binary(BinaryOp::Implies),
            Symbol::Atom('p'),
            Symbol::Atom('q'),
            Symbol::Unary(UnaryOp::Not),
            Symbol::Atom('r'),
        ]
    );
    let mut row = vec![Symbol::Left];
    formula.inorder_traverse(&mut row);
    assert_eq!(row.len(), 9);
    assert_eq!(row[0], Symbol::Left);
    assert_eq!(row[1], Symbol::Left);
    let mut row = vec![Symbol::Right];
    formula.preorder_traverse(&mut row);
    assert_eq!(row.len(), 7);
    assert_eq!(row[1], Symbol::Binary(BinaryOp::And));
}

#[test]
fn atoms_of_a_formula() {
    let atoms = read("(p → q) ∧ ¬(p ∨ R)").get_atoms();
    let expected: HashSet<u32> = ['p', 'q', 'R'].iter().map(|c| atom_key(*c)).collect();
    assert_eq!(atoms, expected);
    let mut more = atoms.clone();
    read("q ∧ s").traverse_atoms(&mut more);
    assert_eq!(more.len(), 4);
    assert!(more.contains(&atom_key('s')));
}

#[test]
fn largest_common_subformula_of_chosen_formulas() {
    let a = read("(p ∧ q) → ¬(r ∨ s)");
    let b = read("¬(r ∨ s) ↔ (q ∧ p)");
    assert_eq!(PropFormula::largest_common_subformula(&a, &b), 4);
    assert_eq!(PropFormula::largest_common_subformula(&b, &a), 4);
    assert_eq!(PropFormula::largest_common_subformula(&a, &a), a.size());
    assert_eq!(PropFormula::largest_common_subformula(&a, &read("x → y")), 0);
    assert_eq!(PropFormula::largest_common_subformula(&a, &read("s")), 1);
    assert_eq!(PropFormula::largest_common_subformula(&read("s"), &a), 1);
}

#[test]
fn a_subformula_repeated_in_one_formula_is_not_common() {
    let single = read("p");
    let repeated = read("(q ∧ r) ∨ (q ∧ r)");
    assert_eq!(PropFormula::largest_common_subformula(&single, &repeated), 0);
    assert_eq!(PropFormula::largest_common_subformula(&repeated, &single), 0);
}

#[test]
fn largest_common_subformula_is_symmetric() {
    for _ in 0..40 {
        let a = PropFormula::generate(Some(12));
        let b = PropFormula::generate(Some(12));
        assert_eq!(
            PropFormula::largest_common_subformula(&a, &b),
            PropFormula::largest_common_subformula(&b, &a)
        );
        assert_eq!(PropFormula::largest_common_subformula(&a, &a.clone()), a.size());
    }
}

#[test]
fn subformulas_are_recorded_once() {
    let formula = read("(p ∧ q) ∨ (p ∧ q)");
    let mut seen: Vec<PropFormula> = Vec::new();
    let found = formula.subformula_traverse(&mut seen);
    assert_eq!(found, Some(&read("p ∧ q")));
    assert_eq!(seen, vec![formula.clone(), read("p ∧ q"), read("p"), read("q")]);
    assert!(holds_formula(&seen, &read("q")));
    assert!(!holds_formula(&seen, &read("q ∧ p")));
    // nothing of a second walk is new
    assert_eq!(formula.subformula_traverse(&mut seen), Some(&formula));
    assert_eq!(seen.len(), 4);
    // of several finds of one size the leftmost is the find
    let other = read("(p ∨ x) ∧ (q ∨ y)");
    let found = other.largest_known(&seen);
    assert_eq!(found, Some(&read("p")));
    let other = read("x ∧ (y → (p ∧ q))");
    assert_eq!(other.largest_known(&seen), Some(&read("p ∧ q")));
    assert_eq!(read("x ∧ y").largest_known(&seen), None);
}
