use hilbert_prop_logic::matcher::atom_key;
use hilbert_prop_logic::{PropFormula, ValidationError};
use std::collections::HashMap;

#[test]
fn instantiation() -> Result<(), ValidationError> {
    let mut schema = PropFormula::distribution();
    assert_eq!(PropFormula::from_string("(A → (B → C)) → (A → B) → B → C")?, schema);
    let mut atomic_formulas = HashMap::new();
    atomic_formulas.insert(atom_key('A'), PropFormula::from_string("p → q → r")?);
    schema = schema.instantiate(atomic_formulas.clone());
    assert_eq!(
        PropFormula::from_string("((p → q → r) → (B → C)) → ((p → q → r) → B) → B → C")?,
        schema
    );
    atomic_formulas.insert(atom_key('B'), PropFormula::from_string("f ∧ g → h")?);
    schema = schema.instantiate(atomic_formulas.clone());
    assert_eq!(
        PropFormula::from_string(
            "((p → q → r) → ((f ∧ g → h) → C)) → ((p → q → r) → (f ∧ g → h)) → (f ∧ g → h) → C"
        )?,
        schema
    );
    atomic_formulas.insert(atom_key('C'), PropFormula::from_string("¬¬¬d")?);
    schema = schema.instantiate(atomic_formulas.clone());
    assert_eq!(
        PropFormula::from_string(
            "((p → q → r) → ((f ∧ g → h) → ¬¬¬d)) → ((p → q → r) → (f ∧ g → h)) → (f ∧ g → h) → ¬¬¬d"
        )?,
        schema
    );
    Ok(())
}

#[test]
fn check_instancing() -> Result<(), ValidationError> {
    assert!(PropFormula::from_string(
        "((p → q → r) → ((f ∧ g → h) → ¬¬¬d)) → ((p → q → r) → (f ∧ g → h)) → (f ∧ g → h) → ¬¬¬d"
    )?
    .is_instance(&PropFormula::distribution()));
    assert!(!PropFormula::from_string("(p → q → r)")?.is_instance(&PropFormula::symmetry()));
    assert!(PropFormula::from_string("(p → q → r) → (p → q → r) → (p → q → r)")?
        .is_instance(&PropFormula::symmetry()));
    assert!(PropFormula::from_string("((p → q) → (¬q → ¬p))")?
        .is_instance(&PropFormula::contraposition()));
    assert!(!PropFormula::from_string("(p → q → ¬q → ¬p)")?
        .is_instance(&PropFormula::contraposition()));
    Ok(())
}

fn read(text: &str) -> PropFormula {
    PropFormula::from_string(text).unwrap()
}

#[test]
fn the_three_schemas() {
    assert_eq!(PropFormula::symmetry(), read("A → (B → A)"));
    assert_eq!(PropFormula::distribution(), read("(A → (B → C)) → ((A → B) → (B → C))"));
    assert_eq!(PropFormula::contraposition(), read("(A → B) → (¬B → ¬A)"));
    assert_eq!(PropFormula::symmetry().size(), 5);
    assert_eq!(PropFormula::distribution().size(), 13);
    assert_eq!(PropFormula::contraposition().size(), 9);
}

#[test]
fn substitution_into_the_distribution_schema() {
    let bound = read("p → q → r");
    let mut table = HashMap::new();
    table.insert(atom_key('A'), bound.clone());
    let instance = PropFormula::distribution().instantiate(table);
    let b = PropFormula::new('B');
    let c = PropFormula::new('C');
    let bc = b.connect(&c);
    let expected = bound.connect(&bc).connect(&bound.connect(&b).connect(&bc));
    assert_eq!(instance, expected);
    assert_eq!(instance.size(), expected.size());
    assert!(instance.validate().is_ok());
}

#[test]
fn substitution_is_simultaneous() {
    let mut table = HashMap::new();
    table.insert(atom_key('A'), read("B"));
    table.insert(atom_key('B'), read("A ∧ A"));
    let formula = read("A → B");
    assert_eq!(formula.instantiate(table), read("B → (A ∧ A)"));
}

#[test]
fn substitution_leaves_unbound_atoms() {
    let table: HashMap<u32, PropFormula> = HashMap::new();
    let formula = read("¬(p ∧ q) → r");
    assert_eq!(formula.instantiate(table), formula);
    let mut table = HashMap::new();
    table.insert(atom_key('z'), read("p"));
    assert_eq!(formula.instantiate(table), formula);
}

#[test]
fn instantiate_atom_replaces_a_bound_atom_only() {
    let mut table = HashMap::new();
    table.insert(atom_key('p'), read("a ∨ b"));
    assert_eq!(read("p").instantiate_atom(&table), read("a ∨ b"));
    assert_eq!(read("q").instantiate_atom(&table), read("q"));
    assert_eq!(read("¬p").instantiate_atom(&table), read("¬p"));
}

#[test]
fn an_instance_has_the_connectives_of_the_schema() {
    assert!(!read("p ∧ q").is_instance(&read("A → B")));
    assert!(read("p → q").is_instance(&read("A → B")));
    assert!(!read("¬p").is_instance(&read("A → B")));
    assert!(!read("p").is_instance(&read("¬A")));
    assert!(read("¬(p ∧ q)").is_instance(&read("¬A")));
    assert!(read("p").is_instance(&read("A")));
}

#[test]
fn an_atom_of_the_schema_stands_for_one_formula() {
    assert!(read("(p ∧ q) → (p ∧ q)").is_instance(&read("A → A")));
    assert!(!read("(p ∧ q) → (q ∧ p)").is_instance(&read("A → A")));
    assert!(read("p → p").is_instance(&read("A → B")));
}

#[test]
fn match_traverse_binds_the_atoms_of_the_schema() {
    let candidate = read("(p ∧ q) → ¬r");
    let schema = read("A → B");
    let mut bindings: HashMap<u32, &PropFormula> = HashMap::new();
    assert!(candidate.match_traverse(&schema, &mut bindings));
    assert_eq!(bindings.len(), 2);
    assert_eq!(*bindings[&atom_key('A')], read("p ∧ q"));
    assert_eq!(*bindings[&atom_key('B')], read("¬r"));
    // with A bound already, the candidate must agree
    let other = read("s → t");
    let mut bindings: HashMap<u32, &PropFormula> = HashMap::new();
    let bound = read("s");
    bindings.insert(atom_key('A'), &bound);
    assert!(other.match_traverse(&schema, &mut bindings));
    let mut bindings: HashMap<u32, &PropFormula> = HashMap::new();
    let bound = read("t");
    bindings.insert(atom_key('A'), &bound);
    assert!(!other.match_traverse(&schema, &mut bindings));
}

#[test]
fn an_instance_comes_from_a_substitution() {
    let mut table = HashMap::new();
    table.insert(atom_key('A'), read("x ↔ ¬y"));
    table.insert(atom_key('B'), read("z"));
    for schema in [
        PropFormula::symmetry(),
        PropFormula::distribution(),
        PropFormula::contraposition(),
    ] {
        let instance = schema.instantiate(table.clone());
        assert!(instance.is_instance(&schema));
    }
}

#[test]
fn atom_key_is_the_code_point() {
    assert_eq!(atom_key('A'), 65);
    assert_eq!(atom_key('é'), 233);
}

#[test]
fn a_binding_is_never_replaced() {
    let schema = read("A → (A → B)");
    // the second A does not fit; the first binding stays, and B is not reached
    let candidate = read("p → (q → r)");
    let mut bindings: HashMap<u32, &PropFormula> = HashMap::new();
    assert!(!candidate.match_traverse(&schema, &mut bindings));
    assert_eq!(bindings.len(), 1);
    assert_eq!(*bindings[&atom_key('A')], read("p"));
    // at a bound atom that does not fit, the table is left as it was
    let bound_to = read("s");
    let other = read("t");
    let mut bindings: HashMap<u32, &PropFormula> = HashMap::new();
    bindings.insert(atom_key('A'), &bound_to);
    assert!(!other.match_traverse(&read("A"), &mut bindings));
    assert_eq!(bindings.len(), 1);
    assert_eq!(*bindings[&atom_key('A')], bound_to);
    // where the left child does not fit, the right one binds nothing
    let mut bindings: HashMap<u32, &PropFormula> = HashMap::new();
    let candidate = read("(p ∧ q) → r");
    assert!(!candidate.match_traverse(&read("(A ∨ B) → C"), &mut bindings));
    assert_eq!(bindings.len(), 0);
}
