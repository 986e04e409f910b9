//! The atoms that occur in a formula.

use vstd::prelude::*;
use std::collections::HashSet;
use crate::formula::PropFormula;
use crate::matcher::{atom_key, key_of};
use crate::symbol::Symbol;
use crate::tree::Tree;

verus! {

/// The atoms that occur in `t`, each by its key.
pub open spec fn atom_keys(t: Tree) -> Set<u32>
    decreases t,
{
    (match t.root {
        Symbol::Atom(c) => set![key_of(c)],
        _ => Set::empty(),
    }) + (match t.left {
        Some(l) => atom_keys(*l),
        None => Set::empty(),
    }) + (match t.right {
        Some(r) => atom_keys(*r),
        None => Set::empty(),
    })
}

impl PropFormula {
    /// Adds the atoms of the formula to `atoms`, each by its key.
    pub fn traverse_atoms(&self, atoms: &mut HashSet<u32>)
        ensures
            final(atoms)@ == old(atoms)@ + atom_keys(self@),
        decreases self@,
    {
        broadcast use vstd::std_specs::hash::group_hash_axioms;

        let ghost before = atoms@;
        if let Symbol::Atom(a) = self.root() {
            atoms.insert(atom_key(a));
        }
        if self.has_child(false) {
            self.get_child(false).traverse_atoms(atoms);
        }
        if self.has_child(true) {
            self.get_child(true).traverse_atoms(atoms);
        }
        assert(atoms@ =~= before + atom_keys(self@));
    }

    /// The atoms of the formula, each by its key.
    pub fn get_atoms(&self) -> (atoms: HashSet<u32>)
        ensures
            atoms@ == atom_keys(self@),
    {
        broadcast use vstd::std_specs::hash::group_hash_axioms;

        let mut atoms: HashSet<u32> = HashSet::new();
        self.traverse_atoms(&mut atoms);
        assert(atoms@ =~= atom_keys(self@));
        atoms
    }
}

} // verus!
