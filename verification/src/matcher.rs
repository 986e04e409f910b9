//! Substituting formulas for atoms, and telling whether a formula arises
//! from an axiom schema by one such substitution.

use vstd::prelude::*;
use std::collections::HashMap;
use crate::formula::PropFormula;
use crate::rewrite::{bottom_up, covers, rebuilt};
use crate::symbol::{BinaryOp, Symbol};
use crate::tree::{group_tree, lemma_same_is_equal, lemma_valid_form, Tree};

verus! {

/// The key under which an atom is kept in a table of bindings: its code
/// point.
pub open spec fn key_of(c: char) -> u32 {
    c as u32
}

/// What a table keyed by code points binds each atom to.
pub open spec fn bound<V: View<V = Tree>>(m: Map<u32, V>) -> Map<char, Tree> {
    Map::new(|c: char| m.dom().contains(key_of(c)), |c: char| m[key_of(c)]@)
}

/// An atom bound in `b` gives way to what it is bound to; any other tree
/// stays.
pub open spec fn atom_rule(x: Tree, b: Map<char, Tree>) -> Tree {
    match x.root {
        Symbol::Atom(c) => if b.dom().contains(c) {
            b[c]
        } else {
            x
        },
        _ => x,
    }
}

/// The local rule of substitution.
pub open spec fn substitute_rule(b: Map<char, Tree>) -> spec_fn(Tree) -> Tree {
    |x: Tree| atom_rule(x, b)
}

/// `t` with every atom that `b` binds replaced by what it is bound to. The
/// replacement is simultaneous: what is put in is not searched again.
pub open spec fn substituted(t: Tree, b: Map<char, Tree>) -> Tree {
    bottom_up(substitute_rule(b), t)
}

/// Matching `c` against the schema `a`, given what earlier matching has
/// bound: the bindings afterwards, or `None` where `c` does not fit. An atom
/// of the schema fits anything the first time and binds it; later it fits
/// only what equals its binding. An inner node fits a node with the same
/// symbol and children on the same sides that fit in turn, the left one
/// first.
pub open spec fn matching(c: Tree, a: Tree, b: Map<char, Tree>) -> Option<Map<char, Tree>>
    decreases a,
{
    match a.root {
        Symbol::Atom(x) => if b.dom().contains(x) {
            if c.same(b[x]) {
                Some(b)
            } else {
                None
            }
        } else {
            Some(b.insert(x, c))
        },
        _ => if c.root != a.root {
            None
        } else if c.left is Some && a.left is Some && c.right is Some && a.right is Some {
            match matching(c.l(), a.l(), b) {
                Some(b1) => matching(c.r(), a.r(), b1),
                None => None,
            }
        } else if c.left is Some && a.left is Some && c.right is None && a.right is None {
            matching(c.l(), a.l(), b)
        } else if c.left is None && a.left is None && c.right is Some && a.right is Some {
            matching(c.r(), a.r(), b)
        } else {
            None
        },
    }
}

/// The bindings after matching `c` against the schema `a`, whether it
/// succeeded or not. A binding once made is never replaced: an atom that is
/// bound leaves the bindings as they are, an atom that is not is bound, and
/// at an inner node the children add theirs, the right one only where the
/// left one fitted.
pub open spec fn table_after(c: Tree, a: Tree, b: Map<char, Tree>) -> Map<char, Tree>
    decreases a,
{
    match a.root {
        Symbol::Atom(x) => if b.dom().contains(x) {
            b
        } else {
            b.insert(x, c)
        },
        _ => if c.root != a.root {
            b
        } else if c.left is Some && a.left is Some && c.right is Some && a.right is Some {
            match matching(c.l(), a.l(), b) {
                Some(b1) => table_after(c.r(), a.r(), b1),
                None => table_after(c.l(), a.l(), b),
            }
        } else if c.left is Some && a.left is Some && c.right is None && a.right is None {
            table_after(c.l(), a.l(), b)
        } else if c.left is None && a.left is None && c.right is Some && a.right is Some {
            table_after(c.r(), a.r(), b)
        } else {
            b
        },
    }
}

/// Matching never replaces a binding, and where it succeeds the bindings
/// after it are those it gives.
pub proof fn lemma_table_after(c: Tree, a: Tree, b: Map<char, Tree>)
    ensures
        keeps(table_after(c, a, b), b),
        matching(c, a, b) matches Some(m) ==> table_after(c, a, b) == m,
    decreases a,
{
    if !(a.root is Atom) && c.root == a.root {
        if c.left is Some && a.left is Some && c.right is Some && a.right is Some {
            lemma_table_after(c.l(), a.l(), b);
            match matching(c.l(), a.l(), b) {
                Some(b1) => {
                    lemma_table_after(c.r(), a.r(), b1);
                },
                None => {},
            }
        } else if c.left is Some && a.left is Some && c.right is None && a.right is None {
            lemma_table_after(c.l(), a.l(), b);
        } else if c.left is None && a.left is None && c.right is Some && a.right is Some {
            lemma_table_after(c.r(), a.r(), b);
        }
    }
}

/// Whether `c` arises from the schema `a` by putting formulas for atoms.
pub open spec fn instance_of(c: Tree, a: Tree) -> bool {
    matching(c, a, Map::empty()) is Some
}

/// `a → (b → a)`.
pub open spec fn symmetry_axiom() -> Tree {
    let a = Tree::leaf('A');
    let b = Tree::leaf('B');
    Tree::bin(BinaryOp::Implies, a, Tree::bin(BinaryOp::Implies, b, a))
}

/// `(a → (b → c)) → ((a → b) → (b → c))`.
pub open spec fn distribution_axiom() -> Tree {
    let a = Tree::leaf('A');
    let b = Tree::leaf('B');
    let c = Tree::leaf('C');
    let bc = Tree::bin(BinaryOp::Implies, b, c);
    Tree::bin(
        BinaryOp::Implies,
        Tree::bin(BinaryOp::Implies, a, bc),
        Tree::bin(BinaryOp::Implies, Tree::bin(BinaryOp::Implies, a, b), bc),
    )
}

/// `(a → b) → (¬b → ¬a)`.
pub open spec fn contraposition_axiom() -> Tree {
    let a = Tree::leaf('A');
    let b = Tree::leaf('B');
    Tree::bin(
        BinaryOp::Implies,
        Tree::bin(BinaryOp::Implies, a, b),
        Tree::bin(BinaryOp::Implies, Tree::not(b), Tree::not(a)),
    )
}

/// Substitution may be carried out bottom-up as soon as its result fits
/// the cached size, and it does not shrink the formula.
pub proof fn lemma_substitution_covers(ok: spec_fn(Tree) -> bool, b: Map<char, Tree>, t: Tree)
    requires
        t.valid(),
        forall|x: Tree| #![trigger ok(x)] atom_rule(x, b).count() <= usize::MAX ==> ok(x),
        substituted(t, b).count() <= usize::MAX,
    ensures
        covers(ok, substitute_rule(b), t),
        substituted(t, b).count() >= t.count(),
    decreases t,
{
    lemma_valid_form(t);
    let node = rebuilt(substitute_rule(b), t);
    if t.root is Binary {
        assert(atom_rule(node, b) == node);
        lemma_substitution_covers(ok, b, t.l());
        lemma_substitution_covers(ok, b, t.r());
    } else if t.root is Unary {
        assert(atom_rule(node, b) == node);
        lemma_substitution_covers(ok, b, t.r());
    } else {
        assert(node == t);
    }
}

/// Substituting valid formulas into a valid formula gives a valid formula.
pub proof fn lemma_substituted_valid(t: Tree, b: Map<char, Tree>)
    requires
        t.valid(),
        binds_valid(b),
    ensures
        substituted(t, b).valid(),
    decreases t,
{
    lemma_valid_form(t);
    if t.left is Some {
        lemma_substituted_valid(t.l(), b);
    }
    if t.right is Some {
        lemma_substituted_valid(t.r(), b);
    }
}

/// What a substitution puts for an atom: what the atom is bound to, or the
/// atom itself where it is not bound.
pub open spec fn put_for(b: Map<char, Tree>, x: char) -> Tree {
    if b.dom().contains(x) {
        b[x]
    } else {
        Tree::leaf(x)
    }
}

/// `more` binds every atom that `b` binds, and to the same.
pub open spec fn keeps(more: Map<char, Tree>, b: Map<char, Tree>) -> bool {
    forall|x: char| #[trigger] b.dom().contains(x) ==> more.dom().contains(x) && more[x] == b[x]
}

/// Every binding of `b` is valid.
pub open spec fn binds_valid(b: Map<char, Tree>) -> bool {
    forall|x: char| #[trigger] b.dom().contains(x) ==> b[x].valid()
}

/// Every binding of `b` is what `s` puts for the same atom.
pub open spec fn agrees_with(b: Map<char, Tree>, s: Map<char, Tree>) -> bool {
    forall|x: char| #[trigger] b.dom().contains(x) ==> b[x] == put_for(s, x)
}

/// Substitution into a valid formula, one level at a time.
pub proof fn lemma_substituted_step(t: Tree, b: Map<char, Tree>)
    requires
        t.valid(),
    ensures
        t.root matches Symbol::Atom(x) ==> substituted(t, b) == put_for(b, x),
        t.root is Unary ==> substituted(t, b) == Tree::not(substituted(t.r(), b)),
        t.root is Binary ==> substituted(t, b) == Tree::bin(
            t.op(),
            substituted(t.l(), b),
            substituted(t.r(), b),
        ),
{
    lemma_valid_form(t);
    let node = rebuilt(substitute_rule(b), t);
    assert(substituted(t, b) == atom_rule(node, b));
}

/// Where matching succeeds, the bindings it ends with keep those it began
/// with, bind valid trees only, bind every atom of the schema, and turn the
/// schema into the candidate.
pub proof fn lemma_matching_sound(c: Tree, a: Tree, b: Map<char, Tree>)
    requires
        c.valid(),
        a.valid(),
        binds_valid(b),
        matching(c, a, b) is Some,
    ensures
        keeps(matching(c, a, b)->0, b),
        binds_valid(matching(c, a, b)->0),
        substituted(a, matching(c, a, b)->0) == c,
        bound_in(a, matching(c, a, b)->0),
    decreases a,
{
    let after = matching(c, a, b)->0;
    lemma_valid_form(a);
    lemma_valid_form(c);
    lemma_substituted_step(a, after);
    match a.root {
        Symbol::Atom(x) => {
            if b.dom().contains(x) {
                lemma_same_is_equal(c, b[x]);
            }
        },
        Symbol::Unary(_) => {
            lemma_matching_sound(c.r(), a.r(), b);
        },
        Symbol::Binary(_) => {
            let b1 = matching(c.l(), a.l(), b)->0;
            lemma_matching_sound(c.l(), a.l(), b);
            lemma_matching_sound(c.r(), a.r(), b1);
            lemma_substituted_same(a.l(), b1, after);
            lemma_bound_in_more(a.l(), b1, after);
        },
        _ => {},
    }
}

/// Every atom of `t` is bound in `b`.
pub open spec fn bound_in(t: Tree, b: Map<char, Tree>) -> bool
    decreases t,
{
    &&& t.root matches Symbol::Atom(x) ==> b.dom().contains(x)
    &&& t.left matches Some(l) ==> bound_in(*l, b)
    &&& t.right matches Some(r) ==> bound_in(*r, b)
}

/// What is bound stays bound in bindings that keep it.
pub proof fn lemma_bound_in_more(t: Tree, b: Map<char, Tree>, more: Map<char, Tree>)
    requires
        bound_in(t, b),
        keeps(more, b),
    ensures
        bound_in(t, more),
    decreases t,
{
    if t.left is Some {
        lemma_bound_in_more(t.l(), b, more);
    }
    if t.right is Some {
        lemma_bound_in_more(t.r(), b, more);
    }
}

/// Two substitutions that put the same for every atom bound in the first
/// give the same, on a formula all of whose atoms the first binds.
pub proof fn lemma_substituted_same(t: Tree, b: Map<char, Tree>, more: Map<char, Tree>)
    requires
        t.valid(),
        bound_in(t, b),
        keeps(more, b),
    ensures
        substituted(t, more) == substituted(t, b),
    decreases t,
{
    lemma_valid_form(t);
    lemma_substituted_step(t, b);
    lemma_substituted_step(t, more);
    if t.left is Some {
        lemma_substituted_same(t.l(), b, more);
    }
    if t.right is Some {
        lemma_substituted_same(t.r(), b, more);
    }
}

/// Where some substitution turns the schema into the candidate and puts for
/// every atom bound so far what it is bound to, matching succeeds, and the
/// same holds of the bindings it ends with.
pub proof fn lemma_matching_complete(c: Tree, a: Tree, b: Map<char, Tree>, s: Map<char, Tree>)
    requires
        a.valid(),
        substituted(a, s) == c,
        agrees_with(b, s),
    ensures
        matching(c, a, b) is Some,
        agrees_with(matching(c, a, b)->0, s),
    decreases a,
{
    lemma_valid_form(a);
    lemma_substituted_step(a, s);
    match a.root {
        Symbol::Atom(x) => {
            if b.dom().contains(x) {
                assert(b[x] == put_for(s, x));
            }
        },
        Symbol::Unary(_) => {
            lemma_matching_complete(c.r(), a.r(), b, s);
        },
        Symbol::Binary(_) => {
            lemma_matching_complete(c.l(), a.l(), b, s);
            lemma_matching_complete(c.r(), a.r(), matching(c.l(), a.l(), b)->0, s);
        },
        _ => {},
    }
}

/// A valid formula is an instance of a valid schema exactly when some
/// substitution of formulas for the atoms of the schema gives the formula.
pub proof fn lemma_instance(c: Tree, a: Tree)
    requires
        c.valid(),
        a.valid(),
    ensures
        instance_of(c, a) <==> exists|s: Map<char, Tree>| substituted(a, s) == c,
{
    let none = Map::<char, Tree>::empty();
    if instance_of(c, a) {
        lemma_matching_sound(c, a, none);
        assert(substituted(a, matching(c, a, none)->0) == c);
    }
    if exists|s: Map<char, Tree>| substituted(a, s) == c {
        let s = choose|s: Map<char, Tree>| substituted(a, s) == c;
        lemma_matching_complete(c, a, none, s);
    }
}

/// The key under which an atom is kept in a table of bindings.
pub fn atom_key(c: char) -> (k: u32)
    ensures
        k == key_of(c),
{
    c as u32
}

impl PropFormula {
    /// Replaces an atom that the table binds by a copy of what it is bound
    /// to; any other formula is returned as it is.
    pub fn instantiate_atom(self, atomic_formulas: &HashMap<u32, PropFormula>) -> (out: Self)
        requires
            self.wf(),
            forall|k: u32| atomic_formulas@.dom().contains(k) ==> #[trigger] atomic_formulas@[k].wf(),
        ensures
            out.wf(),
            out@ == atom_rule(self@, bound(atomic_formulas@)),
    {
        broadcast use vstd::std_specs::hash::group_hash_axioms;

        let mut formula = self;
        if let Symbol::Atom(a) = formula.root() {
            let key = atom_key(a);
            if atomic_formulas.contains_key(&key) {
                let bound_to = atomic_formulas.get(&key).unwrap();
                formula = formula.reassign(bound_to.clone());
            }
        }
        formula
    }

    /// Puts formulas for atoms: every atom that the table binds is replaced
    /// by a copy of its own of what it is bound to.
    pub fn instantiate(&self, atomic_formulas: HashMap<u32, PropFormula>) -> (out: Self)
        requires
            self.wf(),
            self@.valid(),
            forall|k: u32| atomic_formulas@.dom().contains(k) ==> #[trigger] atomic_formulas@[k].wf(),
            substituted(self@, bound(atomic_formulas@)).count() <= usize::MAX,
        ensures
            out.wf(),
            out@ == substituted(self@, bound(atomic_formulas@)),
            binds_valid(bound(atomic_formulas@)) ==> out@.valid(),
    {
        let ghost b = bound(atomic_formulas@);
        let ghost ok = |x: Tree| atom_rule(x, b).count() <= usize::MAX;
        proof {
            lemma_substitution_covers(ok, b, self@);
            if binds_valid(b) {
                lemma_substituted_valid(self@, b);
            }
        }
        let table = &atomic_formulas;
        let method = |f: PropFormula| -> (g: PropFormula)
            requires
                f.wf(),
                forall|k: u32| table@.dom().contains(k) ==> #[trigger] table@[k].wf(),
            ensures
                g.wf(),
                g@ == atom_rule(f@, bound(table@)),
            { f.instantiate_atom(table) };
        self.clone().subtree_recurse(&method, Ghost(ok), Ghost(substitute_rule(b)))
    }

    /// Matches `self` against `schema`, node by node, binding each atom of
    /// the schema where it is first met. A binding once made is never
    /// replaced, whether the matching succeeds or not.
    pub fn match_traverse<'a>(
        &'a self,
        schema: &PropFormula,
        atomic_formulas: &mut HashMap<u32, &'a PropFormula>,
    ) -> (r: bool)
        ensures
            r == (matching(self@, schema@, bound(old(atomic_formulas)@)) is Some),
            r ==> Some(bound(final(atomic_formulas)@)) == matching(
                self@,
                schema@,
                bound(old(atomic_formulas)@),
            ),
            bound(final(atomic_formulas)@) == table_after(
                self@,
                schema@,
                bound(old(atomic_formulas)@),
            ),
            keeps(bound(final(atomic_formulas)@), bound(old(atomic_formulas)@)),
            forall|k: u32| #[trigger]
                old(atomic_formulas)@.contains_key(k) ==> final(atomic_formulas)@.contains_key(k)
                    && final(atomic_formulas)@[k] == old(atomic_formulas)@[k],
            schema@.root matches Symbol::Atom(x) ==> final(atomic_formulas)@ == (if old(
                atomic_formulas,
            )@.contains_key(key_of(x)) {
                old(atomic_formulas)@
            } else {
                old(atomic_formulas)@.insert(key_of(x), self)
            }),
        decreases schema@,
    {
        broadcast use vstd::std_specs::hash::group_hash_axioms;

        let ghost before = bound(atomic_formulas@);
        proof {
            lemma_table_after(self@, schema@, before);
        }
        if let Symbol::Atom(a) = schema.root() {
            let key = atom_key(a);
            if atomic_formulas.contains_key(&key) {
                let first = *atomic_formulas.get(&key).unwrap();
                *self == *first
            } else {
                atomic_formulas.insert(key, self);
                proof {
                    assert forall|c: char| #[trigger] key_of(c) == key implies c == a by {
                        vstd::utf8::char_u32_cast(c, key);
                        vstd::utf8::char_u32_cast(a, key);
                    }
                    assert(bound(atomic_formulas@) =~= before.insert(a, self@));
                }
                true
            }
        } else if self.root() != schema.root() {
            false
        } else {
            let c_left = self.has_child(false);
            let a_left = schema.has_child(false);
            let c_right = self.has_child(true);
            let a_right = schema.has_child(true);
            if c_left && a_left && c_right && a_right {
                self.get_child(false).match_traverse(schema.get_child(false), atomic_formulas)
                    && self.get_child(true).match_traverse(schema.get_child(true), atomic_formulas)
            } else if c_left && a_left && !c_right && !a_right {
                self.get_child(false).match_traverse(schema.get_child(false), atomic_formulas)
            } else if !c_left && !a_left && c_right && a_right {
                self.get_child(true).match_traverse(schema.get_child(true), atomic_formulas)
            } else {
                false
            }
        }
    }

    /// Whether `self` arises from `schema` by putting formulas for
    /// its atoms, the same formula for the same atom.
    pub fn is_instance(&self, schema: &PropFormula) -> (r: bool)
        ensures
            r == instance_of(self@, schema@),
            self@.valid() && schema@.valid() ==> (r <==> exists|s: Map<char, Tree>|
                substituted(schema@, s) == self@),
    {
        proof {
            if self@.valid() && schema@.valid() {
                lemma_instance(self@, schema@);
            }
        }
        let mut bindings: HashMap<u32, &PropFormula> = HashMap::new();
        assert(bound(bindings@) =~= Map::<char, Tree>::empty());
        self.match_traverse(schema, &mut bindings)
    }

    /// The symmetry axiom, `a → (b → a)`.
    pub fn symmetry() -> (out: Self)
        ensures
            out.wf(),
            out@ == symmetry_axiom(),
    {
        broadcast use group_tree;

        PropFormula::new('A').combine(
            BinaryOp::Implies,
            PropFormula::new('B').combine(BinaryOp::Implies, PropFormula::new('A')),
        )
    }

    /// The distribution axiom, `(a → (b → c)) → ((a → b) → (b → c))`.
    pub fn distribution() -> (out: Self)
        ensures
            out.wf(),
            out@ == distribution_axiom(),
    {
        broadcast use group_tree;

        let ab = PropFormula::new('A').combine(BinaryOp::Implies, PropFormula::new('B'));
        let bc1 = PropFormula::new('B').combine(BinaryOp::Implies, PropFormula::new('C'));
        let bc2 = bc1.clone();
        PropFormula::new('A').combine(BinaryOp::Implies, bc1).combine(
            BinaryOp::Implies,
            ab.combine(BinaryOp::Implies, bc2),
        )
    }

    /// The contraposition axiom, `(a → b) → (¬b → ¬a)`.
    pub fn contraposition() -> (out: Self)
        ensures
            out.wf(),
            out@ == contraposition_axiom(),
    {
        broadcast use group_tree;

        let ab = PropFormula::new('A').combine(BinaryOp::Implies, PropFormula::new('B'));
        let ba = PropFormula::new('B').combine(BinaryOp::Implies, PropFormula::new('A'));
        let negated = ba.possess_children(PropFormula::negate, PropFormula::negate);
        ab.combine(BinaryOp::Implies, negated)
    }
}

} // verus!
