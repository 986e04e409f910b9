//! The subformulas of a formula, and the largest one that two formulas
//! share.

use vstd::prelude::*;
use crate::formula::PropFormula;
use crate::tree::{lemma_same_is_equal, lemma_within, lemma_within_trans, Tree};

verus! {

/// The larger of two trees, the first where they are of one size; `None`
/// where there is neither.
pub open spec fn larger(x: Option<Tree>, y: Option<Tree>) -> Option<Tree> {
    match (x, y) {
        (None, None) => None,
        (Some(a), None) => Some(a),
        (None, Some(b)) => Some(b),
        (Some(a), Some(b)) => if b.count() > a.count() {
            Some(b)
        } else {
            Some(a)
        },
    }
}

/// The trees of a row of formulas.
pub open spec fn views(v: Seq<PropFormula>) -> Seq<Tree> {
    Seq::new(v.len(), |i: int| v[i]@)
}

/// Every formula of the row is well-formed and valid.
pub open spec fn sound(v: Seq<PropFormula>) -> bool {
    forall|i: int| 0 <= i < v.len() ==> (#[trigger] v[i]).wf() && v[i]@.valid()
}

/// A walk over `t` that records what it sees, each tree once. A tree that
/// `seen` holds is not entered; it is itself the find. Any other tree is
/// added to `seen` and its children are walked, the left one first; the
/// find is the larger of theirs. The result is what has been seen after the
/// walk, and the find.
pub open spec fn traversed(t: Tree, seen: Seq<Tree>) -> (Seq<Tree>, Option<Tree>)
    decreases t,
{
    if seen.contains(t) {
        (seen, Some(t))
    } else {
        let s0 = seen.push(t);
        let (s1, l) = match t.left {
            Some(c) => traversed(*c, s0),
            None => (s0, None),
        };
        let (s2, r) = match t.right {
            Some(c) => traversed(*c, s1),
            None => (s1, None),
        };
        (s2, larger(l, r))
    }
}

/// The largest tree within `t` that `seen` holds, the leftmost of several of
/// one size.
pub open spec fn largest_held(t: Tree, seen: Seq<Tree>) -> Option<Tree>
    decreases t,
{
    if seen.contains(t) {
        Some(t)
    } else {
        larger(
            match t.left {
                Some(c) => largest_held(*c, seen),
                None => None,
            },
            match t.right {
                Some(c) => largest_held(*c, seen),
                None => None,
            },
        )
    }
}

/// The largest tree within `b` that also lies within `a`, the leftmost of
/// several of one size.
pub open spec fn common_best(b: Tree, a: Tree) -> Option<Tree>
    decreases b,
{
    if b.within(a) {
        Some(b)
    } else {
        larger(
            match b.left {
                Some(c) => common_best(*c, a),
                None => None,
            },
            match b.right {
                Some(c) => common_best(*c, a),
                None => None,
            },
        )
    }
}

/// The size of the largest subformula that `a` and `b` share; 0 where they
/// share none.
pub open spec fn lcs_size(a: Tree, b: Tree) -> nat {
    match common_best(b, a) {
        Some(t) => t.count(),
        None => 0,
    }
}

/// Whatever of `t` the row `seen` holds, it holds with all that lies
/// within.
pub open spec fn settled(seen: Seq<Tree>, t: Tree) -> bool {
    forall|s: Tree, u: Tree|
        s.within(t) && #[trigger] seen.contains(s) && #[trigger] u.within(s) ==> seen.contains(u)
}

/// After the walk over `t`, the row holds what it held before and all that
/// lies within `t`, and nothing else.
pub proof fn lemma_traversed(t: Tree, seen: Seq<Tree>)
    requires
        settled(seen, t),
    ensures
        forall|x: Tree|
            #[trigger] traversed(t, seen).0.contains(x) <==> seen.contains(x) || x.within(t),
    decreases t,
{
    let after = traversed(t, seen).0;
    if seen.contains(t) {
        assert(after == seen);
        assert forall|x: Tree| x.within(t) implies seen.contains(x) by {
            assert(t.within(t));
        }
    } else {
        let s0 = seen.push(t);
        assert forall|x: Tree| #[trigger] s0.contains(x) <==> seen.contains(x) || x == t by {
            if seen.contains(x) {
                let i = choose|i: int| 0 <= i < seen.len() && seen[i] == x;
                assert(s0[i] == x);
            }
            if x == t {
                assert(s0[seen.len() as int] == t);
            }
        }
        let s1 = match t.left {
            Some(c) => traversed(*c, s0).0,
            None => s0,
        };
        if t.left is Some {
            let l = t.l();
            assert forall|s: Tree, u: Tree|
                s.within(l) && #[trigger] s0.contains(s) && #[trigger] u.within(s) implies s0.contains(
                u,
            ) by {
                lemma_within(s, l);
                assert(s != t);
                assert(s.within(t));
            }
            lemma_traversed(l, s0);
            assert(s1 == traversed(l, s0).0);
        }
        assert forall|x: Tree| #[trigger] s1.contains(x) <==> s0.contains(x) || (t.left is Some
            && x.within(t.l())) by {
            if t.left is Some {
                assert(traversed(t.l(), s0).0.contains(x) <==> s0.contains(x) || x.within(t.l()));
            }
        }
        let s2 = match t.right {
            Some(c) => traversed(*c, s1).0,
            None => s1,
        };
        if t.right is Some {
            let r = t.r();
            assert forall|s: Tree, u: Tree|
                s.within(r) && #[trigger] s1.contains(s) && #[trigger] u.within(s) implies s1.contains(
                u,
            ) by {
                lemma_within(s, r);
                assert(s != t);
                assert(s.within(t));
                if s0.contains(s) {
                    assert(seen.contains(s));
                    assert(seen.contains(u));
                    assert(s0.contains(u));
                } else {
                    lemma_within_trans(u, s, t.l());
                }
            }
            lemma_traversed(r, s1);
            assert(s2 == traversed(r, s1).0);
        }
        assert(after == s2);
        assert forall|x: Tree| #[trigger] after.contains(x) <==> seen.contains(x) || x.within(
            t,
        ) by {
            if t.right is Some {
                assert(traversed(t.r(), s1).0.contains(x) <==> s1.contains(x) || x.within(t.r()));
            }
            assert(s1.contains(x) <==> s0.contains(x) || (t.left is Some && x.within(t.l())));
            assert(s0.contains(x) <==> seen.contains(x) || x == t);
        }
    }
}

/// The walk records nothing twice: a row without repetitions has none
/// after the walk either.
pub proof fn lemma_traversed_distinct(t: Tree, seen: Seq<Tree>)
    requires
        seen.no_duplicates(),
    ensures
        traversed(t, seen).0.no_duplicates(),
    decreases t,
{
    if !seen.contains(t) {
        let s0 = seen.push(t);
        assert(s0.no_duplicates()) by {
            assert forall|i: int, j: int| 0 <= i < s0.len() && 0 <= j < s0.len() && i != j implies s0[i]
                != s0[j] by {
                if i == seen.len() {
                    assert(seen[j] == s0[j]);
                } else if j == seen.len() {
                    assert(seen[i] == s0[i]);
                }
            }
        }
        let s1 = match t.left {
            Some(c) => traversed(*c, s0).0,
            None => s0,
        };
        if t.left is Some {
            lemma_traversed_distinct(t.l(), s0);
        }
        if t.right is Some {
            lemma_traversed_distinct(t.r(), s1);
        }
    }
}

/// Against a row that holds exactly what lies within `a`, the largest tree
/// held within `b` is the largest that `a` and `b` share.
pub proof fn lemma_largest_held(b: Tree, a: Tree, seen: Seq<Tree>)
    requires
        forall|x: Tree| #[trigger] seen.contains(x) <==> x.within(a),
    ensures
        largest_held(b, seen) == common_best(b, a),
    decreases b,
{
    if b.left is Some {
        lemma_largest_held(b.l(), a, seen);
    }
    if b.right is Some {
        lemma_largest_held(b.r(), a, seen);
    }
}

/// The best common tree lies within both formulas.
pub proof fn lemma_common_best_within(b: Tree, a: Tree)
    ensures
        common_best(b, a) matches Some(s) ==> s.within(b) && s.within(a),
    decreases b,
{
    if !b.within(a) {
        if b.left is Some {
            lemma_common_best_within(b.l(), a);
        }
        if b.right is Some {
            lemma_common_best_within(b.r(), a);
        }
    }
}

/// No tree that lies within both formulas is larger than the best common
/// one.
pub proof fn lemma_common_best_most(s: Tree, b: Tree, a: Tree)
    requires
        s.within(b),
        s.within(a),
    ensures
        s.count() <= lcs_size(a, b),
    decreases b,
{
    if b.within(a) {
        lemma_within(s, b);
    } else {
        if b.left is Some && s.within(b.l()) {
            lemma_common_best_most(s, b.l(), a);
        } else {
            lemma_common_best_most(s, b.r(), a);
        }
    }
}

/// The size of the largest common subformula does not depend on the order
/// of the two formulas, and two formulas of the same structure share all of
/// it.
pub proof fn lemma_lcs_symmetric(a: Tree, b: Tree)
    ensures
        lcs_size(a, b) == lcs_size(b, a),
        a == b ==> lcs_size(a, b) == a.count(),
{
    lemma_common_best_within(b, a);
    lemma_common_best_within(a, b);
    match common_best(b, a) {
        Some(s) => {
            lemma_common_best_most(s, a, b);
        },
        None => {},
    }
    match common_best(a, b) {
        Some(s) => {
            lemma_common_best_most(s, b, a);
        },
        None => {},
    }
    if a == b {
        assert(b.within(a));
    }
}

/// Whether the row holds a formula equal to `f`.
pub fn holds_formula(seen: &Vec<PropFormula>, f: &PropFormula) -> (r: bool)
    requires
        sound(seen@),
        f@.valid(),
    ensures
        r == views(seen@).contains(f@),
{
    let mut i: usize = 0;
    while i < seen.len()
        invariant
            i <= seen.len(),
            sound(seen@),
            f@.valid(),
            forall|k: int| 0 <= k < i ==> views(seen@)[k] != f@,
        decreases seen.len() - i,
    {
        if seen[i] == *f {
            proof {
                lemma_same_is_equal(seen[i as int]@, f@);
                assert(views(seen@)[i as int] == f@);
            }
            return true;
        }
        i += 1;
    }
    false
}

impl PropFormula {
    /// Walks the formula and records every subformula not seen before. A
    /// subformula that has been seen is not entered. The find is the
    /// largest subformula met that had been seen before, the leftmost of
    /// several of one size.
    pub fn subformula_traverse(&self, subformulas: &mut Vec<PropFormula>) -> (found: Option<&Self>)
        requires
            self.wf(),
            self@.valid(),
            sound(old(subformulas)@),
        ensures
            sound(final(subformulas)@),
            views(final(subformulas)@) == traversed(self@, views(old(subformulas)@)).0,
            views(old(subformulas)@).no_duplicates() ==> views(final(subformulas)@).no_duplicates(),
            match found {
                Some(f) => f.wf() && traversed(self@, views(old(subformulas)@)).1 == Some(f@),
                None => traversed(self@, views(old(subformulas)@)).1 is None,
            },
        decreases self@,
    {
        proof {
            if views(subformulas@).no_duplicates() {
                lemma_traversed_distinct(self@, views(subformulas@));
            }
        }
        if holds_formula(subformulas, self) {
            return Some(self);
        }
        let ghost s0 = views(subformulas@).push(self@);
        subformulas.push(self.clone());
        assert(views(subformulas@) =~= s0);
        let left = if self.has_child(false) {
            self.get_child(false).subformula_traverse(subformulas)
        } else {
            None
        };
        let right = if self.has_child(true) {
            self.get_child(true).subformula_traverse(subformulas)
        } else {
            None
        };
        match (left, right) {
            (None, None) => None,
            (Some(f), None) => Some(f),
            (None, Some(f)) => Some(f),
            (Some(f1), Some(f2)) => {
                if f2.size() > f1.size() {
                    Some(f2)
                } else {
                    Some(f1)
                }
            },
        }
    }

    /// The largest subformula that the row holds, the leftmost of several
    /// of one size.
    pub fn largest_known<'a>(&'a self, subformulas: &Vec<PropFormula>) -> (found: Option<&'a Self>)
        requires
            self.wf(),
            self@.valid(),
            sound(subformulas@),
        ensures
            match found {
                Some(f) => f.wf() && largest_held(self@, views(subformulas@)) == Some(f@),
                None => largest_held(self@, views(subformulas@)) is None,
            },
        decreases self@,
    {
        if holds_formula(subformulas, self) {
            return Some(self);
        }
        let left = if self.has_child(false) {
            self.get_child(false).largest_known(subformulas)
        } else {
            None
        };
        let right = if self.has_child(true) {
            self.get_child(true).largest_known(subformulas)
        } else {
            None
        };
        match (left, right) {
            (None, None) => None,
            (Some(f), None) => Some(f),
            (None, Some(f)) => Some(f),
            (Some(f1), Some(f2)) => {
                if f2.size() > f1.size() {
                    Some(f2)
                } else {
                    Some(f1)
                }
            },
        }
    }

    /// The size of the largest subformula that two formulas share; 0 where
    /// they share none.
    pub fn largest_common_subformula(first: &PropFormula, second: &PropFormula) -> (n: usize)
        requires
            first.wf(),
            first@.valid(),
            second.wf(),
            second@.valid(),
        ensures
            n == lcs_size(first@, second@),
    {
        let mut hashed: Vec<PropFormula> = Vec::new();
        first.subformula_traverse(&mut hashed);
        proof {
            let none = Seq::<Tree>::empty();
            assert(views(Seq::<PropFormula>::empty()) =~= none);
            lemma_traversed(first@, none);
            lemma_largest_held(second@, first@, views(hashed@));
        }
        match second.largest_known(&hashed) {
            Some(f) => f.size(),
            None => 0,
        }
    }
}

} // verus!
