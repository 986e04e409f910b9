//! Formulas made at random, for trying the library on many inputs.
//!
//! The random numbers come from the `rand` crate. What it hands back is
//! taken as it comes: the contracts here hold of every outcome.

use vstd::prelude::*;
use rand::rngs::StdRng;
use rand::seq::SliceRandom;
use rand::{Rng, SeedableRng};
use crate::error::AtomError;
use crate::formula::PropFormula;
use crate::symbol::{BinaryOp, Symbol};
use crate::tree::{group_tree, Tree};

verus! {

/// `rand::rngs::StdRng`, the standard generator of `rand`. Nothing is known
/// of its state.
#[verifier::external_type_specification]
#[verifier::external_body]
pub struct ExStdRng(StdRng);

/// `SeedableRng::from_rng` on `rand::thread_rng()`: a generator seeded from
/// the thread's own. The thread's generator never refuses to fill a seed,
/// so the seeding succeeds; the thread's generator itself gives up only
/// where the operating system has no randomness for it.
#[verifier::external_body]
fn fresh_rng() -> StdRng {
    StdRng::from_rng(rand::thread_rng()).unwrap()
}

/// `Rng::gen_range` on the inclusive range from `low` to `high`, which must
/// not be empty: some number of that range.
#[verifier::external_body]
fn draw_between(rng: &mut StdRng, low: usize, high: usize) -> (n: usize)
    requires
        low <= high,
    ensures
        low <= n <= high,
{
    rng.gen_range(low..=high)
}

/// `Rng::gen_ratio`: true with the chance `numerator / denominator`, which
/// must be a chance. Nothing is promised of a single outcome.
#[verifier::external_body]
fn draw_chance(rng: &mut StdRng, numerator: u32, denominator: u32) -> bool
    requires
        0 < denominator,
        numerator <= denominator,
{
    rng.gen_ratio(numerator, denominator)
}

/// `rand::random`: some number. Nothing is promised of it.
#[verifier::external_body]
fn draw_number() -> usize {
    rand::random::<usize>()
}

/// `SliceRandom::choose` with the thread's generator: one of the given
/// characters, and none only where none is given.
#[verifier::external_body]
fn draw_one(choice: &Vec<char>) -> (r: Option<char>)
    ensures
        r is None <==> choice@.len() == 0,
        r matches Some(c) ==> choice@.contains(c),
{
    choice.choose(&mut rand::thread_rng()).copied()
}

/// Whether the character is a capital ASCII letter.
pub open spec fn is_capital(c: char) -> bool {
    'A' <= c && c <= 'Z'
}

/// The capital letter with the given number, counted from `A` and taken
/// modulo 26.
pub open spec fn capital(i: int) -> char {
    ((65 + i % 26) as u8) as char
}

/// The connective with the given number: 1 for `∧`, 2 for `∨`, 3 for `→`,
/// anything else for `↔`.
pub open spec fn connective(k: int) -> BinaryOp {
    if k == 1 {
        BinaryOp::And
    } else if k == 2 {
        BinaryOp::Or
    } else if k == 3 {
        BinaryOp::Implies
    } else {
        BinaryOp::Iff
    }
}

/// What `steps` steps can build from a capital atom, where a step negates
/// the formula or joins a capital atom to its right.
pub open spec fn built(t: Tree, steps: nat) -> bool
    decreases t,
{
    match t.root {
        Symbol::Atom(c) => is_capital(c) && t.left is None && t.right is None && steps == 0,
        Symbol::Unary(_) => t.left is None && t.right is Some && steps > 0 && built(
            t.r(),
            (steps - 1) as nat,
        ),
        Symbol::Binary(_) => t.left is Some && t.right is Some && steps > 0 && built(
            t.l(),
            (steps - 1) as nat,
        ) && built(t.r(), 0),
        _ => false,
    }
}

/// What is built is valid, and has at most two nodes for each step besides
/// the first atom.
pub proof fn lemma_built(t: Tree, steps: nat)
    requires
        built(t, steps),
    ensures
        t.valid(),
        steps < t.count() <= 1 + 2 * steps,
    decreases t,
{
    if t.root is Unary {
        lemma_built(t.r(), (steps - 1) as nat);
    } else if t.root is Binary {
        lemma_built(t.l(), (steps - 1) as nat);
        lemma_built(t.r(), 0);
    }
}

/// The capital letter with the given number.
pub fn letter_from(i: usize) -> (c: char)
    ensures
        c == capital(i as int),
        is_capital(c),
{
    let offset: u8 = (i % 26) as u8;
    (65u8 + offset) as char
}

/// The connective with the given number.
pub fn connective_from(k: usize) -> (op: BinaryOp)
    ensures
        op == connective(k as int),
{
    match k {
        1 => BinaryOp::And,
        2 => BinaryOp::Or,
        3 => BinaryOp::Implies,
        _ => BinaryOp::Iff,
    }
}

impl PropFormula {
    /// An atom named by a capital letter drawn at random.
    pub fn random_atom() -> (out: PropFormula)
        ensures
            out.wf(),
            built(out@, 0),
            out@.count() == 1,
    {
        PropFormula::new(letter_from(draw_number()))
    }

    /// A formula made at random: from a random atom, by a random number of
    /// steps between 1 and `max_iter`, each of which negates the formula,
    /// one time in five, or joins a random atom to its right by a random
    /// connective.
    pub fn generate(max_iter: Option<usize>) -> (out: Self)
        requires
            max_iter matches Some(most) && 1 <= most <= (usize::MAX - 1) / 2,
        ensures
            out.wf(),
            out@.valid(),
            out@.count() <= 1 + 2 * max_iter->0,
            exists|steps: nat| 1 <= steps <= max_iter->0 && built(out@, steps),
    {
        let most: usize = max_iter.unwrap();
        let mut rng = fresh_rng();
        let num_iter: usize = draw_between(&mut rng, 1, most);
        let mut formula = PropFormula::random_atom();
        let mut done: usize = 0;
        while done < num_iter
            invariant
                done <= num_iter <= (usize::MAX - 1) / 2,
                formula.wf(),
                built(formula@, done as nat),
            decreases num_iter - done,
        {
            proof {
                broadcast use group_tree;

                lemma_built(formula@, done as nat);
            }
            if draw_chance(&mut rng, 1, 5) {
                formula = formula.negate();
            } else {
                let bin = connective_from(draw_between(&mut rng, 1, 4));
                formula = formula.combine(bin, PropFormula::random_atom());
            }
            done += 1;
        }
        proof {
            lemma_built(formula@, done as nat);
        }
        formula
    }

    /// An atomic formula: one drawn from `atoms` where `random` is set, else
    /// one named by the first character of `atom`.
    pub fn new_atom(random: bool, atom: Option<&str>, atoms: Option<Vec<char>>) -> (r: Result<
        Self,
        AtomError,
    >)
        ensures
            if random {
                match atoms {
                    None => r == Err::<Self, AtomError>(AtomError::NoChoice),
                    Some(choice) => if choice@.len() == 0 {
                        r == Err::<Self, AtomError>(AtomError::EmptyChoice)
                    } else {
                        r is Ok && r->Ok_0.wf() && exists|c: char|
                            choice@.contains(c) && r->Ok_0@ == Tree::leaf(c)
                    },
                }
            } else {
                match atom {
                    Some(name) => if name@.len() > 0 {
                        r is Ok && r->Ok_0.wf() && r->Ok_0@ == Tree::leaf(name@[0])
                    } else {
                        r == Err::<Self, AtomError>(AtomError::NoName)
                    },
                    None => r == Err::<Self, AtomError>(AtomError::NoName),
                }
            },
    {
        broadcast use vstd::string::group_string_axioms;

        if random {
            match atoms {
                Some(choice) => match draw_one(&choice) {
                    Some(c) => Ok(PropFormula::new(c)),
                    None => Err(AtomError::EmptyChoice),
                },
                None => Err(AtomError::NoChoice),
            }
        } else {
            match atom {
                Some(name) => match name.chars().next() {
                    Some(c) => Ok(PropFormula::new(c)),
                    None => Err(AtomError::NoName),
                },
                None => Err(AtomError::NoName),
            }
        }
    }
}

} // verus!
