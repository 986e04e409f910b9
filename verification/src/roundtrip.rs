//! Printing and reading agree: the text of a valid formula reads back as the
//! formula itself.

use vstd::prelude::*;
use crate::error::{SymbolParseError, ValidationError};
use crate::parse::{
    closes_at, is_letter, is_pivot, join, lemma_closing_unique, lemma_net_concat, lemma_net_one,
    lemma_pivot_unique, negated, net, parse, parse_text, scanned, symbol_of, tokens, top, unopened, weight,
};
use crate::random::{built, lemma_built};
use crate::symbol::{is_connective, rank, symbol_text, BinaryOp, Symbol, UnaryOp};
use crate::tree::{lemma_valid_form, render, wrapped, Tree};

verus! {

/// Every parenthesis of `s` has its partner: as many are closed as are
/// opened, and at no point more.
pub open spec fn balanced(s: Seq<Symbol>) -> bool {
    &&& net(s) == 0
    &&& forall|k: int| 0 <= k <= s.len() ==> net(#[trigger] s.take(k)) >= 0
}

/// No connective of `s` outside parentheses binds weaker than `floor`.
pub open spec fn tops_at_least(s: Seq<Symbol>, floor: int) -> bool {
    forall|j: int| #[trigger] top(s, j) ==> rank(s[j]) >= floor
}

/// Every atom of `s` is named by an ASCII letter.
pub open spec fn lettered(s: Seq<Symbol>) -> bool {
    forall|i: int| 0 <= i < s.len() ==> (#[trigger] s[i] matches Symbol::Atom(c) ==> is_letter(c))
}

/// Every atom of `t` is named by an ASCII letter.
pub open spec fn atoms_lettered(t: Tree) -> bool
    decreases t,
{
    &&& t.root matches Symbol::Atom(c) ==> is_letter(c)
    &&& t.left matches Some(l) ==> atoms_lettered(*l)
    &&& t.right matches Some(r) ==> atoms_lettered(*r)
}

/// The net of a sequence is the net of a front part plus that of the rest.
pub proof fn lemma_net_split(s: Seq<Symbol>, k: int)
    requires
        0 <= k <= s.len(),
    ensures
        net(s) == net(s.take(k)) + net(s.skip(k)),
{
    assert(s =~= s.take(k) + s.skip(k));
    lemma_net_concat(s.take(k), s.skip(k));
}

/// In a balanced sequence no rest opens more than it closes.
pub proof fn lemma_balanced_rest(s: Seq<Symbol>, k: int)
    requires
        balanced(s),
        0 <= k <= s.len(),
    ensures
        net(s.skip(k)) <= 0,
{
    lemma_net_split(s, k);
}

/// A balanced sequence has no parenthesis left open.
pub proof fn lemma_balanced_closed(s: Seq<Symbol>)
    requires
        balanced(s),
    ensures
        !unopened(s),
{
    assert forall|i: int| 0 <= i < s.len() implies net(#[trigger] s.skip(i)) <= 0 by {
        lemma_balanced_rest(s, i);
    }
}

/// Two balanced sequences with a symbol that is no parenthesis between them
/// are balanced.
pub proof fn lemma_balanced_join(a: Seq<Symbol>, x: Symbol, b: Seq<Symbol>)
    requires
        balanced(a),
        balanced(b),
        weight(x) == 0,
    ensures
        balanced(a + seq![x] + b),
{
    let w = a + seq![x] + b;
    lemma_net_one(x);
    lemma_net_concat(a, seq![x]);
    lemma_net_concat(a + seq![x], b);
    assert forall|k: int| 0 <= k <= w.len() implies net(#[trigger] w.take(k)) >= 0 by {
        if k <= a.len() {
            assert(w.take(k) =~= a.take(k));
        } else {
            let rest = b.take(k - a.len() - 1);
            assert(w.take(k) =~= a + seq![x] + rest);
            lemma_net_concat(a + seq![x], rest);
        }
    }
}

/// A balanced sequence behind a symbol that is no parenthesis is balanced.
pub proof fn lemma_balanced_behind(x: Symbol, b: Seq<Symbol>)
    requires
        balanced(b),
        weight(x) == 0,
    ensures
        balanced(seq![x] + b),
{
    let none = Seq::<Symbol>::empty();
    assert(none.take(0) =~= none);
    assert(balanced(none)) by {
        assert forall|k: int| 0 <= k <= none.len() implies net(#[trigger] none.take(k)) >= 0 by {
            assert(none.take(k) =~= none);
        }
    }
    lemma_balanced_join(none, x, b);
    assert(none + seq![x] + b =~= seq![x] + b);
}

/// A balanced sequence between parentheses is balanced, the first
/// parenthesis has the last as its partner, and no connective of it stands
/// outside parentheses.
pub proof fn lemma_wrapped(c: Seq<Symbol>)
    requires
        balanced(c),
    ensures
        balanced(wrapped(c)),
        closes_at(wrapped(c), 0, c.len() as int + 1),
        forall|j: int| !#[trigger] top(wrapped(c), j),
{
    let w = wrapped(c);
    let open = seq![Symbol::Left];
    let close = seq![Symbol::Right];
    lemma_net_one(Symbol::Left);
    lemma_net_one(Symbol::Right);
    lemma_net_concat(open, c);
    lemma_net_concat(open + c, close);
    assert forall|k: int| 0 <= k <= w.len() implies net(#[trigger] w.take(k)) >= 0 by {
        if k == 0 {
            assert(w.take(0) =~= Seq::<Symbol>::empty());
        } else if k <= c.len() + 1 {
            assert(w.take(k) =~= open + c.take(k - 1));
            lemma_net_concat(open, c.take(k - 1));
        } else {
            assert(w.take(k) =~= w);
        }
    }
    assert(w.subrange(1, c.len() as int + 2) =~= c + close);
    lemma_net_concat(c, close);
    assert forall|k: int| 0 < k < c.len() + 1 implies net(#[trigger] w.subrange(1, k + 1))
        >= 0 by {
        assert(w.subrange(1, k + 1) =~= c.take(k));
    }
    assert forall|j: int| !#[trigger] top(w, j) by {
        if 0 < j < c.len() + 1 {
            assert(w.skip(j + 1) =~= c.skip(j) + close);
            lemma_net_concat(c.skip(j), close);
            lemma_balanced_rest(c, j);
        }
    }
}

/// The partner of the first parenthesis stays its partner when more symbols
/// follow.
pub proof fn lemma_closes_longer(a: Seq<Symbol>, rest: Seq<Symbol>, m: int)
    requires
        closes_at(a, 0, m),
    ensures
        closes_at(a + rest, 0, m),
{
    let w = a + rest;
    assert(w.subrange(1, m + 1) =~= a.subrange(1, m + 1));
    assert forall|k: int| 0 < k < m implies net(#[trigger] w.subrange(1, k + 1)) >= 0 by {
        assert(w.subrange(1, k + 1) =~= a.subrange(1, k + 1));
    }
}

/// What stands between parentheses is read as if they were not there.
pub proof fn lemma_parse_wrapped(c: Seq<Symbol>)
    requires
        balanced(c),
        c.len() >= 1,
    ensures
        parse(wrapped(c)) == parse(c),
{
    let w = wrapped(c);
    lemma_wrapped(c);
    lemma_closing_unique(w, 0, c.len() as int + 1);
    assert(w.subrange(1, w.len() - 1) =~= c);
    assert(w[0] == Symbol::Left);
}

/// A sequence of several symbols that is not one parenthesis pair around the
/// rest, and has none left open, is read by splitting it at its pivot.
pub proof fn lemma_parse_split(s: Seq<Symbol>, i: int)
    requires
        s.len() >= 2,
        s[0] == Symbol::Left ==> exists|m: int| closes_at(s, 0, m) && m < s.len() - 1,
        !unopened(s),
        is_pivot(s, i),
    ensures
        s[i] matches Symbol::Binary(b) ==> parse(s) == (if 0 < i < s.len() - 1 {
            join(b, parse(s.take(i)), parse(s.skip(i + 1)))
        } else {
            Err(ValidationError::Binary(b))
        }),
        s[i] matches Symbol::Unary(u) ==> parse(s) == (if i == 0 {
            negated(parse(s.skip(1)))
        } else {
            Err(ValidationError::Unary(u))
        }),
{
    lemma_pivot_unique(s, i);
    if s[0] == Symbol::Left {
        let m = choose|m: int| closes_at(s, 0, m) && m < s.len() - 1;
        lemma_closing_unique(s, 0, m);
    }
}

/// Where two sequences are joined by a connective, a connective of the
/// whole stands outside parentheses exactly where it does in its part,
/// provided the second part is balanced.
pub proof fn lemma_tops_join(a: Seq<Symbol>, x: Symbol, b: Seq<Symbol>, j: int)
    requires
        weight(x) == 0,
        net(b) == 0,
        0 <= j < a.len() + 1 + b.len(),
    ensures
        j < a.len() ==> top(a + seq![x] + b, j) == top(a, j),
        j == a.len() ==> top(a + seq![x] + b, j) == is_connective(x),
        j > a.len() ==> top(a + seq![x] + b, j) == top(b, j - a.len() - 1),
{
    let w = a + seq![x] + b;
    lemma_net_one(x);
    if j < a.len() {
        assert(w.skip(j + 1) =~= a.skip(j + 1) + (seq![x] + b));
        lemma_net_concat(a.skip(j + 1), seq![x] + b);
        lemma_net_concat(seq![x], b);
    } else if j == a.len() {
        assert(w.skip(j + 1) =~= b);
    } else {
        assert(w.skip(j + 1) =~= b.skip(j - a.len()));
    }
}

/// The symbols that a formula or one of its operands is written with: the
/// infix sequence, between parentheses where `wrap` is set.
pub open spec fn operand(x: Tree, wrap: bool) -> Seq<Symbol> {
    if wrap {
        wrapped(x.inorder())
    } else {
        x.inorder()
    }
}

/// What is known of the infix sequence of a valid formula, and of an
/// operand made of it: it is balanced, its connectives outside parentheses
/// bind no weaker than `floor`, its first parenthesis has a partner, and it
/// reads back as the formula.
pub open spec fn reads_back(o: Seq<Symbol>, x: Tree, floor: int) -> bool {
    &&& o.len() >= 1
    &&& balanced(o)
    &&& tops_at_least(o, floor)
    &&& parse(o) == Ok::<Tree, ValidationError>(x)
    &&& o[0] == Symbol::Left ==> exists|m: int| closes_at(o, 0, m)
}

/// Where `r` reads back as `x`, a negation sign before `r` reads back as
/// the negation of `x`.
pub proof fn lemma_read_negation(r: Seq<Symbol>, x: Tree)
    requires
        reads_back(r, x, 4),
    ensures
        reads_back(seq![Symbol::Unary(UnaryOp::Not)] + r, Tree::not(x), 4),
{
    let sign = Symbol::Unary(UnaryOp::Not);
    let s = seq![sign] + r;
    let none = Seq::<Symbol>::empty();
    lemma_balanced_behind(sign, r);
    lemma_balanced_closed(s);
    assert(none + seq![sign] + r =~= s);
    assert forall|j: int| #[trigger] top(s, j) implies rank(s[j]) >= 4 by {
        lemma_tops_join(none, sign, r, j);
        if j > 0 {
            assert(top(r, j - 1));
            assert(s[j] == r[j - 1]);
        }
    }
    lemma_tops_join(none, sign, r, 0);
    assert(is_pivot(s, 0));
    lemma_parse_split(s, 0);
    assert(s.skip(1) =~= r);
}

/// Where `l` reads back as `a` and `r` as `b`, and `op` binds weaker than
/// every connective of `l` outside parentheses and no stronger than those
/// of `r`, the two with `op` between them read back as `a` and `b` joined
/// by `op`. The whole is not one parenthesis pair around the rest.
pub proof fn lemma_read_joined(l: Seq<Symbol>, r: Seq<Symbol>, a: Tree, b: Tree, op: BinaryOp)
    requires
        reads_back(l, a, rank(Symbol::Binary(op)) + 1),
        reads_back(r, b, rank(Symbol::Binary(op))),
    ensures
        reads_back(l + seq![Symbol::Binary(op)] + r, Tree::bin(op, a, b), rank(Symbol::Binary(op))),
        l[0] == Symbol::Left ==> exists|m: int|
            closes_at(l + seq![Symbol::Binary(op)] + r, 0, m) && m < l.len() + r.len(),
{
    let x = Symbol::Binary(op);
    let s = l + seq![x] + r;
    let i = l.len() as int;
    lemma_balanced_join(l, x, r);
    lemma_balanced_closed(s);
    assert forall|j: int| #[trigger] top(s, j) implies (j < i ==> rank(s[j]) > rank(x)) && (j > i
        ==> rank(s[j]) >= rank(x)) by {
        lemma_tops_join(l, x, r, j);
        if j < i {
            assert(top(l, j));
            assert(s[j] == l[j]);
        } else if j > i {
            assert(top(r, j - i - 1));
            assert(s[j] == r[j - i - 1]);
        }
    }
    lemma_tops_join(l, x, r, i);
    assert(s[i] == x);
    assert(is_pivot(s, i));
    if l[0] == Symbol::Left {
        let m = choose|m: int| closes_at(l, 0, m);
        lemma_closes_longer(l, seq![x] + r, m);
        assert(l + (seq![x] + r) =~= s);
        assert(closes_at(s, 0, m) && m < l.len() + r.len());
    }
    assert(s[0] == l[0]);
    lemma_parse_split(s, i);
    assert(s.take(i) =~= l);
    assert(s.skip(i + 1) =~= r);
}

/// A single atom reads back as itself.
pub proof fn lemma_read_atom(c: char)
    ensures
        reads_back(seq![Symbol::Atom(c)], Tree::leaf(c), 5),
{
    let s = seq![Symbol::Atom(c)];
    lemma_net_one(Symbol::Atom(c));
    assert forall|k: int| 0 <= k <= s.len() implies net(#[trigger] s.take(k)) >= 0 by {
        if k == 0 {
            assert(s.take(0) =~= Seq::<Symbol>::empty());
        } else {
            assert(s.take(k) =~= s);
        }
    }
}

/// An operand reads back as the formula it was made of.
pub proof fn lemma_operand(x: Tree, wrap: bool, floor: int)
    requires
        x.valid(),
        !wrap ==> rank(x.root) >= floor,
    ensures
        reads_back(operand(x, wrap), x, floor),
    decreases x, 1int,
{
    lemma_inorder(x);
    if wrap {
        lemma_wrapped(x.inorder());
        lemma_parse_wrapped(x.inorder());
    }
}

/// The infix sequence of a valid formula reads back as the formula. Unless
/// the formula is an atom, the sequence is not one parenthesis pair around
/// the rest.
pub proof fn lemma_inorder(t: Tree)
    requires
        t.valid(),
    ensures
        reads_back(t.inorder(), t, rank(t.root)),
        t.inorder()[0] == Symbol::Left ==> exists|m: int|
            closes_at(t.inorder(), 0, m) && m < t.inorder().len() - 1,
    decreases t, 0int,
{
    let s = t.inorder();
    lemma_valid_form(t);
    match t.root {
        Symbol::Atom(c) => {
            assert(s =~= seq![t.root]);
            lemma_read_atom(c);
        },
        Symbol::Unary(u) => {
            let x = t.r();
            let wrap = rank(x.root) < rank(t.root);
            let r = operand(x, wrap);
            lemma_operand(x, wrap, 4);
            assert(s =~= seq![t.root] + r);
            lemma_read_negation(r, x);
        },
        Symbol::Binary(op) => {
            let wrap_l = rank(t.l().root) <= rank(t.root);
            let wrap_r = rank(t.r().root) < rank(t.root);
            let l = operand(t.l(), wrap_l);
            let r = operand(t.r(), wrap_r);
            lemma_operand(t.l(), wrap_l, rank(t.root) + 1);
            lemma_operand(t.r(), wrap_r, rank(t.root));
            assert(s =~= l + seq![t.root] + r);
            lemma_read_joined(l, r, t.l(), t.r(), op);
            assert(s[0] == l[0]);
        },
        _ => {},
    }
}

/// The text of one more symbol is read as that symbol, provided it is no
/// closing parenthesis without an open one and no atom but a letter.
pub proof fn lemma_scanned_push(text: Seq<char>, read: Seq<Symbol>, x: Symbol)
    requires
        scanned(text) == Ok::<Seq<Symbol>, SymbolParseError>(read),
        x matches Symbol::Atom(c) ==> is_letter(c),
        x == Symbol::Right ==> net(read) > 0,
    ensures
        scanned(text + symbol_text(x)) == Ok::<Seq<Symbol>, SymbolParseError>(read.push(x)),
{
    let t1 = text + symbol_text(x);
    assert(t1.drop_last() =~= text);
    assert(symbol_of(t1.last()) == Some(x));
}

/// The text of a sequence of symbols is read as that sequence, provided no
/// parenthesis is closed before it is opened and every atom is a letter.
pub proof fn lemma_render_read(s: Seq<Symbol>)
    requires
        lettered(s),
        forall|k: int| 0 <= k <= s.len() ==> net(#[trigger] s.take(k)) >= 0,
    ensures
        scanned(render(s)) == Ok::<Seq<Symbol>, SymbolParseError>(s),
        net(s) == 0 ==> tokens(render(s)) == Ok::<Seq<Symbol>, SymbolParseError>(s),
    decreases s.len(),
{
    if s.len() == 0 {
        assert(s =~= Seq::<Symbol>::empty());
    } else {
        let front = s.drop_last();
        assert forall|k: int| 0 <= k <= front.len() implies net(#[trigger] front.take(k)) >= 0 by {
            assert(front.take(k) =~= s.take(k));
        }
        lemma_render_read(front);
        assert(s.take(s.len() as int) =~= s);
        assert(front =~= s.take(s.len() - 1));
        lemma_scanned_push(render(front), front, s.last());
        assert(front.push(s.last()) =~= s);
    }
}

/// The atoms of the infix sequence are those of the tree.
pub proof fn lemma_inorder_lettered(t: Tree)
    requires
        atoms_lettered(t),
    ensures
        lettered(t.inorder()),
    decreases t,
{
    if t.left is Some {
        lemma_inorder_lettered(t.l());
    }
    if t.right is Some {
        lemma_inorder_lettered(t.r());
    }
}

/// Printing a valid formula whose atoms are letters and reading the text
/// gives the formula back.
pub proof fn lemma_round_trip(t: Tree)
    requires
        t.valid(),
        atoms_lettered(t),
    ensures
        parse(t.inorder()) == Ok::<Tree, ValidationError>(t),
        parse_text(render(t.inorder())) == Ok::<Tree, ValidationError>(t),
{
    lemma_inorder(t);
    lemma_inorder_lettered(t);
    lemma_render_read(t.inorder());
}

/// What is built at random from capital atoms has letters for atoms.
pub proof fn lemma_built_lettered(t: Tree, steps: nat)
    requires
        built(t, steps),
    ensures
        atoms_lettered(t),
    decreases t,
{
    if t.root is Unary {
        lemma_built_lettered(t.r(), (steps - 1) as nat);
    } else if t.root is Binary {
        lemma_built_lettered(t.l(), (steps - 1) as nat);
        lemma_built_lettered(t.r(), 0);
    }
}

/// Every formula that can be made at random is valid, and its text reads
/// back as the formula.
pub proof fn lemma_built_round_trip(t: Tree, steps: nat)
    requires
        built(t, steps),
    ensures
        t.valid(),
        parse_text(render(t.inorder())) == Ok::<Tree, ValidationError>(t),
{
    lemma_built(t, steps);
    lemma_built_lettered(t, steps);
    lemma_round_trip(t);
}

} // verus!
