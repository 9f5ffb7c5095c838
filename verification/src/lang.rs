//! The mathematical semantics of the automata: edges, epsilon paths, runs
//! and language acceptance, together with the shape predicates that the
//! fragment algebra establishes and the simulation lemmas relating them.

use vstd::prelude::*;

use crate::nfa::{TableRow, TransitionTable, NFA};
use crate::state::{
    cells_edge, dests_for, eps_extended, eps_only, shifted_cells, state_has_edge, state_symbols,
    State, EPSILON,
};

verus! {

/// The arena `states` has an edge labelled `sym` from index `a` to index `b`.
pub open spec fn has_edge(states: Seq<State>, a: int, sym: char, b: int) -> bool {
    0 <= a < states.len() && state_has_edge(states[a], sym, b)
}

/// `p` is a non-empty sequence of states joined by epsilon edges.
pub open spec fn is_eps_path(states: Seq<State>, p: Seq<int>) -> bool {
    &&& p.len() >= 1
    &&& forall|i: int| 0 <= i < p.len() - 1 ==> has_edge(states, #[trigger] p[i], EPSILON, p[i + 1])
}

/// `b` is reachable from `a` following only epsilon edges (in zero or more
/// steps; every index reaches itself).
pub open spec fn eps_reach(states: Seq<State>, a: int, b: int) -> bool {
    exists|p: Seq<int>| is_eps_path(states, p) && p.first() == a && p.last() == b
}

/// A run from `s` consumes the whole input `w` and ends at `t`: epsilon
/// moves are free before each consumed symbol and after the last one.
/// The reserved epsilon marker is not a valid input symbol, so a `w` that
/// contains it is consumed by no run at all.
pub open spec fn reaches(states: Seq<State>, s: int, w: Seq<char>, t: int) -> bool
    decreases w.len(),
{
    if w.len() == 0 {
        eps_reach(states, s, t)
    } else {
        w.first() != EPSILON && exists|m: int, b: int|
            #![auto]
            eps_reach(states, s, m) && has_edge(states, m, w.first(), b) && reaches(
                states,
                b,
                w.drop_first(),
                t,
            )
    }
}

/// The automaton rooted at index `s` accepts the input `w`.
pub open spec fn accepts(states: Seq<State>, s: int, w: Seq<char>) -> bool {
    exists|t: int|
        #![auto]
        reaches(states, s, w, t) && 0 <= t < states.len() && states[t].accepting
}

/// The language of a fragment: acceptance from its entry state.
pub open spec fn spec_matches(n: NFA, w: Seq<char>) -> bool {
    accepts(n.states@, n.in_state as int, w)
}

/// Some edge, of any symbol, joins `a` to `b`.
pub open spec fn any_edge(states: Seq<State>, a: int, b: int) -> bool {
    exists|sym: char| #[trigger] has_edge(states, a, sym, b)
}

/// `p` is a non-empty sequence of states joined by edges of any symbol.
pub open spec fn is_walk(states: Seq<State>, p: Seq<int>) -> bool {
    &&& p.len() >= 1
    &&& forall|i: int| 0 <= i < p.len() - 1 ==> any_edge(states, #[trigger] p[i], p[i + 1])
}

/// `b` is reachable from `a` following edges of any symbol.
pub open spec fn reachable(states: Seq<State>, a: int, b: int) -> bool {
    exists|p: Seq<int>| is_walk(states, p) && p.first() == a && p.last() == b
}

/// Two fragments with the same entry/exit indices, the same acceptance
/// flags and the same edge relation.  They accept the same language.
pub open spec fn nfa_equiv(x: NFA, y: NFA) -> bool {
    &&& x.states@.len() == y.states@.len()
    &&& x.in_state == y.in_state
    &&& x.out_state == y.out_state
    &&& forall|i: int|
        0 <= i < x.states@.len() ==> ((#[trigger] x.states@[i]).accepting <==> y.states@[i].accepting)
    &&& forall|a: int, sym: char, b: int|
        #![auto]
        has_edge(x.states@, a, sym, b) <==> has_edge(y.states@, a, sym, b)
}

/// The result of the literal operator: two states, one edge.
pub open spec fn literal_shape(n: NFA, c: char) -> bool {
    &&& n.states@.len() == 2
    &&& n.in_state == 0usize
    &&& n.out_state == 1usize
    &&& !n.states@[0].accepting
    &&& n.states@[1].accepting
    &&& forall|a: int, sym: char, b: int|
        #![auto]
        has_edge(n.states@, a, sym, b) <==> (a == 0 && sym == c && b == 1)
}

/// The result of concatenating `a` and `b`: `b`'s states follow `a`'s,
/// renumbered by `a`'s length; `a`'s exit loses its acceptance and gains an
/// epsilon edge to `b`'s entry.
pub open spec fn concat_shape(r: NFA, a: NFA, b: NFA) -> bool {
    let la = a.states@.len() as int;
    let lb = b.states@.len() as int;
    &&& r.states@.len() == la + lb
    &&& r.in_state == a.in_state
    &&& r.out_state as int == la + b.out_state as int
    &&& forall|i: int|
        0 <= i < la + lb ==> ((#[trigger] r.states@[i]).accepting <==> (if i < la {
            a.states@[i].accepting && i != a.out_state as int
        } else {
            b.states@[i - la].accepting
        }))
    &&& forall|s: int, sym: char, d: int|
        #[trigger] has_edge(r.states@, s, sym, d) <==> {
            ||| (0 <= s < la && 0 <= d < la && has_edge(a.states@, s, sym, d))
            ||| (la <= s < la + lb && la <= d < la + lb && has_edge(b.states@, s - la, sym, d - la))
            ||| (s == a.out_state as int && sym == EPSILON && d == la + b.in_state as int)
        }
}

/// The result of alternating `a` and `b` (both well-formed): their states
/// renumbered side by side, a new entry with epsilon edges to both entries,
/// and a new exit fed by epsilon edges from both (cleared) exits.
pub open spec fn or_shape(r: NFA, a: NFA, b: NFA) -> bool {
    let la = a.states@.len() as int;
    let lb = b.states@.len() as int;
    &&& r.states@.len() == la + lb + 2
    &&& r.in_state as int == la + lb
    &&& r.out_state as int == la + lb + 1
    &&& forall|i: int|
        0 <= i < la + lb + 2 ==> ((#[trigger] r.states@[i]).accepting <==> i == la + lb + 1)
    &&& forall|s: int, sym: char, d: int|
        #[trigger] has_edge(r.states@, s, sym, d) <==> {
            ||| (0 <= s < la && 0 <= d < la && has_edge(a.states@, s, sym, d))
            ||| (la <= s < la + lb && la <= d < la + lb && has_edge(b.states@, s - la, sym, d - la))
            ||| (s == la + lb && sym == EPSILON && (d == a.in_state as int || d == la
                + b.in_state as int))
            ||| (s == a.out_state as int && sym == EPSILON && d == la + lb + 1)
            ||| (s == la + b.out_state as int && sym == EPSILON && d == la + lb + 1)
        }
}

/// The result of the repetition (Kleene star) of a well-formed `a`: a new
/// entry with epsilon edges to `a`'s entry and to the new exit, an epsilon
/// edge from `a`'s (cleared) exit to the new exit, and the repetition
/// back-edge from the new exit to `a`'s entry.
pub open spec fn rep_shape(r: NFA, a: NFA) -> bool {
    let la = a.states@.len() as int;
    &&& r.states@.len() == la + 2
    &&& r.in_state as int == la
    &&& r.out_state as int == la + 1
    &&& forall|i: int| 0 <= i < la + 2 ==> ((#[trigger] r.states@[i]).accepting <==> i == la + 1)
    &&& forall|s: int, sym: char, d: int|
        #[trigger] has_edge(r.states@, s, sym, d) <==> {
            ||| (0 <= s < la && 0 <= d < la && has_edge(a.states@, s, sym, d))
            ||| (s == la && sym == EPSILON && (d == a.in_state as int || d == la + 1))
            ||| (s == a.out_state as int && sym == EPSILON && d == la + 1)
            ||| (s == la + 1 && sym == EPSILON && d == a.in_state as int)
        }
}

/// `x` carries the same cell structure as `y`, state by state: the same
/// symbols in the same order and the same destination lists.
pub open spec fn cells_equiv(x: NFA, y: NFA) -> bool {
    &&& x.states@.len() == y.states@.len()
    &&& forall|i: int|
        0 <= i < x.states@.len() ==> shifted_cells(#[trigger] x.states@[i], y.states@[i], 0)
}

/// The exact cell lists of a literal fragment: the entry holds one cell
/// for the symbol with the single destination, the exit holds nothing.
pub open spec fn literal_cells(n: NFA, c: char) -> bool {
    &&& state_symbols(n.states@[0]) == seq![c]
    &&& dests_for(n.states@[0].transitions@, c) == seq![1usize]
    &&& forall|sym: char|
        sym != c ==> #[trigger] dests_for(n.states@[0].transitions@, sym) == Seq::<usize>::empty()
    &&& n.states@[1].transitions@.len() == 0
}

/// The exact cell lists of a concatenation: `a`'s states keep their cells
/// but for its exit, which gains one trailing epsilon destination to
/// `b`'s renumbered entry; `b`'s states are renumbered copies.
pub open spec fn concat_cells(r: NFA, a: NFA, b: NFA) -> bool {
    let la = a.states@.len() as int;
    let lb = b.states@.len() as int;
    &&& forall|i: int|
        0 <= i < la && i != a.out_state as int ==> shifted_cells(
            #[trigger] r.states@[i],
            a.states@[i],
            0,
        )
    &&& eps_extended(
        r.states@[a.out_state as int],
        a.states@[a.out_state as int],
        0,
        (la + b.in_state) as usize,
    )
    &&& forall|i: int|
        0 <= i < lb ==> shifted_cells(#[trigger] r.states@[la + i], b.states@[i], la)
}

/// The exact cell lists of an alternation: both fragments' states are
/// renumbered copies, their exits each gaining one trailing epsilon
/// destination to the new exit; the new entry holds one epsilon cell with
/// both renumbered entries in order; the new exit holds nothing.
pub open spec fn or_cells(r: NFA, a: NFA, b: NFA) -> bool {
    let la = a.states@.len() as int;
    let lb = b.states@.len() as int;
    &&& forall|i: int|
        0 <= i < la && i != a.out_state as int ==> shifted_cells(
            #[trigger] r.states@[i],
            a.states@[i],
            0,
        )
    &&& forall|i: int|
        0 <= i < lb && i != b.out_state as int ==> shifted_cells(
            #[trigger] r.states@[la + i],
            b.states@[i],
            la,
        )
    &&& eps_extended(
        r.states@[a.out_state as int],
        a.states@[a.out_state as int],
        0,
        (la + lb + 1) as usize,
    )
    &&& eps_extended(
        r.states@[la + b.out_state as int],
        b.states@[b.out_state as int],
        la,
        (la + lb + 1) as usize,
    )
    &&& eps_only(r.states@[la + lb], seq![a.in_state, (la + b.in_state) as usize])
    &&& r.states@[la + lb + 1].transitions@.len() == 0
}

/// The exact cell lists of a repetition: `a`'s states are kept, its exit
/// gaining one trailing epsilon destination to the new exit; the new
/// entry holds one epsilon cell with `a`'s entry and the new exit, in
/// that order; the new exit holds one epsilon cell with the repetition
/// back-edge to `a`'s entry.
pub open spec fn rep_cells(r: NFA, a: NFA) -> bool {
    let la = a.states@.len() as int;
    &&& forall|i: int|
        0 <= i < la && i != a.out_state as int ==> shifted_cells(
            #[trigger] r.states@[i],
            a.states@[i],
            0,
        )
    &&& eps_extended(
        r.states@[a.out_state as int],
        a.states@[a.out_state as int],
        0,
        (la + 1) as usize,
    )
    &&& eps_only(r.states@[la], seq![a.in_state, (la + 1) as usize])
    &&& eps_only(r.states@[la + 1], seq![a.in_state])
}

/// `r` is the left fold of pairwise concatenation of `first` with the
/// fragments of `rest`; with an empty `rest` it is `first` itself (up to
/// `nfa_equiv`).
pub open spec fn concat_chain(r: NFA, first: NFA, rest: Seq<NFA>) -> bool
    decreases rest.len(),
{
    if rest.len() == 0 {
        nfa_equiv(r, first) && cells_equiv(r, first)
    } else {
        exists|mid: NFA|
            #![auto]
            concat_chain(mid, first, rest.drop_last()) && concat_shape(r, mid, rest.last())
                && concat_cells(r, mid, rest.last())
    }
}

/// The total number of states of the fragments of `rest` from position `i`
/// onward; bounds the growth of a concatenation fold.
pub open spec fn suffix_total(rest: Seq<NFA>, i: int) -> int
    decreases rest.len() - i,
{
    if i < 0 || i >= rest.len() {
        0
    } else {
        rest[i].states@.len() + suffix_total(rest, i + 1)
    }
}

pub proof fn lemma_suffix_total_nonneg(rest: Seq<NFA>, i: int)
    ensures
        suffix_total(rest, i) >= 0,
    decreases rest.len() - i,
{
    if 0 <= i < rest.len() {
        lemma_suffix_total_nonneg(rest, i + 1);
    }
}

/// Every index reaches itself by the one-element epsilon path.
pub proof fn lemma_eps_reach_refl(states: Seq<State>, a: int)
    ensures
        eps_reach(states, a, a),
{
    let p = seq![a];
    assert(is_eps_path(states, p));
    assert(p.first() == a && p.last() == a);
}

/// A single epsilon edge is an epsilon path.
pub proof fn lemma_eps_reach_edge(states: Seq<State>, a: int, b: int)
    requires
        has_edge(states, a, EPSILON, b),
    ensures
        eps_reach(states, a, b),
{
    let p = seq![a, b];
    assert(p.len() == 2 && p[0] == a && p[1] == b);
    assert(is_eps_path(states, p));
    assert(p.first() == a && p.last() == b);
}

/// Epsilon reachability is transitive: paths concatenate.
pub proof fn lemma_eps_reach_trans(states: Seq<State>, a: int, b: int, c: int)
    requires
        eps_reach(states, a, b),
        eps_reach(states, b, c),
    ensures
        eps_reach(states, a, c),
{
    let p1 = choose|p: Seq<int>| is_eps_path(states, p) && p.first() == a && p.last() == b;
    let p2 = choose|p: Seq<int>| is_eps_path(states, p) && p.first() == b && p.last() == c;
    if p2.len() == 1 {
        assert(p1.first() == a && p1.last() == c);
    } else {
        let q = p1 + p2.drop_first();
        assert(q.len() == p1.len() + p2.len() - 1);
        assert forall|i: int| 0 <= i < q.len() - 1 implies has_edge(
            states,
            #[trigger] q[i],
            EPSILON,
            q[i + 1],
        ) by {
            if i < p1.len() - 1 {
                assert(q[i] == p1[i] && q[i + 1] == p1[i + 1]);
                assert(has_edge(states, p1[i], EPSILON, p1[i + 1]));
            } else if i == p1.len() - 1 {
                assert(q[i] == p1[p1.len() - 1] && q[i + 1] == p2[1]);
                assert(p1.last() == p2[0]);
                assert(has_edge(states, p2[0], EPSILON, p2[1]));
            } else {
                assert(q[i] == p2[i - p1.len() + 1] && q[i + 1] == p2[i - p1.len() + 2]);
                assert(has_edge(states, p2[i - p1.len() + 1], EPSILON, p2[i - p1.len() + 2]));
            }
        }
        assert(is_eps_path(states, q));
        assert(q.first() == a && q.last() == c);
    }
}

/// A simulation maps epsilon reachability through `h`.
pub proof fn lemma_eps_reach_map(
    a_states: Seq<State>,
    b_states: Seq<State>,
    h: spec_fn(int) -> int,
    a: int,
    b: int,
)
    requires
        eps_reach(a_states, a, b),
        forall|x: int, y: int|
            #[trigger] has_edge(a_states, x, EPSILON, y) ==> has_edge(b_states, h(x), EPSILON, h(y)),
    ensures
        eps_reach(b_states, h(a), h(b)),
{
    let p = choose|p: Seq<int>| is_eps_path(a_states, p) && p.first() == a && p.last() == b;
    let q = p.map_values(h);
    assert forall|i: int| 0 <= i < q.len() - 1 implies has_edge(
        b_states,
        #[trigger] q[i],
        EPSILON,
        q[i + 1],
    ) by {
        assert(has_edge(a_states, p[i], EPSILON, p[i + 1]));
    }
    assert(is_eps_path(b_states, q));
    assert(q.first() == h(a) && q.last() == h(b));
}

/// The simulation lemma: if `h` carries every edge of one arena to an edge
/// of another, it carries whole runs.
pub proof fn lemma_reaches_map(
    a_states: Seq<State>,
    b_states: Seq<State>,
    h: spec_fn(int) -> int,
    s: int,
    w: Seq<char>,
    t: int,
)
    requires
        reaches(a_states, s, w, t),
        forall|x: int, sym: char, y: int|
            #[trigger] has_edge(a_states, x, sym, y) ==> has_edge(b_states, h(x), sym, h(y)),
    ensures
        reaches(b_states, h(s), w, h(t)),
    decreases w.len(),
{
    assert forall|x: int, y: int|
        #[trigger] has_edge(a_states, x, EPSILON, y) implies has_edge(
        b_states,
        h(x),
        EPSILON,
        h(y),
    ) by {}
    if w.len() == 0 {
        lemma_eps_reach_map(a_states, b_states, h, s, t);
    } else {
        let (m, b) = choose|m: int, b: int|
            #![auto]
            eps_reach(a_states, s, m) && has_edge(a_states, m, w.first(), b) && reaches(
                a_states,
                b,
                w.drop_first(),
                t,
            );
        lemma_eps_reach_map(a_states, b_states, h, s, m);
        lemma_reaches_map(a_states, b_states, h, b, w.drop_first(), t);
        assert(has_edge(b_states, h(m), w.first(), h(b)));
        assert(reaches(b_states, h(s), w, h(t)));
    }
}

/// Runs concatenate: consuming `u` and then `v` consumes `u + v`.
pub proof fn lemma_reaches_compose(states: Seq<State>, s: int, u: Seq<char>, m: int, v: Seq<char>, t: int)
    requires
        reaches(states, s, u, m),
        reaches(states, m, v, t),
    ensures
        reaches(states, s, u + v, t),
    decreases u.len(),
{
    if u.len() == 0 {
        assert(u + v =~= v);
        if v.len() == 0 {
            lemma_eps_reach_trans(states, s, m, t);
        } else {
            let (m2, b) = choose|m2: int, b: int|
                #![auto]
                eps_reach(states, m, m2) && has_edge(states, m2, v.first(), b) && reaches(
                    states,
                    b,
                    v.drop_first(),
                    t,
                );
            lemma_eps_reach_trans(states, s, m, m2);
            assert(reaches(states, s, v, t));
        }
    } else {
        let (m1, b) = choose|m1: int, b: int|
            #![auto]
            eps_reach(states, s, m1) && has_edge(states, m1, u.first(), b) && reaches(
                states,
                b,
                u.drop_first(),
                m,
            );
        lemma_reaches_compose(states, b, u.drop_first(), m, v, t);
        assert((u + v).first() == u.first());
        assert((u + v).drop_first() =~= u.drop_first() + v);
        assert(reaches(states, s, u + v, t));
    }
}

/// A run may always be extended by trailing epsilon moves.
pub proof fn lemma_reaches_extend(states: Seq<State>, s: int, u: Seq<char>, m: int, t: int)
    requires
        reaches(states, s, u, m),
        eps_reach(states, m, t),
    ensures
        reaches(states, s, u, t),
{
    lemma_reaches_compose(states, s, u, m, Seq::empty(), t);
    assert(u + Seq::<char>::empty() =~= u);
}

/// Unfolding a run at its last symbol: consuming `u.push(c)` is consuming
/// `u`, stepping by one `c` edge and closing with epsilon moves.
pub proof fn lemma_reaches_snoc(states: Seq<State>, s: int, u: Seq<char>, c: char, t: int)
    ensures
        reaches(states, s, u.push(c), t) <==> (c != EPSILON && exists|m: int, b: int|
            #![auto]
            reaches(states, s, u, m) && has_edge(states, m, c, b) && eps_reach(states, b, t)),
    decreases u.len(),
{
    let w = u.push(c);
    if u.len() == 0 {
        assert(w.first() == c);
        assert(w.drop_first() =~= Seq::<char>::empty());
        assert(w.len() == 1);
        if reaches(states, s, w, t) {
            let (m, b) = choose|m: int, b: int|
                #![auto]
                eps_reach(states, s, m) && has_edge(states, m, w.first(), b) && reaches(
                    states,
                    b,
                    w.drop_first(),
                    t,
                );
            assert(reaches(states, s, u, m));
        }
        if c != EPSILON && exists|m: int, b: int|
            #![auto]
            reaches(states, s, u, m) && has_edge(states, m, c, b) && eps_reach(states, b, t) {
            let (m, b) = choose|m: int, b: int|
                #![auto]
                reaches(states, s, u, m) && has_edge(states, m, c, b) && eps_reach(states, b, t);
            assert(reaches(states, b, w.drop_first(), t));
            assert(reaches(states, s, w, t));
        }
    } else {
        assert(w.first() == u.first());
        assert(w.drop_first() =~= u.drop_first().push(c));
        lemma_reaches_snoc(states, s, u.drop_first(), c, t);
        if reaches(states, s, w, t) {
            let (m1, b1) = choose|m1: int, b1: int|
                #![auto]
                eps_reach(states, s, m1) && has_edge(states, m1, w.first(), b1) && reaches(
                    states,
                    b1,
                    w.drop_first(),
                    t,
                );
            lemma_reaches_snoc(states, b1, u.drop_first(), c, t);
            let (m, b) = choose|m: int, b: int|
                #![auto]
                reaches(states, b1, u.drop_first(), m) && has_edge(states, m, c, b) && eps_reach(
                    states,
                    b,
                    t,
                );
            assert(reaches(states, s, u, m));
            assert(c != EPSILON && reaches(states, s, u, m) && has_edge(states, m, c, b)
                && eps_reach(states, b, t));
        }
        if c != EPSILON && exists|m: int, b: int|
            #![auto]
            reaches(states, s, u, m) && has_edge(states, m, c, b) && eps_reach(states, b, t) {
            let (m, b) = choose|m: int, b: int|
                #![auto]
                reaches(states, s, u, m) && has_edge(states, m, c, b) && eps_reach(states, b, t);
            let (m1, b1) = choose|m1: int, b1: int|
                #![auto]
                eps_reach(states, s, m1) && has_edge(states, m1, u.first(), b1) && reaches(
                    states,
                    b1,
                    u.drop_first(),
                    m,
                );
            lemma_reaches_snoc(states, b1, u.drop_first(), c, t);
            assert(reaches(states, b1, u.drop_first().push(c), t));
            assert(reaches(states, s, w, t));
        }
    }
}

/// Fragments with equal entry, acceptance flags and edge relation accept
/// the same language.
pub proof fn lemma_matches_equiv(x: NFA, y: NFA, w: Seq<char>)
    requires
        nfa_equiv(x, y),
    ensures
        spec_matches(x, w) == spec_matches(y, w),
{
    let h = |i: int| i;
    if spec_matches(x, w) {
        let t = choose|t: int|
            #![auto]
            reaches(x.states@, x.in_state as int, w, t) && 0 <= t < x.states@.len()
                && x.states@[t].accepting;
        lemma_reaches_map(x.states@, y.states@, h, x.in_state as int, w, t);
        assert(reaches(y.states@, y.in_state as int, w, t));
        assert(y.states@[t].accepting);
    }
    if spec_matches(y, w) {
        let t = choose|t: int|
            #![auto]
            reaches(y.states@, y.in_state as int, w, t) && 0 <= t < y.states@.len()
                && y.states@[t].accepting;
        lemma_reaches_map(y.states@, x.states@, h, y.in_state as int, w, t);
        assert(reaches(x.states@, x.in_state as int, w, t));
        assert(x.states@[t].accepting);
    }
}

/// The last state of an epsilon path whose first state lies in a set closed
/// under epsilon edges lies in that set too.
pub proof fn lemma_eps_path_closed(states: Seq<State>, sset: Set<int>, p: Seq<int>)
    requires
        is_eps_path(states, p),
        sset.contains(p.first()),
        forall|x: int, y: int|
            sset.contains(x) && #[trigger] has_edge(states, x, EPSILON, y) ==> sset.contains(y),
    ensures
        sset.contains(p.last()),
    decreases p.len(),
{
    if p.len() == 1 {
    } else {
        assert(has_edge(states, p[0], EPSILON, p[1]));
        assert(sset.contains(p[1]));
        let q = p.drop_first();
        assert forall|i: int| 0 <= i < q.len() - 1 implies has_edge(
            states,
            #[trigger] q[i],
            EPSILON,
            q[i + 1],
        ) by {
            assert(q[i] == p[i + 1] && q[i + 1] == p[i + 2]);
            assert(has_edge(states, p[i + 1], EPSILON, p[i + 2]));
        }
        assert(is_eps_path(states, q));
        lemma_eps_path_closed(states, sset, q);
    }
}

/// The last state of a walk whose first state lies in a set closed under
/// all edges lies in that set too.
pub proof fn lemma_walk_closed(states: Seq<State>, sset: Set<int>, p: Seq<int>)
    requires
        is_walk(states, p),
        sset.contains(p.first()),
        forall|x: int, y: int|
            sset.contains(x) && #[trigger] any_edge(states, x, y) ==> sset.contains(y),
    ensures
        sset.contains(p.last()),
    decreases p.len(),
{
    if p.len() == 1 {
    } else {
        assert(any_edge(states, p[0], p[1]));
        assert(sset.contains(p[1]));
        let q = p.drop_first();
        assert forall|i: int| 0 <= i < q.len() - 1 implies any_edge(states, #[trigger] q[i], q[i + 1]) by {
            assert(q[i] == p[i + 1] && q[i + 1] == p[i + 2]);
            assert(any_edge(states, p[i + 1], p[i + 2]));
        }
        assert(is_walk(states, q));
        lemma_walk_closed(states, sset, q);
    }
}

/// In an arena without epsilon edges, epsilon reachability is equality.
pub proof fn lemma_eps_reach_no_eps(states: Seq<State>, a: int, b: int)
    requires
        eps_reach(states, a, b),
        forall|x: int, y: int| !has_edge(states, x, EPSILON, y),
    ensures
        a == b,
{
    let p = choose|p: Seq<int>| is_eps_path(states, p) && p.first() == a && p.last() == b;
    if p.len() >= 2 {
        assert(has_edge(states, p[0], EPSILON, p[1]));
        assert(false);
    }
}

/// Concatenation shapes built over pairwise equivalent components are
/// themselves equivalent.
pub proof fn lemma_concat_shape_equiv(r1: NFA, a1: NFA, b1: NFA, r2: NFA, a2: NFA, b2: NFA)
    requires
        concat_shape(r1, a1, b1),
        concat_shape(r2, a2, b2),
        nfa_equiv(a1, a2),
        nfa_equiv(b1, b2),
    ensures
        nfa_equiv(r1, r2),
{
    let la = a1.states@.len() as int;
    let lb = b1.states@.len() as int;
    assert forall|i: int|
        0 <= i < r1.states@.len() implies ((#[trigger] r1.states@[i]).accepting
        <==> r2.states@[i].accepting) by {
        assert(r1.states@[i].accepting <==> (if i < la {
            a1.states@[i].accepting && i != a1.out_state as int
        } else {
            b1.states@[i - la].accepting
        }));
        assert(r2.states@[i].accepting <==> (if i < la {
            a2.states@[i].accepting && i != a2.out_state as int
        } else {
            b2.states@[i - la].accepting
        }));
    }
    assert forall|s: int, sym: char, d: int|
        #![auto]
        has_edge(r1.states@, s, sym, d) <==> has_edge(r2.states@, s, sym, d) by {
        assert(has_edge(r1.states@, s, sym, d) <==> {
            ||| (0 <= s < la && 0 <= d < la && has_edge(a1.states@, s, sym, d))
            ||| (la <= s < la + lb && la <= d < la + lb && has_edge(b1.states@, s - la, sym, d - la))
            ||| (s == a1.out_state as int && sym == EPSILON && d == la + b1.in_state as int)
        });
        assert(has_edge(r2.states@, s, sym, d) <==> {
            ||| (0 <= s < la && 0 <= d < la && has_edge(a2.states@, s, sym, d))
            ||| (la <= s < la + lb && la <= d < la + lb && has_edge(b2.states@, s - la, sym, d - la))
            ||| (s == a2.out_state as int && sym == EPSILON && d == la + b2.in_state as int)
        });
    }
}

/// Every edge of the arena lands on a valid index.
pub open spec fn arena_closed(states: Seq<State>) -> bool {
    forall|a: int, sym: char, b: int| has_edge(states, a, sym, b) ==> 0 <= b < states.len()
}

/// `t` is epsilon-reachable from at least one of the `seeds`.
pub open spec fn eps_reach_from_any(states: Seq<State>, seeds: Seq<usize>, t: int) -> bool {
    exists|q: int| 0 <= q < seeds.len() && eps_reach(states, (#[trigger] seeds[q]) as int, t)
}

/// Some member of `current` has an edge labelled `c` to `b`.
pub open spec fn move_edge(states: Seq<State>, current: Seq<usize>, c: char, b: int) -> bool {
    exists|q: int| 0 <= q < current.len() && has_edge(states, (#[trigger] current[q]) as int, c, b)
}

/// Some state reachable from `start` has a cell labelled `c`.
pub open spec fn reachable_symbol(states: Seq<State>, start: int, c: char) -> bool {
    exists|t: int, j: int|
        #![auto]
        reachable(states, start, t) && 0 <= t < states.len() && 0 <= j
            < states[t].transitions@.len() && states[t].transitions@[j].symbol == c
}

pub proof fn lemma_reachable_refl(states: Seq<State>, a: int)
    ensures
        reachable(states, a, a),
{
    let p = seq![a];
    assert(is_walk(states, p));
    assert(p.first() == a && p.last() == a);
}

pub proof fn lemma_reachable_step(states: Seq<State>, a: int, x: int, d: int)
    requires
        reachable(states, a, x),
        any_edge(states, x, d),
    ensures
        reachable(states, a, d),
{
    let p = choose|p: Seq<int>| is_walk(states, p) && p.first() == a && p.last() == x;
    let q = p.push(d);
    assert forall|i: int| 0 <= i < q.len() - 1 implies any_edge(states, #[trigger] q[i], q[i + 1]) by {
        if i < p.len() - 1 {
            assert(q[i] == p[i] && q[i + 1] == p[i + 1]);
            assert(any_edge(states, p[i], p[i + 1]));
        } else {
            assert(q[i] == p.last() && q[i + 1] == d);
        }
    }
    assert(is_walk(states, q));
    assert(q.first() == a && q.last() == d);
}

/// A sequence of distinct indices below `n` has at most `n` elements.
pub proof fn lemma_distinct_bounded(v: Seq<usize>, n: nat)
    requires
        v.no_duplicates(),
        forall|q: int| 0 <= q < v.len() ==> (#[trigger] v[q]) < n,
    ensures
        v.len() <= n,
{
    let vi = v.map_values(|x: usize| x as int);
    assert(vi.no_duplicates()) by {
        assert forall|i: int, j: int| 0 <= i < vi.len() && 0 <= j < vi.len() && i != j implies vi[i]
            != vi[j] by {
            assert(v[i] != v[j]);
        }
    }
    vi.unique_seq_to_set();
    assert(vi.to_set().subset_of(vstd::set_lib::set_int_range(0, n as int))) by {
        assert forall|x: int| vi.to_set().contains(x) implies vstd::set_lib::set_int_range(
            0,
            n as int,
        ).contains(x) by {
            let q = choose|q: int| 0 <= q < vi.len() && vi[q] == x;
            assert(v[q] < n);
        }
    }
    vstd::set_lib::lemma_int_range(0, n as int);
    vstd::set_lib::lemma_len_subset(vi.to_set(), vstd::set_lib::set_int_range(0, n as int));
}

/// `id` is a key of the flattened transition table.
pub open spec fn table_has_key(t: TransitionTable, id: int) -> bool {
    exists|i: int| 0 <= i < t.rows@.len() && (#[trigger] t.rows@[i]).id as int == id
}

/// No state identifier owns two rows.
pub open spec fn table_keys_unique(t: TransitionTable) -> bool {
    forall|i: int, j: int|
        #![auto]
        0 <= i < j < t.rows@.len() ==> t.rows@[i].id != t.rows@[j].id
}

/// The flattened table records an edge labelled `sym` from `a` to `b`.
pub open spec fn table_edge(t: TransitionTable, a: int, sym: char, b: int) -> bool {
    exists|i: int|
        0 <= i < t.rows@.len() && (#[trigger] t.rows@[i]).id as int == a && cells_edge(
            t.rows@[i].cells@,
            sym,
            b,
        )
}

/// The row merges its state's edges into one cell per symbol with a
/// deduplicated destination list.
pub open spec fn row_merged(row: TableRow) -> bool {
    &&& (forall|j1: int, j2: int|
        #![auto]
        0 <= j1 < j2 < row.cells@.len() ==> row.cells@[j1].symbol != row.cells@[j2].symbol)
    &&& (forall|j: int|
        0 <= j < row.cells@.len() ==> (#[trigger] row.cells@[j]).transition@.no_duplicates())
}

/// Every row of the table is merged and deduplicated.
pub open spec fn table_rows_merged(t: TransitionTable) -> bool {
    forall|i: int| 0 <= i < t.rows@.len() ==> row_merged(#[trigger] t.rows@[i])
}

/// The traversal from `start` stays inside the arena: the start is a live
/// index and every edge of every reachable state lands on a live index.
pub open spec fn traversal_ok(states: Seq<State>, start: int) -> bool {
    &&& 0 <= start < states.len()
    &&& forall|t: int, sym: char, b: int|
        reachable(states, start, t) && #[trigger] has_edge(states, t, sym, b) ==> 0 <= b
            < states.len()
}

/// The flattener succeeds exactly when the fragment's entry is a live index
/// and every edge of every reachable state lands on a live index.
pub open spec fn flatten_ok(n: NFA) -> bool {
    traversal_ok(n.states@, n.in_state as int)
}

/// What a successful flattening returns: the table has one row per
/// reachable state and exactly the live graph's edges among reachable
/// states, merged and deduplicated, and the accept identifier is the
/// fragment's exit, unchanged.
pub open spec fn flatten_post(n: NFA, t: TransitionTable, accept: usize) -> bool {
    &&& accept == n.out_state
    &&& table_keys_unique(t)
    &&& table_rows_merged(t)
    &&& forall|id: int|
        #[trigger] table_has_key(t, id) <==> reachable(n.states@, n.in_state as int, id)
    &&& forall|a: int, sym: char, b: int|
        #[trigger] table_edge(t, a, sym, b) <==> (reachable(n.states@, n.in_state as int, a)
            && has_edge(n.states@, a, sym, b))
}

/// The running invariant of the graph traversals: the worklist holds
/// distinct, live, reachable state indices.
pub open spec fn bfs_inv(states: Seq<State>, start: int, wl: Seq<usize>) -> bool {
    &&& wl.no_duplicates()
    &&& forall|q: int| 0 <= q < wl.len() ==> (#[trigger] wl[q]) < states.len()
    &&& forall|q: int| 0 <= q < wl.len() ==> reachable(states, start, (#[trigger] wl[q]) as int)
}

/// A worklist that is closed under every edge and contains the start
/// contains exactly the reachable states, which therefore all lie inside
/// the arena.
/// Reachable states all lie in a worklist that contains the start and is
/// closed under every edge.
#[verifier::spinoff_prover]
pub proof fn lemma_wl_covers_reachable(states: Seq<State>, start: int, wl: Seq<usize>, t: int)
    requires
        states.len() <= usize::MAX,
        0 <= start < states.len(),
        bfs_inv(states, start, wl),
        wl.contains(start as usize),
        forall|q: int, b: int|
            0 <= q < wl.len() && #[trigger] any_edge(states, wl[q] as int, b) ==> wl.contains(
                b as usize,
            ),
        reachable(states, start, t),
    ensures
        0 <= t < states.len(),
        wl.contains(t as usize),
{
    let sset = Set::new(|x: int| 0 <= x < states.len() && wl.contains(x as usize));
    let p = choose|p: Seq<int>| is_walk(states, p) && p.first() == start && p.last() == t;
    assert(sset.contains(p.first()));
    assert forall|x: int, y: int|
        sset.contains(x) && #[trigger] any_edge(states, x, y) implies sset.contains(y) by {
        let qx = choose|qx: int| 0 <= qx < wl.len() && wl[qx] == x as usize;
        assert(wl[qx] as int == x);
        assert(any_edge(states, wl[qx] as int, y));
        assert(wl.contains(y as usize));
        let sym0 = choose|sym0: char| has_edge(states, x, sym0, y);
        assert(0 <= y);
        let qy = choose|qy: int| 0 <= qy < wl.len() && wl[qy] == y as usize;
        assert(y < states.len());
    }
    lemma_walk_closed(states, sset, p);
    assert(sset.contains(t));
}

/// A worklist that is closed under every edge and contains the start
/// contains exactly the reachable states, which therefore all lie inside
/// the arena.
#[verifier::spinoff_prover]
pub proof fn lemma_bfs_complete(states: Seq<State>, start: int, wl: Seq<usize>)
    requires
        states.len() <= usize::MAX,
        0 <= start < states.len(),
        bfs_inv(states, start, wl),
        wl.contains(start as usize),
        forall|q: int, b: int|
            0 <= q < wl.len() && #[trigger] any_edge(states, wl[q] as int, b) ==> wl.contains(
                b as usize,
            ),
    ensures
        forall|t: int|
            #[trigger] reachable(states, start, t) <==> (0 <= t < states.len() && wl.contains(
                t as usize,
            )),
        traversal_ok(states, start),
{
    assert forall|t: int|
        reachable(states, start, t) implies (0 <= t < states.len() && wl.contains(t as usize)) by {
        lemma_wl_covers_reachable(states, start, wl, t);
    }
    assert forall|t: int|
        (0 <= t < states.len() && wl.contains(t as usize)) implies #[trigger] reachable(
        states,
        start,
        t,
    ) by {
        let qt = choose|qt: int| 0 <= qt < wl.len() && wl[qt] == t as usize;
        assert(reachable(states, start, wl[qt] as int));
    }
    assert forall|tt: int, sym: char, b: int|
        reachable(states, start, tt) && #[trigger] has_edge(states, tt, sym, b) implies 0 <= b
        < states.len() by {
        lemma_wl_covers_reachable(states, start, wl, tt);
        let qt = choose|qt: int| 0 <= qt < wl.len() && wl[qt] == tt as usize;
        assert(wl[qt] as int == tt);
        assert(any_edge(states, wl[qt] as int, b));
        assert(wl.contains(b as usize));
        let qb = choose|qb: int| 0 <= qb < wl.len() && wl[qb] == b as usize;
        assert(0 <= b);
        assert(wl[qb] as int == b);
    }
}

} // verus!
