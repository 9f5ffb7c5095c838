//! Language-level laws of the fragment algebra, stated over the semantics
//! of `crate::lang` and proved once and for all.

use vstd::prelude::*;

use crate::lang::{
    accepts, concat_chain, concat_shape, eps_reach, has_edge, lemma_concat_shape_equiv,
    lemma_eps_reach_edge, lemma_eps_reach_no_eps, lemma_eps_reach_refl, lemma_matches_equiv,
    lemma_reaches_compose, lemma_reaches_extend, lemma_reaches_map, literal_shape, nfa_equiv,
    or_shape, reaches, rep_shape, spec_matches,
};
use crate::lang::{flatten_post, table_edge, table_has_key};
use crate::nfa::{TransitionTable, NFA};
use crate::state::EPSILON;

verus! {

/// A literal automaton accepts its own symbol as a one-symbol string, and
/// accepts neither the empty string nor the symbol doubled.
pub proof fn lemma_literal_matches(n: NFA, c: char)
    requires
        literal_shape(n, c),
        c != EPSILON,
    ensures
        spec_matches(n, seq![c]),
        !spec_matches(n, Seq::<char>::empty()),
        !spec_matches(n, seq![c, c]),
{
    let states = n.states@;
    assert forall|x: int, y: int| !has_edge(states, x, EPSILON, y) by {}
    // The one-symbol string is accepted by the only run there is.
    let w = seq![c];
    assert(w.first() == c && w.drop_first() =~= Seq::<char>::empty());
    lemma_eps_reach_refl(states, 0);
    lemma_eps_reach_refl(states, 1);
    assert(has_edge(states, 0, c, 1));
    assert(reaches(states, 1, w.drop_first(), 1));
    assert(reaches(states, 0, w, 1));
    assert(accepts(states, 0, w));
    // The empty string would have to end in the non-accepting entry.
    if spec_matches(n, Seq::<char>::empty()) {
        let t = choose|t: int|
            #![auto]
            reaches(states, 0, Seq::<char>::empty(), t) && 0 <= t < states.len()
                && states[t].accepting;
        lemma_eps_reach_no_eps(states, 0, t);
        assert(false);
    }
    // The doubled symbol would need a second edge out of the exit.
    if spec_matches(n, seq![c, c]) {
        let ww = seq![c, c];
        let t = choose|t: int|
            #![auto]
            reaches(states, 0, ww, t) && 0 <= t < states.len() && states[t].accepting;
        let (m, b) = choose|m: int, b: int|
            #![auto]
            eps_reach(states, 0, m) && has_edge(states, m, ww.first(), b) && reaches(
                states,
                b,
                ww.drop_first(),
                t,
            );
        lemma_eps_reach_no_eps(states, 0, m);
        assert(b == 1);
        let rest = ww.drop_first();
        assert(rest.len() == 1 && rest.first() == c);
        let (m2, b2) = choose|m2: int, b2: int|
            #![auto]
            eps_reach(states, 1, m2) && has_edge(states, m2, rest.first(), b2) && reaches(
                states,
                b2,
                rest.drop_first(),
                t,
            );
        lemma_eps_reach_no_eps(states, 1, m2);
        assert(false);
    }
}

/// Concatenation is associative in accepted language: folding `[b]` onto
/// `a` and then `[c]` onto the result accepts exactly the strings of
/// folding `[b, c]` onto `a` in one go.
pub proof fn lemma_concat_assoc(a: NFA, b: NFA, c: NFA, ab: NFA, left: NFA, right: NFA, w: Seq<char>)
    requires
        concat_chain(ab, a, seq![b]),
        concat_chain(left, ab, seq![c]),
        concat_chain(right, a, seq![b, c]),
    ensures
        spec_matches(left, w) == spec_matches(right, w),
{
    assert(seq![b].drop_last() =~= Seq::<NFA>::empty());
    assert(seq![c].drop_last() =~= Seq::<NFA>::empty());
    assert(seq![b, c].drop_last() =~= seq![b]);
    assert(seq![b, c].last() == c);
    let mid0 = choose|mid: NFA|
        #![auto]
        concat_chain(mid, a, Seq::<NFA>::empty()) && concat_shape(ab, mid, b);
    let mid1 = choose|mid: NFA|
        #![auto]
        concat_chain(mid, ab, Seq::<NFA>::empty()) && concat_shape(left, mid, c);
    let mid2 = choose|mid: NFA| #![auto] concat_chain(mid, a, seq![b]) && concat_shape(right, mid, c);
    let mid3 = choose|mid: NFA|
        #![auto]
        concat_chain(mid, a, Seq::<NFA>::empty()) && concat_shape(mid2, mid, b);
    assert(nfa_equiv(mid0, a) && nfa_equiv(mid1, ab) && nfa_equiv(mid3, a));
    assert(nfa_equiv(mid0, mid3));
    assert(nfa_equiv(b, b));
    lemma_concat_shape_equiv(ab, mid0, b, mid2, mid3, b);
    assert(nfa_equiv(mid1, mid2));
    assert(nfa_equiv(c, c));
    lemma_concat_shape_equiv(left, mid1, c, right, mid2, c);
    lemma_matches_equiv(left, right, w);
}

/// One direction of commutativity: an alternation of `a` and `b` is
/// simulated by the alternation of `b` and `a` through the index map that
/// swaps the two copied fragments.
proof fn lemma_or_sim(x: NFA, y: NFA, a: NFA, b: NFA, w: Seq<char>)
    requires
        a.wf(),
        b.wf(),
        or_shape(x, a, b),
        or_shape(y, b, a),
        spec_matches(x, w),
    ensures
        spec_matches(y, w),
{
    let la = a.states@.len() as int;
    let lb = b.states@.len() as int;
    let h = |i: int|
        if 0 <= i < la {
            lb + i
        } else if la <= i < la + lb {
            i - la
        } else {
            i
        };
    assert forall|s: int, sym: char, d: int|
        #[trigger] has_edge(x.states@, s, sym, d) implies has_edge(y.states@, h(s), sym, h(d)) by {
        if 0 <= s < la && 0 <= d < la && has_edge(a.states@, s, sym, d) {
            assert(has_edge(y.states@, lb + s, sym, lb + d));
        } else if la <= s < la + lb && la <= d < la + lb && has_edge(
            b.states@,
            s - la,
            sym,
            d - la,
        ) {
            assert(has_edge(y.states@, s - la, sym, d - la));
        } else if s == la + lb && sym == EPSILON && d == a.in_state as int {
            assert(has_edge(y.states@, lb + la, sym, lb + a.in_state as int));
        } else if s == la + lb && sym == EPSILON && d == la + b.in_state as int {
            assert(has_edge(y.states@, lb + la, sym, b.in_state as int));
        } else if s == a.out_state as int && sym == EPSILON && d == la + lb + 1 {
            assert(s < la);
            assert(has_edge(y.states@, lb + a.out_state as int, sym, lb + la + 1));
        } else {
            assert(s == la + b.out_state as int && sym == EPSILON && d == la + lb + 1);
            assert(has_edge(y.states@, b.out_state as int, sym, lb + la + 1));
        }
    }
    let t = choose|t: int|
        #![auto]
        reaches(x.states@, x.in_state as int, w, t) && 0 <= t < x.states@.len()
            && x.states@[t].accepting;
    assert(t == la + lb + 1);
    lemma_reaches_map(x.states@, y.states@, h, x.in_state as int, w, t);
    assert(h(x.in_state as int) == la + lb && h(t) == t);
    assert(reaches(y.states@, y.in_state as int, w, t));
    assert(y.states@[t].accepting);
}

/// Alternation is commutative in accepted language.
pub proof fn lemma_alternate_comm(x: NFA, y: NFA, a: NFA, b: NFA, w: Seq<char>)
    requires
        a.wf(),
        b.wf(),
        or_shape(x, a, b),
        or_shape(y, b, a),
    ensures
        spec_matches(x, w) == spec_matches(y, w),
{
    if spec_matches(x, w) {
        lemma_or_sim(x, y, a, b, w);
    }
    if spec_matches(y, w) {
        lemma_or_sim(y, x, b, a, w);
    }
}

/// Repetition accepts the empty string.
pub proof fn lemma_star_empty(r: NFA, a: NFA)
    requires
        rep_shape(r, a),
    ensures
        spec_matches(r, Seq::<char>::empty()),
{
    let la = a.states@.len() as int;
    assert(has_edge(r.states@, la, EPSILON, la + 1));
    lemma_eps_reach_edge(r.states@, la, la + 1);
    assert(reaches(r.states@, la, Seq::<char>::empty(), la + 1));
    assert(r.states@[la + 1].accepting);
}

/// Repetition is closed under appending one more accepted round: if the
/// star accepts `u` and the inner fragment accepts `v`, the star accepts
/// `u + v`.  Together with acceptance of the empty string this yields every
/// finite repetition.
pub proof fn lemma_star_append(r: NFA, a: NFA, u: Seq<char>, v: Seq<char>)
    requires
        a.wf(),
        rep_shape(r, a),
        spec_matches(r, u),
        spec_matches(a, v),
    ensures
        spec_matches(r, u + v),
{
    let la = a.states@.len() as int;
    let states = r.states@;
    // The run for `u` ends in the unique accepting state, the new exit.
    let tu = choose|t: int|
        #![auto]
        reaches(states, r.in_state as int, u, t) && 0 <= t < states.len() && states[t].accepting;
    assert(tu == la + 1);
    // Follow the repetition back-edge to the inner entry.
    assert(has_edge(states, la + 1, EPSILON, a.in_state as int));
    lemma_eps_reach_edge(states, la + 1, a.in_state as int);
    lemma_reaches_extend(states, r.in_state as int, u, tu, a.in_state as int);
    // The inner run for `v` ends in the inner exit, embeds unchanged,
    let tv = choose|t: int|
        #![auto]
        reaches(a.states@, a.in_state as int, v, t) && 0 <= t < a.states@.len()
            && a.states@[t].accepting;
    assert(tv == a.out_state as int);
    let h = |i: int| i;
    assert forall|s: int, sym: char, d: int|
        #[trigger] has_edge(a.states@, s, sym, d) implies has_edge(states, h(s), sym, h(d)) by {
        assert(0 <= s < la);
        assert(0 <= d < la);
    }
    lemma_reaches_map(a.states@, states, h, a.in_state as int, v, tv);
    // and is closed off by the epsilon edge from the inner exit to the new exit.
    assert(has_edge(states, a.out_state as int, EPSILON, la + 1));
    lemma_eps_reach_edge(states, a.out_state as int, la + 1);
    lemma_reaches_extend(states, a.in_state as int, v, a.out_state as int, la + 1);
    lemma_reaches_compose(states, r.in_state as int, u, a.in_state as int, v, la + 1);
    assert(states[la + 1].accepting);
}

/// Every string of the inner fragment's language is itself one round of
/// the repetition.
pub proof fn lemma_star_one(r: NFA, a: NFA, v: Seq<char>)
    requires
        a.wf(),
        rep_shape(r, a),
        spec_matches(a, v),
    ensures
        spec_matches(r, v),
{
    lemma_star_empty(r, a);
    lemma_star_append(r, a, Seq::empty(), v);
    assert(Seq::<char>::empty() + v =~= v);
}

/// Flattening is deterministic in table shape: any two tables obtained by
/// flattening the same fragment carry the same accept identifier, the
/// same keys and the same edges, independent of the order their rows were
/// discovered in.
pub proof fn lemma_flatten_shape_stable(
    n: NFA,
    t1: TransitionTable,
    a1: usize,
    t2: TransitionTable,
    a2: usize,
)
    requires
        flatten_post(n, t1, a1),
        flatten_post(n, t2, a2),
    ensures
        a1 == a2,
        forall|id: int| #![auto] table_has_key(t1, id) <==> table_has_key(t2, id),
        forall|a: int, sym: char, b: int|
            #![auto]
            table_edge(t1, a, sym, b) <==> table_edge(t2, a, sym, b),
{
}

} // verus!
