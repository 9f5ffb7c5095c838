//! Runs over the live graph and over its flattened transition table are
//! the same relation: the half of language preservation that the
//! flattener itself guarantees.

use vstd::prelude::*;

use crate::dfa::{
    is_t_eps_path, lemma_t_eps_reach_edge, lemma_t_eps_reach_refl, lemma_t_eps_reach_trans,
    t_eps_reach,
};
use crate::lang::{
    any_edge, eps_reach, flatten_post, has_edge, is_eps_path, lemma_reachable_step, reachable,
    reaches, table_edge,
};
use crate::nfa::{TransitionTable, NFA};
use crate::state::EPSILON;

verus! {

/// A run over the table from identifier `s` consumes `w` and ends at
/// `t2`, with free epsilon moves before each symbol and after the last;
/// the table-level mirror of a run over the live graph.
pub open spec fn t_reaches(t: TransitionTable, s: int, w: Seq<char>, t2: int) -> bool
    decreases w.len(),
{
    if w.len() == 0 {
        t_eps_reach(t, s, t2)
    } else {
        w.first() != EPSILON && exists|m: int, b: int|
            #![auto]
            t_eps_reach(t, s, m) && table_edge(t, m, w.first(), b) && t_reaches(
                t,
                b,
                w.drop_first(),
                t2,
            )
    }
}

/// An epsilon path of the live graph that starts in a reachable state is
/// mirrored by the flattened table, and its end is reachable too.
#[verifier::spinoff_prover]
pub proof fn lemma_eps_path_graph_to_table(n: NFA, t: TransitionTable, acc: usize, p: Seq<int>)
    requires
        flatten_post(n, t, acc),
        is_eps_path(n.states@, p),
        reachable(n.states@, n.in_state as int, p.first()),
    ensures
        t_eps_reach(t, p.first(), p.last()),
        reachable(n.states@, n.in_state as int, p.last()),
    decreases p.len(),
{
    if p.len() == 1 {
        lemma_t_eps_reach_refl(t, p.first());
    } else {
        assert(has_edge(n.states@, p[0], EPSILON, p[1]));
        assert(table_edge(t, p[0], EPSILON, p[1]));
        assert(any_edge(n.states@, p[0], p[1]));
        lemma_reachable_step(n.states@, n.in_state as int, p[0], p[1]);
        let q = p.drop_first();
        assert forall|i: int| 0 <= i < q.len() - 1 implies has_edge(
            n.states@,
            #[trigger] q[i],
            EPSILON,
            q[i + 1],
        ) by {
            assert(q[i] == p[i + 1] && q[i + 1] == p[i + 2]);
            assert(has_edge(n.states@, p[i + 1], EPSILON, p[i + 2]));
        }
        assert(is_eps_path(n.states@, q));
        lemma_eps_path_graph_to_table(n, t, acc, q);
        lemma_t_eps_reach_edge(t, p[0], p[1]);
        lemma_t_eps_reach_trans(t, p[0], p[1], p.last());
    }
}

/// Flattening preserves runs: from any reachable state, the live graph
/// and the flattened table admit exactly the same runs.
#[verifier::spinoff_prover]
pub proof fn lemma_reaches_graph_table(
    n: NFA,
    t: TransitionTable,
    acc: usize,
    s: int,
    w: Seq<char>,
    t2: int,
)
    requires
        flatten_post(n, t, acc),
        reachable(n.states@, n.in_state as int, s),
    ensures
        reaches(n.states@, s, w, t2) == t_reaches(t, s, w, t2),
    decreases w.len(),
{
    if w.len() == 0 {
        if reaches(n.states@, s, w, t2) {
            let p = choose|p: Seq<int>|
                is_eps_path(n.states@, p) && p.first() == s && p.last() == t2;
            lemma_eps_path_graph_to_table(n, t, acc, p);
        }
        if t_reaches(t, s, w, t2) {
            let p = choose|p: Seq<int>| is_t_eps_path(t, p) && p.first() == s && p.last() == t2;
            assert forall|i: int| 0 <= i < p.len() - 1 implies has_edge(
                n.states@,
                #[trigger] p[i],
                EPSILON,
                p[i + 1],
            ) by {
                assert(table_edge(t, p[i], EPSILON, p[i + 1]));
            }
            assert(is_eps_path(n.states@, p));
        }
    } else {
        if reaches(n.states@, s, w, t2) {
            let (m, b) = choose|m: int, b: int|
                #![auto]
                eps_reach(n.states@, s, m) && has_edge(n.states@, m, w.first(), b) && reaches(
                    n.states@,
                    b,
                    w.drop_first(),
                    t2,
                );
            let p = choose|p: Seq<int>| is_eps_path(n.states@, p) && p.first() == s && p.last() == m;
            lemma_eps_path_graph_to_table(n, t, acc, p);
            assert(table_edge(t, m, w.first(), b));
            assert(any_edge(n.states@, m, b));
            lemma_reachable_step(n.states@, n.in_state as int, m, b);
            lemma_reaches_graph_table(n, t, acc, b, w.drop_first(), t2);
            assert(t_reaches(t, s, w, t2));
        }
        if t_reaches(t, s, w, t2) {
            let (m, b) = choose|m: int, b: int|
                #![auto]
                t_eps_reach(t, s, m) && table_edge(t, m, w.first(), b) && t_reaches(
                    t,
                    b,
                    w.drop_first(),
                    t2,
                );
            let p = choose|p: Seq<int>| is_t_eps_path(t, p) && p.first() == s && p.last() == m;
            assert forall|i: int| 0 <= i < p.len() - 1 implies has_edge(
                n.states@,
                #[trigger] p[i],
                EPSILON,
                p[i + 1],
            ) by {
                assert(table_edge(t, p[i], EPSILON, p[i + 1]));
            }
            assert(is_eps_path(n.states@, p));
            assert(eps_reach(n.states@, s, m));
            assert(reachable(n.states@, n.in_state as int, m) && has_edge(
                n.states@,
                m,
                w.first(),
                b,
            ));
            assert(any_edge(n.states@, m, b));
            lemma_reachable_step(n.states@, n.in_state as int, m, b);
            lemma_reaches_graph_table(n, t, acc, b, w.drop_first(), t2);
            assert(reaches(n.states@, s, w, t2));
        }
    }
}

} // verus!
