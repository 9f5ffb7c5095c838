//! Nondeterministic finite automata and the fragment algebra that composes
//! them: literal symbol, concatenation, alternation and repetition.
//!
//! An `NFA` owns an arena of states; `in_state` and `out_state` are the
//! designated entry and (unique accepting) exit of the fragment.

use vstd::prelude::*;

use crate::lang::{
    any_edge, cells_equiv, concat_cells, concat_chain, concat_shape, flatten_ok, flatten_post,
    has_edge, literal_cells, or_cells, rep_cells,
    lemma_distinct_bounded, lemma_reachable_refl, lemma_reachable_step, lemma_suffix_total_nonneg,
    lemma_walk_closed, literal_shape, is_walk, nfa_equiv, or_shape, reachable, rep_shape, row_merged,
    bfs_inv, lemma_bfs_complete, spec_matches, suffix_total, table_edge, table_has_key, table_keys_unique,
    traversal_ok,
};
use crate::state::{
    cells_edge, char_contains, dests_for, eps_extended, eps_only, lemma_cells_edge_push,
    lemma_dests_for_cellwise_shift, lemma_dests_for_edge, lemma_seq_push_contains, shifted_cells,
    state_has_edge, state_symbols, vec_contains, AutomatonError, State, EPSILON,
};

verus! {

/// One row cell of a transition table: a symbol together with the ordered
/// list of destination state indices reachable on that symbol.
pub struct CELL {
    pub symbol: char,
    pub transition: Vec<usize>,
}

impl CELL {
    /// An empty cell for `symbol`.
    pub fn new(symbol: char) -> (r: CELL)
        ensures
            r.symbol == symbol,
            r.transition@.len() == 0,
    {
        CELL { symbol, transition: Vec::new() }
    }

    /// An empty cell for the reserved epsilon marker.
    pub fn new_epslion() -> (r: CELL)
        ensures
            r.symbol == EPSILON,
            r.transition@.len() == 0,
    {
        CELL { symbol: EPSILON, transition: Vec::new() }
    }

    /// Appends one destination to this cell.
    pub fn add_transition(&mut self, state_id: usize)
        ensures
            final(self).symbol == old(self).symbol,
            final(self).transition@ == old(self).transition@.push(state_id),
    {
        self.transition.push(state_id);
    }
}

/// One row of a flattened transition table: a state identifier together
/// with one cell per outgoing symbol.
pub struct TableRow {
    pub id: usize,
    pub cells: Vec<CELL>,
}

/// A flattened transition table: the immutable, query-only form of an
/// automaton, with every reachable state as a key and no dangling edges.
pub struct TransitionTable {
    pub rows: Vec<TableRow>,
}

/// A nondeterministic finite automaton fragment.  All states of the fragment
/// live in `states`; edges refer to states by index.
pub struct NFA {
    pub states: Vec<State>,
    pub in_state: usize,
    pub out_state: usize,
}

impl NFA {
    /// Entry and exit are valid indices and every edge stays inside the arena.
    pub open spec fn closed(self) -> bool {
        &&& (self.in_state as int) < self.states@.len()
        &&& (self.out_state as int) < self.states@.len()
        &&& forall|a: int, sym: char, b: int|
            has_edge(self.states@, a, sym, b) ==> 0 <= b < self.states@.len()
    }

    /// The exit is the one and only accepting state of the fragment.
    pub open spec fn single_accept(self) -> bool {
        &&& self.states@[self.out_state as int].accepting
        &&& forall|i: int|
            0 <= i < self.states@.len() && i != self.out_state as int ==> !(
            #[trigger] self.states@[i]).accepting
    }

    /// The structural invariant every fragment built by this algebra enjoys.
    pub open spec fn wf(self) -> bool {
        &&& self.closed()
        &&& self.single_accept()
        &&& self.in_state != self.out_state
    }

    /// A fragment with a non-accepting entry, an accepting exit and no edges.
    pub fn new() -> (r: NFA)
        ensures
            r.states@.len() == 2,
            r.in_state == 0usize,
            r.out_state == 1usize,
            !r.states@[0].accepting,
            r.states@[1].accepting,
            r.states@[0].transitions@.len() == 0,
            r.states@[1].transitions@.len() == 0,
            forall|a: int, sym: char, b: int| !has_edge(r.states@, a, sym, b),
            r.wf(),
    {
        let mut states: Vec<State> = Vec::new();
        states.push(State::new(false));
        states.push(State::new(true));
        let r = NFA { states, in_state: 0, out_state: 1 };
        proof {
            assert forall|a: int, sym: char, b: int| !has_edge(r.states@, a, sym, b) by {
                if has_edge(r.states@, a, sym, b) {
                    assert(r.states@[a].transitions@.len() == 0);
                }
            }
        }
        r
    }

    /// The literal operator: an automaton accepting exactly the one-symbol
    /// string `symbol`.  The reserved epsilon marker is rejected.
    pub fn char(symbol: char) -> (r: Result<NFA, AutomatonError>)
        ensures
            r is Ok <==> symbol != EPSILON,
            r is Err ==> r->Err_0 == AutomatonError::InvalidSymbol,
            r is Ok ==> literal_shape(r->Ok_0, symbol) && literal_cells(r->Ok_0, symbol) && (
            r->Ok_0).wf(),
    {
        if symbol == EPSILON {
            return Err(AutomatonError::InvalidSymbol);
        }
        let mut nfa = NFA::new();
        let ghost pre = nfa;
        add_edge(&mut nfa.states, 0, symbol, 1);
        proof {
            assert(literal_shape(nfa, symbol));
            assert(literal_cells(nfa, symbol)) by {
                assert(pre.states@[0].transitions@.len() == 0);
                assert(dests_for(pre.states@[0].transitions@, symbol) =~= Seq::<usize>::empty());
                assert(state_symbols(pre.states@[0]) =~= Seq::<char>::empty());
                assert(!state_symbols(pre.states@[0]).contains(symbol));
                assert(state_symbols(nfa.states@[0]) =~= seq![symbol]);
                assert(dests_for(nfa.states@[0].transitions@, symbol) =~= seq![1usize]);
                assert forall|sym: char| sym != symbol implies #[trigger] dests_for(
                    nfa.states@[0].transitions@,
                    sym,
                ) == Seq::<usize>::empty() by {
                    assert(dests_for(pre.states@[0].transitions@, sym) =~= Seq::<usize>::empty());
                }
                assert(nfa.states@[1] == pre.states@[1]);
            }
        }
        Ok(nfa)
    }

    /// Adds an epsilon edge from the entry to the exit of this fragment.
    pub fn add_epsilon_transition(&mut self)
        requires
            old(self).closed(),
        ensures
            final(self).states@.len() == old(self).states@.len(),
            final(self).in_state == old(self).in_state,
            final(self).out_state == old(self).out_state,
            forall|i: int|
                0 <= i < old(self).states@.len() ==> (#[trigger] final(self).states@[i]).accepting
                    == old(self).states@[i].accepting,
            forall|a: int, sym: char, b: int|
                has_edge(final(self).states@, a, sym, b) <==> (has_edge(
                    old(self).states@,
                    a,
                    sym,
                    b,
                ) || (a == old(self).in_state as int && sym == EPSILON && b == old(
                    self,
                ).out_state as int)),
            forall|i: int|
                0 <= i < old(self).states@.len() && i != old(self).in_state as int
                    ==> final(self).states@[i] == old(self).states@[i],
            dests_for(
                final(self).states@[old(self).in_state as int].transitions@,
                EPSILON,
            ) == dests_for(
                old(self).states@[old(self).in_state as int].transitions@,
                EPSILON,
            ).push(old(self).out_state),
            forall|sym: char|
                sym != EPSILON ==> #[trigger] dests_for(
                    final(self).states@[old(self).in_state as int].transitions@,
                    sym,
                ) == dests_for(old(self).states@[old(self).in_state as int].transitions@, sym),
            old(self).wf() ==> final(self).wf(),
    {
        let to = self.out_state;
        let from = self.in_state;
        add_edge(&mut self.states, from, EPSILON, to);
    }
}

/// Appends one edge `from --symbol--> to` to the arena, changing nothing
/// else: every other state is untouched, the acceptance flags survive,
/// `symbol`'s destination list at `from` gains exactly `to` at its end,
/// and every other destination list stays as it was.
pub(crate) fn add_edge(states: &mut Vec<State>, from: usize, symbol: char, to: usize)
    requires
        (from as int) < old(states)@.len(),
    ensures
        final(states)@.len() == old(states)@.len(),
        forall|i: int|
            0 <= i < old(states)@.len() && i != from as int ==> final(states)@[i] == old(
                states,
            )@[i],
        forall|i: int|
            0 <= i < old(states)@.len() ==> (#[trigger] final(states)@[i]).accepting == old(
                states,
            )@[i].accepting,
        dests_for(final(states)@[from as int].transitions@, symbol) == dests_for(
            old(states)@[from as int].transitions@,
            symbol,
        ).push(to),
        forall|sym: char|
            sym != symbol ==> #[trigger] dests_for(final(states)@[from as int].transitions@, sym)
                == dests_for(old(states)@[from as int].transitions@, sym),
        state_symbols(final(states)@[from as int]) == (if state_symbols(
            old(states)@[from as int],
        ).contains(symbol) {
            state_symbols(old(states)@[from as int])
        } else {
            state_symbols(old(states)@[from as int]).push(symbol)
        }),
        forall|a: int, sym: char, b: int|
            has_edge(final(states)@, a, sym, b) <==> (has_edge(old(states)@, a, sym, b) || (a
                == from as int && sym == symbol && b == to as int)),
{
    let ghost pre = states@;
    let mut st = states.remove(from);
    st.add_transition_for_symbol(symbol, to);
    states.insert(from, st);
    proof {
        assert(states@ =~= pre.update(from as int, states@[from as int]));
        assert forall|a: int, sym: char, b: int|
            has_edge(states@, a, sym, b) implies (has_edge(pre, a, sym, b) || (a == from as int
            && sym == symbol && b == to as int)) by {
            if a != from as int {
                assert(states@[a] == pre[a]);
            }
        }
        assert forall|a: int, sym: char, b: int|
            has_edge(pre, a, sym, b) implies has_edge(states@, a, sym, b) by {
            if a != from as int {
                assert(states@[a] == pre[a]);
            }
        }
        assert(has_edge(states@, from as int, symbol, to as int));
    }
}

/// Sets the acceptance flag of one state, changing nothing else.
pub(crate) fn set_accepting(states: &mut Vec<State>, i: usize, accepting: bool)
    requires
        (i as int) < old(states)@.len(),
    ensures
        final(states)@.len() == old(states)@.len(),
        forall|j: int|
            0 <= j < old(states)@.len() && j != i as int ==> final(states)@[j] == old(states)@[j],
        final(states)@[i as int].accepting == accepting,
        final(states)@[i as int].transitions == old(states)@[i as int].transitions,
        forall|a: int, sym: char, b: int|
            has_edge(final(states)@, a, sym, b) <==> has_edge(old(states)@, a, sym, b),
{
    let ghost pre = states@;
    let mut st = states.remove(i);
    st.accepting = accepting;
    states.insert(i, st);
    proof {
        assert(states@ =~= pre.update(i as int, states@[i as int]));
        assert forall|a: int, sym: char, b: int|
            has_edge(states@, a, sym, b) implies has_edge(pre, a, sym, b) by {
            if a != i as int {
                assert(states@[a] == pre[a]);
            } else {
                assert(states@[a].transitions == pre[a].transitions);
            }
        }
        assert forall|a: int, sym: char, b: int|
            has_edge(pre, a, sym, b) implies has_edge(states@, a, sym, b) by {
            if a != i as int {
                assert(states@[a] == pre[a]);
            } else {
                assert(states@[a].transitions == pre[a].transitions);
            }
        }
    }
}

/// Copies the states of `src` onto the end of `dst`, renumbering every
/// destination index by the length `dst` had before the call, so that the
/// copied fragment keeps its internal edge structure at its new indices.
#[verifier::loop_isolation(false)]
pub(crate) fn append_shifted(dst: &mut Vec<State>, src: &Vec<State>)
    requires
        forall|a: int, sym: char, b: int| has_edge(src@, a, sym, b) ==> 0 <= b < src@.len(),
        old(dst)@.len() + src@.len() <= usize::MAX,
    ensures
        final(dst)@.len() == old(dst)@.len() + src@.len(),
        forall|i: int| 0 <= i < old(dst)@.len() ==> final(dst)@[i] == old(dst)@[i],
        forall|i: int|
            0 <= i < src@.len() ==> (#[trigger] final(dst)@[old(dst)@.len() + i]).accepting
                == src@[i].accepting,
        forall|i: int, sym: char, b: int|
            0 <= i < src@.len() ==> ((#[trigger] state_has_edge(
                final(dst)@[old(dst)@.len() + i],
                sym,
                b,
            )) <==> state_has_edge(src@[i], sym, (b - old(dst)@.len()) as int) && old(
                dst,
            )@.len() <= b),
        forall|a: int, sym: char, b: int|
            #[trigger] has_edge(final(dst)@, a, sym, b) <==> {
                ||| (0 <= a < old(dst)@.len() && has_edge(old(dst)@, a, sym, b))
                ||| (old(dst)@.len() <= a < old(dst)@.len() + src@.len() && old(dst)@.len() <= b
                    && has_edge(src@, a - old(dst)@.len(), sym, b - old(dst)@.len()))
            },
        forall|i: int|
            0 <= i < src@.len() ==> shifted_cells(
                #[trigger] final(dst)@[old(dst)@.len() + i],
                src@[i],
                old(dst)@.len() as int,
            ),
{
    let off = dst.len();
    let n = src.len();
    let mut i: usize = 0;
    while i < n
        invariant
            n == src@.len(),
            off + n <= usize::MAX,
            off == old(dst)@.len(),
            i <= n,
            dst@.len() == off + i,
            forall|q: int| 0 <= q < off ==> dst@[q] == old(dst)@[q],
            forall|q: int|
                0 <= q < i ==> (#[trigger] dst@[off + q]).accepting == src@[q].accepting,
            forall|q: int, sym: char, b: int|
                0 <= q < i ==> ((#[trigger] state_has_edge(dst@[off + q], sym, b))
                    <==> state_has_edge(src@[q], sym, b - off) && off <= b),
            forall|q: int|
                0 <= q < i ==> shifted_cells(#[trigger] dst@[off + q], src@[q], off as int),
        decreases n - i,
    {
        let mut cells: Vec<CELL> = Vec::new();
        let m = src[i].transitions.len();
        let mut j: usize = 0;
        while j < m
            invariant
                i < n,
                n == src@.len(),
                off + n <= usize::MAX,
                m == src@[i as int].transitions@.len(),
                j <= m,
                cells@.len() == j,
                forall|q: int|
                    0 <= q < j ==> (#[trigger] cells@[q]).symbol == src@[
                        i as int
                    ].transitions@[q].symbol,
                forall|q: int|
                    0 <= q < j ==> (#[trigger] cells@[q]).transition@ == src@[
                        i as int
                    ].transitions@[q].transition@.map_values(|d: usize| (d + off) as usize),
            decreases m - j,
        {
            let cell_len = src[i].transitions[j].transition.len();
            let mut t: Vec<usize> = Vec::new();
            let mut k: usize = 0;
            while k < cell_len
                invariant
                    i < n,
                    j < m,
                    n == src@.len(),
                    off + n <= usize::MAX,
                    m == src@[i as int].transitions@.len(),
                    cell_len == src@[i as int].transitions@[j as int].transition@.len(),
                    k <= cell_len,
                    t@.len() == k,
                    forall|q: int|
                        0 <= q < k ==> t@[q] == (src@[i as int].transitions@[j as int].transition@[q]
                            + off) as usize,
                decreases cell_len - k,
            {
                let d = src[i].transitions[j].transition[k];
                proof {
                    assert(state_has_edge(src@[i as int], src@[i as int].transitions@[j as int].symbol, d as int));
                    assert(has_edge(src@, i as int, src@[i as int].transitions@[j as int].symbol, d as int));
                }
                t.push(d + off);
                k += 1;
            }
            cells.push(CELL { symbol: src[i].transitions[j].symbol, transition: t });
            proof {
                assert(cells@[j as int].transition@ =~= src@[i as int].transitions@[
                    j as int
                ].transition@.map_values(|d: usize| (d + off) as usize));
            }
            j += 1;
        }
        dst.push(State { accepting: src[i].accepting, transitions: cells });
        proof {
            let ii = i as int;
            let stnew = dst@[off + ii];
            let stold = src@[ii];
            assert forall|sym: char, b: int|
                state_has_edge(stnew, sym, b) implies (state_has_edge(stold, sym, b - off) && off
                <= b) by {
                let (j2, k2) = choose|j2: int, k2: int|
                    #![auto]
                    0 <= j2 < stnew.transitions@.len() && stnew.transitions@[j2].symbol == sym && 0
                        <= k2 < stnew.transitions@[j2].transition@.len()
                        && stnew.transitions@[j2].transition@[k2] as int == b;
                assert(stold.transitions@[j2].symbol == sym);
                let d0 = stold.transitions@[j2].transition@[k2];
                assert(state_has_edge(stold, sym, d0 as int));
                assert(has_edge(src@, ii, sym, d0 as int));
                assert(d0 < n);
                assert(stnew.transitions@[j2].transition@[k2] == (d0 + off) as usize);
                assert(d0 + off <= usize::MAX);
                assert(b == d0 + off);
            }
            assert forall|sym: char, b: int|
                state_has_edge(stold, sym, b - off) && off <= b implies state_has_edge(
                stnew,
                sym,
                b,
            ) by {
                let (j2, k2) = choose|j2: int, k2: int|
                    #![auto]
                    0 <= j2 < stold.transitions@.len() && stold.transitions@[j2].symbol == sym && 0
                        <= k2 < stold.transitions@[j2].transition@.len()
                        && stold.transitions@[j2].transition@[k2] as int == b - off;
                assert(stnew.transitions@[j2].symbol == sym);
                let d0 = stold.transitions@[j2].transition@[k2];
                assert(state_has_edge(stold, sym, d0 as int));
                assert(has_edge(src@, ii, sym, d0 as int));
                assert(d0 < n);
                assert(stnew.transitions@[j2].transition@[k2] == (d0 + off) as usize);
                assert(stnew.transitions@[j2].transition@[k2] as int == b);
            }
            assert(shifted_cells(stnew, stold, off as int)) by {
                assert(state_symbols(stnew) =~= state_symbols(stold));
                assert forall|j: int|
                    0 <= j < stold.transitions@.len() implies (
                #[trigger] stnew.transitions@[j]).transition@ =~= stold.transitions@[
                    j
                ].transition@.map_values(|d: usize| (d + off as int) as usize) by {
                    assert(stnew.transitions@[j].transition@ == stold.transitions@[
                        j
                    ].transition@.map_values(|d: usize| (d + off) as usize));
                }
                assert forall|sym: char| true implies #[trigger] dests_for(
                    stnew.transitions@,
                    sym,
                ) == dests_for(stold.transitions@, sym).map_values(
                    |d: usize| (d + off as int) as usize,
                ) by {
                    lemma_dests_for_cellwise_shift(
                        stold.transitions@,
                        stnew.transitions@,
                        off as int,
                        sym,
                    );
                }
            }
        }
        i += 1;
    }
    proof {
        let off0 = old(dst)@.len() as int;
        let lsrc = src@.len() as int;
        assert forall|a: int, sym: char, b: int|
            has_edge(dst@, a, sym, b) implies ((0 <= a < off0 && has_edge(old(dst)@, a, sym, b))
            || (off0 <= a < off0 + lsrc && off0 <= b && has_edge(
            src@,
            a - off0,
            sym,
            b - off0,
        ))) by {
            if a < off0 {
                assert(dst@[a] == old(dst)@[a]);
            } else {
                assert(state_has_edge(dst@[off0 + (a - off0)], sym, b));
            }
        }
        assert forall|a: int, sym: char, b: int|
            ((0 <= a < off0 && has_edge(old(dst)@, a, sym, b)) || (off0 <= a < off0 + lsrc && off0
            <= b && has_edge(src@, a - off0, sym, b - off0))) implies has_edge(
            dst@,
            a,
            sym,
            b,
        ) by {
            if a < off0 {
                assert(dst@[a] == old(dst)@[a]);
            } else {
                assert(state_has_edge(dst@[off0 + (a - off0)], sym, b));
            }
        }
    }
}

impl NFA {
    /// A fresh fragment with the same entry, exit, acceptance flags and edge
    /// relation as this one.
    pub fn duplicate(&self) -> (r: NFA)
        requires
            self.closed(),
        ensures
            nfa_equiv(r, *self),
            cells_equiv(r, *self),
            self.wf() ==> r.wf(),
    {
        let n = self.states.len();
        let mut states: Vec<State> = Vec::with_capacity(n);
        append_shifted(&mut states, &self.states);
        let r = NFA { states, in_state: self.in_state, out_state: self.out_state };
        proof {
            assert forall|a: int, sym: char, b: int|
                #![auto]
                has_edge(r.states@, a, sym, b) <==> has_edge(self.states@, a, sym, b) by {
                if has_edge(self.states@, a, sym, b) {
                    assert(0 <= b);
                }
            }
            assert forall|i: int| 0 <= i < self.states@.len() implies ((
            #[trigger] r.states@[i]).accepting == self.states@[i].accepting) by {
                assert(r.states@[0 + i].accepting == self.states@[i].accepting);
            }
            assert forall|i: int| 0 <= i < self.states@.len() implies shifted_cells(
                #[trigger] r.states@[i],
                self.states@[i],
                0,
            ) by {
                assert(shifted_cells(r.states@[0 + i], self.states@[i], 0));
            }
        }
        r
    }

    /// Concatenation of two fragments: every string of the result's language
    /// is a string of `first`'s language followed by one of `second`'s.
    /// `first`'s exit loses its acceptance and gains an epsilon edge to
    /// `second`'s entry; the result runs from `first`'s entry to `second`'s
    /// exit.
    pub fn concat_pair(first: &NFA, second: &NFA) -> (r: NFA)
        requires
            first.wf(),
            second.wf(),
            first.states@.len() + second.states@.len() <= usize::MAX,
        ensures
            concat_shape(r, *first, *second),
            concat_cells(r, *first, *second),
            r.wf(),
    {
        let la = first.states.len();
        let lb = second.states.len();
        let mut states: Vec<State> = Vec::new();
        append_shifted(&mut states, &first.states);
        let ghost e1 = states@;
        append_shifted(&mut states, &second.states);
        let ghost e2 = states@;
        set_accepting(&mut states, first.out_state, false);
        let ghost e3 = states@;
        add_edge(&mut states, first.out_state, EPSILON, la + second.in_state);
        let r = NFA { states, in_state: first.in_state, out_state: la + second.out_state };
        proof {
            let lai = la as int;
            let lbi = lb as int;
            assert forall|s: int, sym: char, d: int|
                #![auto]
                has_edge(r.states@, s, sym, d) <==> {
                    ||| (0 <= s < lai && 0 <= d < lai && has_edge(first.states@, s, sym, d))
                    ||| (lai <= s < lai + lbi && lai <= d < lai + lbi && has_edge(
                        second.states@,
                        s - lai,
                        sym,
                        d - lai,
                    ))
                    ||| (s == first.out_state as int && sym == EPSILON && d == lai
                        + second.in_state as int)
                } by {
                if has_edge(r.states@, s, sym, d) {
                    if has_edge(e2, s, sym, d) {
                        if has_edge(e1, s, sym, d) {
                            assert(0 <= s < lai && 0 <= d < lai && has_edge(
                                first.states@,
                                s,
                                sym,
                                d,
                            ));
                        } else {
                            assert(has_edge(second.states@, s - lai, sym, d - lai));
                            assert(0 <= d - lai < lbi);
                        }
                    }
                }
                if 0 <= s < lai && 0 <= d < lai && has_edge(first.states@, s, sym, d) {
                    assert(has_edge(e1, s, sym, d));
                    assert(has_edge(e2, s, sym, d));
                    assert(has_edge(r.states@, s, sym, d));
                }
                if lai <= s < lai + lbi && lai <= d < lai + lbi && has_edge(
                    second.states@,
                    s - lai,
                    sym,
                    d - lai,
                ) {
                    assert(has_edge(e2, s, sym, d));
                    assert(has_edge(r.states@, s, sym, d));
                }
            }
            assert forall|i: int| 0 <= i < lai + lbi implies ((#[trigger] r.states@[i]).accepting
                <==> (if i < lai {
                first.states@[i].accepting && i != first.out_state as int
            } else {
                second.states@[i - lai].accepting
            })) by {
                if i < lai {
                    if i != first.out_state as int {
                        assert(e1[0 + i].accepting == first.states@[i].accepting);
                        assert(e2[i] == e1[i]);
                    }
                } else {
                    assert(e2[lai + (i - lai)].accepting == second.states@[i - lai].accepting);
                    assert(i != first.out_state as int);
                }
            }
            assert(concat_shape(r, *first, *second));
            assert forall|a: int, sym: char, b: int|
                has_edge(r.states@, a, sym, b) implies 0 <= b < r.states@.len() by {}
            assert(r.states@[r.out_state as int].accepting);
            let ao = first.out_state as int;
            assert forall|i: int| 0 <= i < lai && i != ao implies shifted_cells(
                #[trigger] r.states@[i],
                first.states@[i],
                0,
            ) by {
                assert(shifted_cells(e1[0 + i], first.states@[i], 0));
                assert(e2[i] == e1[i]);
                assert(e3[i] == e2[i]);
                assert(r.states@[i] == e3[i]);
            }
            assert forall|i: int| 0 <= i < lbi implies shifted_cells(
                #[trigger] r.states@[lai + i],
                second.states@[i],
                lai,
            ) by {
                assert(shifted_cells(e2[e1.len() + i], second.states@[i], e1.len() as int));
                assert(e3[lai + i] == e2[lai + i]);
                assert(r.states@[lai + i] == e3[lai + i]);
            }
            assert(eps_extended(
                r.states@[ao],
                first.states@[ao],
                0,
                (lai + second.in_state) as usize,
            )) by {
                assert(shifted_cells(e1[0 + ao], first.states@[ao], 0));
                assert(e2[ao] == e1[ao]);
                assert(e3[ao].transitions == e2[ao].transitions);
                assert(state_symbols(e3[ao]) == state_symbols(first.states@[ao]));
                assert forall|sym: char| true implies #[trigger] dests_for(
                    e3[ao].transitions@,
                    sym,
                ) == dests_for(first.states@[ao].transitions@, sym).map_values(
                    |d: usize| (d + 0) as usize,
                ) by {
                    assert(dests_for(e1[ao].transitions@, sym) == dests_for(
                        first.states@[ao].transitions@,
                        sym,
                    ).map_values(|d: usize| (d + 0) as usize));
                }
            }
        }
        r
    }

    /// Left fold of pairwise concatenation of `first` with the fragments of
    /// `rest`; with an empty `rest` the result is `first` itself (as a fresh
    /// copy with the same language).
    #[verifier::loop_isolation(false)]
    pub fn concat(first: &NFA, array_of_nfa: &Vec<NFA>) -> (r: NFA)
        requires
            first.wf(),
            forall|i: int| 0 <= i < array_of_nfa@.len() ==> (#[trigger] array_of_nfa@[i]).wf(),
            first.states@.len() + suffix_total(array_of_nfa@, 0) <= usize::MAX,
        ensures
            concat_chain(r, *first, array_of_nfa@),
            r.wf(),
    {
        let mut current = first.duplicate();
        proof {
            assert(array_of_nfa@.subrange(0, 0) =~= Seq::<NFA>::empty());
            lemma_suffix_total_nonneg(array_of_nfa@, 0);
        }
        let n = array_of_nfa.len();
        let mut i: usize = 0;
        while i < n
            invariant
                n == array_of_nfa@.len(),
                i <= n,
                current.wf(),
                concat_chain(current, *first, array_of_nfa@.subrange(0, i as int)),
                current.states@.len() + suffix_total(array_of_nfa@, i as int) <= usize::MAX,
            decreases n - i,
        {
            proof {
                lemma_suffix_total_nonneg(array_of_nfa@, i as int + 1);
            }
            let next = NFA::concat_pair(&current, &array_of_nfa[i]);
            proof {
                let prefix = array_of_nfa@.subrange(0, i as int + 1);
                assert(prefix.drop_last() =~= array_of_nfa@.subrange(0, i as int));
                assert(prefix.last() == array_of_nfa@[i as int]);
                assert(concat_chain(next, *first, prefix));
            }
            current = next;
            i += 1;
        }
        proof {
            assert(array_of_nfa@.subrange(0, n as int) =~= array_of_nfa@);
        }
        current
    }

    /// Alternation of two fragments: the result accepts exactly the strings
    /// accepted by `first` or by `second`.  A new entry forks by epsilon
    /// edges into both fragments; both (cleared) exits feed a new exit.
    pub fn or_pair(first: &NFA, second: &NFA) -> (r: NFA)
        requires
            first.wf(),
            second.wf(),
            first.states@.len() + second.states@.len() + 2 <= usize::MAX,
        ensures
            or_shape(r, *first, *second),
            or_cells(r, *first, *second),
            r.wf(),
    {
        let la = first.states.len();
        let lb = second.states.len();
        let mut states: Vec<State> = Vec::new();
        append_shifted(&mut states, &first.states);
        let ghost e1 = states@;
        append_shifted(&mut states, &second.states);
        let ghost e2 = states@;
        states.push(State::new(false));
        states.push(State::new(true));
        let ghost e3 = states@;
        proof {
            assert forall|a: int, sym: char, b: int|
                #![auto]
                has_edge(e3, a, sym, b) <==> has_edge(e2, a, sym, b) by {
                if has_edge(e3, a, sym, b) {
                    if a < e2.len() {
                        assert(e3[a] == e2[a]);
                    } else {
                        assert(e3[a].transitions@.len() == 0);
                    }
                }
                if has_edge(e2, a, sym, b) {
                    assert(e3[a] == e2[a]);
                }
            }
        }
        let new_in = la + lb;
        let new_out = la + lb + 1;
        add_edge(&mut states, new_in, EPSILON, first.in_state);
        let ghost s4 = states@;
        add_edge(&mut states, new_in, EPSILON, la + second.in_state);
        let ghost s5 = states@;
        set_accepting(&mut states, first.out_state, false);
        let ghost s6 = states@;
        set_accepting(&mut states, la + second.out_state, false);
        let ghost s7 = states@;
        add_edge(&mut states, first.out_state, EPSILON, new_out);
        let ghost s8 = states@;
        add_edge(&mut states, la + second.out_state, EPSILON, new_out);
        let r = NFA { states, in_state: new_in, out_state: new_out };
        proof {
            let lai = la as int;
            let lbi = lb as int;
            assert forall|s: int, sym: char, d: int|
                #![auto]
                has_edge(r.states@, s, sym, d) <==> {
                    ||| (0 <= s < lai && 0 <= d < lai && has_edge(first.states@, s, sym, d))
                    ||| (lai <= s < lai + lbi && lai <= d < lai + lbi && has_edge(
                        second.states@,
                        s - lai,
                        sym,
                        d - lai,
                    ))
                    ||| (s == lai + lbi && sym == EPSILON && (d == first.in_state as int || d == lai
                        + second.in_state as int))
                    ||| (s == first.out_state as int && sym == EPSILON && d == lai + lbi + 1)
                    ||| (s == lai + second.out_state as int && sym == EPSILON && d == lai + lbi + 1)
                } by {
                if has_edge(r.states@, s, sym, d) && has_edge(e3, s, sym, d) {
                    if has_edge(e1, s, sym, d) {
                        assert(0 <= s < lai && 0 <= d < lai && has_edge(first.states@, s, sym, d));
                    } else {
                        assert(has_edge(second.states@, s - lai, sym, d - lai));
                        assert(0 <= d - lai < lbi);
                    }
                }
                if 0 <= s < lai && 0 <= d < lai && has_edge(first.states@, s, sym, d) {
                    assert(has_edge(e1, s, sym, d));
                    assert(has_edge(e2, s, sym, d));
                    assert(has_edge(e3, s, sym, d));
                    assert(has_edge(r.states@, s, sym, d));
                }
                if lai <= s < lai + lbi && lai <= d < lai + lbi && has_edge(
                    second.states@,
                    s - lai,
                    sym,
                    d - lai,
                ) {
                    assert(has_edge(e2, s, sym, d));
                    assert(has_edge(e3, s, sym, d));
                    assert(has_edge(r.states@, s, sym, d));
                }
            }
            assert forall|i: int| 0 <= i < lai + lbi + 2 implies ((
            #[trigger] r.states@[i]).accepting <==> i == lai + lbi + 1) by {
                if i < lai {
                    if i != first.out_state as int {
                        assert(e1[0 + i].accepting == first.states@[i].accepting);
                        assert(e2[i] == e1[i]);
                        assert(e3[i] == e2[i]);
                        assert(!first.states@[i].accepting || i == first.out_state as int);
                    }
                } else if i < lai + lbi {
                    if i != lai + second.out_state as int {
                        assert(e2[lai + (i - lai)].accepting == second.states@[i - lai].accepting);
                        assert(e3[i] == e2[i]);
                        assert(!second.states@[i - lai].accepting || i - lai
                            == second.out_state as int);
                    }
                } else if i == lai + lbi {
                    assert(e3[i] == e2.push(e3[lai + lbi]).push(e3[lai + lbi + 1])[i]);
                    assert(!e3[i].accepting);
                } else {
                    assert(e3[i].accepting);
                }
            }
            assert(or_shape(r, *first, *second));
            assert forall|a: int, sym: char, b: int|
                has_edge(r.states@, a, sym, b) implies 0 <= b < r.states@.len() by {}
            assert(r.states@[r.out_state as int].accepting);
            let ao = first.out_state as int;
            let bo = lai + second.out_state as int;
            let ni = lai + lbi;
            let no = lai + lbi + 1;
            assert forall|i: int| 0 <= i < lai && i != ao implies shifted_cells(
                #[trigger] r.states@[i],
                first.states@[i],
                0,
            ) by {
                assert(shifted_cells(e1[0 + i], first.states@[i], 0));
                assert(e2[i] == e1[i] && e3[i] == e2[i] && s4[i] == e3[i] && s5[i] == s4[i]
                    && s6[i] == s5[i] && s7[i] == s6[i] && s8[i] == s7[i] && r.states@[i] == s8[i]);
            }
            assert forall|i: int| 0 <= i < lbi && i != second.out_state as int implies shifted_cells(
                #[trigger] r.states@[lai + i],
                second.states@[i],
                lai,
            ) by {
                assert(shifted_cells(e2[e1.len() + i], second.states@[i], e1.len() as int));
                let q = lai + i;
                assert(e3[q] == e2[q] && s4[q] == e3[q] && s5[q] == s4[q] && s6[q] == s5[q]
                    && s7[q] == s6[q] && s8[q] == s7[q] && r.states@[q] == s8[q]);
            }
            assert(eps_extended(r.states@[ao], first.states@[ao], 0, (no) as usize)) by {
                assert(shifted_cells(e1[0 + ao], first.states@[ao], 0));
                assert(e2[ao] == e1[ao] && e3[ao] == e2[ao] && s4[ao] == e3[ao] && s5[ao] == s4[
                    ao
                ]);
                assert(s6[ao].transitions == s5[ao].transitions);
                assert(s7[ao] == s6[ao]);
                assert(state_symbols(s7[ao]) == state_symbols(first.states@[ao]));
                assert forall|sym: char| true implies #[trigger] dests_for(
                    s7[ao].transitions@,
                    sym,
                ) == dests_for(first.states@[ao].transitions@, sym).map_values(
                    |d: usize| (d + 0) as usize,
                ) by {
                    assert(dests_for(e1[ao].transitions@, sym) == dests_for(
                        first.states@[ao].transitions@,
                        sym,
                    ).map_values(|d: usize| (d + 0) as usize));
                }
                assert(r.states@[ao] == s8[ao]);
            }
            assert(eps_extended(r.states@[bo], second.states@[second.out_state as int], lai, (
            no) as usize)) by {
                let so = second.out_state as int;
                assert(shifted_cells(e2[e1.len() + so], second.states@[so], e1.len() as int));
                assert(e3[bo] == e2[bo] && s4[bo] == e3[bo] && s5[bo] == s4[bo] && s6[bo] == s5[
                    bo
                ]);
                assert(s7[bo].transitions == s6[bo].transitions);
                assert(s8[bo] == s7[bo]);
                assert(state_symbols(s8[bo]) == state_symbols(second.states@[so]));
                assert forall|sym: char| true implies #[trigger] dests_for(
                    s8[bo].transitions@,
                    sym,
                ) == dests_for(second.states@[so].transitions@, sym).map_values(
                    |d: usize| (d + lai) as usize,
                ) by {
                    assert(dests_for(e2[bo].transitions@, sym) == dests_for(
                        second.states@[so].transitions@,
                        sym,
                    ).map_values(|d: usize| (d + lai) as usize));
                }
            }
            assert(eps_only(
                r.states@[ni],
                seq![first.in_state, (lai + second.in_state) as usize],
            )) by {
                assert(e3[ni].transitions@.len() == 0);
                assert(dests_for(e3[ni].transitions@, EPSILON) =~= Seq::<usize>::empty());
                assert(state_symbols(e3[ni]) =~= Seq::<char>::empty());
                assert(!state_symbols(e3[ni]).contains(EPSILON));
                assert(state_symbols(s4[ni]) =~= seq![EPSILON]);
                assert(state_symbols(s4[ni]).contains(EPSILON)) by {
                    assert(state_symbols(s4[ni])[0] == EPSILON);
                }
                assert(state_symbols(s5[ni]) == state_symbols(s4[ni]));
                assert(s6[ni] == s5[ni] && s7[ni] == s6[ni] && s8[ni] == s7[ni] && r.states@[ni]
                    == s8[ni]);
                assert(dests_for(s5[ni].transitions@, EPSILON) =~= seq![
                    first.in_state,
                    (lai + second.in_state) as usize,
                ]);
                assert forall|sym: char| sym != EPSILON implies #[trigger] dests_for(
                    r.states@[ni].transitions@,
                    sym,
                ) == Seq::<usize>::empty() by {
                    assert(dests_for(e3[ni].transitions@, sym) =~= Seq::<usize>::empty());
                    assert(dests_for(s4[ni].transitions@, sym) == dests_for(
                        e3[ni].transitions@,
                        sym,
                    ));
                    assert(dests_for(s5[ni].transitions@, sym) == dests_for(
                        s4[ni].transitions@,
                        sym,
                    ));
                }
            }
            assert(r.states@[no].transitions@.len() == 0) by {
                assert(e3[no].transitions@.len() == 0);
                assert(s4[no] == e3[no] && s5[no] == s4[no] && s6[no] == s5[no] && s7[no] == s6[
                    no
                ] && s8[no] == s7[no] && r.states@[no] == s8[no]);
            }
        }
        r
    }

    /// Kleene star of a fragment: the result accepts the empty string and
    /// every finite repetition of strings accepted by `first`.  The new exit
    /// carries the repetition back-edge to `first`'s entry; that cycle is
    /// ordinary data here, since edges are indices.
    pub fn rep(first: &NFA) -> (r: NFA)
        requires
            first.wf(),
            first.states@.len() + 2 <= usize::MAX,
        ensures
            rep_shape(r, *first),
            rep_cells(r, *first),
            r.wf(),
    {
        let la = first.states.len();
        let mut states: Vec<State> = Vec::new();
        append_shifted(&mut states, &first.states);
        let ghost e1 = states@;
        states.push(State::new(false));
        states.push(State::new(true));
        let ghost e2 = states@;
        proof {
            assert forall|a: int, sym: char, b: int|
                #![auto]
                has_edge(e2, a, sym, b) <==> has_edge(e1, a, sym, b) by {
                if has_edge(e2, a, sym, b) {
                    if a < e1.len() {
                        assert(e2[a] == e1[a]);
                    } else {
                        assert(e2[a].transitions@.len() == 0);
                    }
                }
                if has_edge(e1, a, sym, b) {
                    assert(e2[a] == e1[a]);
                }
            }
        }
        let new_in = la;
        let new_out = la + 1;
        add_edge(&mut states, new_in, EPSILON, first.in_state);
        let ghost s3 = states@;
        add_edge(&mut states, new_in, EPSILON, new_out);
        let ghost s4 = states@;
        set_accepting(&mut states, first.out_state, false);
        let ghost s5 = states@;
        add_edge(&mut states, first.out_state, EPSILON, new_out);
        let ghost s6 = states@;
        add_edge(&mut states, new_out, EPSILON, first.in_state);
        let r = NFA { states, in_state: new_in, out_state: new_out };
        proof {
            let lai = la as int;
            assert forall|s: int, sym: char, d: int|
                #![auto]
                has_edge(r.states@, s, sym, d) <==> {
                    ||| (0 <= s < lai && 0 <= d < lai && has_edge(first.states@, s, sym, d))
                    ||| (s == lai && sym == EPSILON && (d == first.in_state as int || d == lai + 1))
                    ||| (s == first.out_state as int && sym == EPSILON && d == lai + 1)
                    ||| (s == lai + 1 && sym == EPSILON && d == first.in_state as int)
                } by {
                if has_edge(r.states@, s, sym, d) && has_edge(e2, s, sym, d) {
                    assert(has_edge(e1, s, sym, d));
                    assert(0 <= s < lai && 0 <= d < lai && has_edge(first.states@, s, sym, d));
                }
                if 0 <= s < lai && 0 <= d < lai && has_edge(first.states@, s, sym, d) {
                    assert(has_edge(e1, s, sym, d));
                    assert(has_edge(e2, s, sym, d));
                    assert(has_edge(r.states@, s, sym, d));
                }
            }
            assert forall|i: int| 0 <= i < lai + 2 implies ((#[trigger] r.states@[i]).accepting
                <==> i == lai + 1) by {
                if i < lai {
                    if i != first.out_state as int {
                        assert(e1[0 + i].accepting == first.states@[i].accepting);
                        assert(e2[i] == e1[i]);
                        assert(!first.states@[i].accepting || i == first.out_state as int);
                    }
                } else if i == lai {
                    assert(!e2[i].accepting);
                } else {
                    assert(e2[i].accepting);
                }
            }
            assert(rep_shape(r, *first));
            assert forall|a: int, sym: char, b: int|
                has_edge(r.states@, a, sym, b) implies 0 <= b < r.states@.len() by {}
            assert(r.states@[r.out_state as int].accepting);
            let ao = first.out_state as int;
            let ni = lai;
            let no = lai + 1;
            assert forall|i: int| 0 <= i < lai && i != ao implies shifted_cells(
                #[trigger] r.states@[i],
                first.states@[i],
                0,
            ) by {
                assert(shifted_cells(e1[0 + i], first.states@[i], 0));
                assert(e2[i] == e1[i] && s3[i] == e2[i] && s4[i] == s3[i] && s5[i] == s4[i]
                    && s6[i] == s5[i] && r.states@[i] == s6[i]);
            }
            assert(eps_extended(r.states@[ao], first.states@[ao], 0, (no) as usize)) by {
                assert(shifted_cells(e1[0 + ao], first.states@[ao], 0));
                assert(e2[ao] == e1[ao] && s3[ao] == e2[ao] && s4[ao] == s3[ao]);
                assert(s5[ao].transitions == s4[ao].transitions);
                assert(state_symbols(s5[ao]) == state_symbols(first.states@[ao]));
                assert forall|sym: char| true implies #[trigger] dests_for(
                    s5[ao].transitions@,
                    sym,
                ) == dests_for(first.states@[ao].transitions@, sym).map_values(
                    |d: usize| (d + 0) as usize,
                ) by {
                    assert(dests_for(e1[ao].transitions@, sym) == dests_for(
                        first.states@[ao].transitions@,
                        sym,
                    ).map_values(|d: usize| (d + 0) as usize));
                }
                assert(r.states@[ao] == s6[ao]);
            }
            assert(eps_only(r.states@[ni], seq![first.in_state, (no) as usize])) by {
                assert(e2[ni].transitions@.len() == 0);
                assert(dests_for(e2[ni].transitions@, EPSILON) =~= Seq::<usize>::empty());
                assert(state_symbols(e2[ni]) =~= Seq::<char>::empty());
                assert(!state_symbols(e2[ni]).contains(EPSILON));
                assert(state_symbols(s3[ni]) =~= seq![EPSILON]);
                assert(state_symbols(s3[ni]).contains(EPSILON)) by {
                    assert(state_symbols(s3[ni])[0] == EPSILON);
                }
                assert(state_symbols(s4[ni]) == state_symbols(s3[ni]));
                assert(s5[ni] == s4[ni] && s6[ni] == s5[ni] && r.states@[ni] == s6[ni]);
                assert(dests_for(s4[ni].transitions@, EPSILON) =~= seq![
                    first.in_state,
                    (no) as usize,
                ]);
                assert forall|sym: char| sym != EPSILON implies #[trigger] dests_for(
                    r.states@[ni].transitions@,
                    sym,
                ) == Seq::<usize>::empty() by {
                    assert(dests_for(e2[ni].transitions@, sym) =~= Seq::<usize>::empty());
                    assert(dests_for(s3[ni].transitions@, sym) == dests_for(
                        e2[ni].transitions@,
                        sym,
                    ));
                    assert(dests_for(s4[ni].transitions@, sym) == dests_for(
                        s3[ni].transitions@,
                        sym,
                    ));
                }
            }
            assert(eps_only(r.states@[no], seq![first.in_state])) by {
                assert(e2[no].transitions@.len() == 0);
                assert(s3[no] == e2[no] && s4[no] == s3[no] && s5[no] == s4[no] && s6[no] == s5[
                    no
                ]);
                assert(dests_for(s6[no].transitions@, EPSILON) =~= Seq::<usize>::empty());
                assert(state_symbols(s6[no]) =~= Seq::<char>::empty());
                assert(!state_symbols(s6[no]).contains(EPSILON));
                assert(state_symbols(r.states@[no]) =~= seq![EPSILON]);
                assert(dests_for(r.states@[no].transitions@, EPSILON) =~= seq![first.in_state]);
                assert forall|sym: char| sym != EPSILON implies #[trigger] dests_for(
                    r.states@[no].transitions@,
                    sym,
                ) == Seq::<usize>::empty() by {
                    assert(dests_for(s6[no].transitions@, sym) =~= Seq::<usize>::empty());
                }
            }
        }
        r
    }
}

impl NFA {
    /// Decides whether this fragment accepts `input`, walking the live
    /// graph directly (no table needed).
    pub fn test(&self, input: &str) -> (r: bool)
        requires
            self.closed(),
        ensures
            r == spec_matches(*self, input@),
    {
        State::test(&self.states, self.in_state, input)
    }

    /// Flattens the live graph into a transition table: one row per state
    /// reachable from the entry, one cell per outgoing symbol with the
    /// deduplicated union of that symbol's destinations, and no dangling
    /// destination.  Returns the table together with the accept identifier,
    /// which is the fragment's exit, unchanged.  Fails with
    /// `InconsistentGraph` exactly when a reachable edge points outside the
    /// arena.
    #[verifier::loop_isolation(false)]
    #[verifier::rlimit(50)]
    pub fn get_transition_table(&self) -> (r: Result<(TransitionTable, usize), AutomatonError>)
        ensures
            r is Ok <==> flatten_ok(*self),
            r is Err ==> r->Err_0 == AutomatonError::InconsistentGraph,
            r is Ok ==> flatten_post(*self, r->Ok_0.0, r->Ok_0.1),
    {
        let states = &self.states;
        let n = states.len();
        let start = self.in_state;
        if start >= n {
            return Err(AutomatonError::InconsistentGraph);
        }
        let wl = match discover_reachable(states, start) {
            Ok(wl) => wl,
            Err(e) => {
                return Err(AutomatonError::InconsistentGraph);
            },
        };
        let nw = wl.len();
        let mut rows: Vec<TableRow> = Vec::new();
        let mut ri: usize = 0;
        while ri < nw
            invariant
                nw == wl@.len(),
                rows@.len() == ri,
                ri <= nw,
                forall|q: int| 0 <= q < ri ==> (#[trigger] rows@[q]).id == wl@[q],
                forall|q: int| 0 <= q < ri ==> row_merged(#[trigger] rows@[q]),
                forall|q: int, sym: char, b: int|
                    0 <= q < ri ==> ((#[trigger] cells_edge(rows@[q].cells@, sym, b))
                        <==> state_has_edge(states@[wl@[q] as int], sym, b)),
            decreases nw - ri,
        {
            let id = wl[ri];
            let cells = merge_state_cells(states, id);
            rows.push(TableRow { id, cells });
            ri += 1;
        }
        let t = TransitionTable { rows };
        proof {
            assert forall|idv: int|
                table_has_key(t, idv) <==> reachable(states@, start as int, idv) by {
                if table_has_key(t, idv) {
                    let q = choose|q: int| 0 <= q < t.rows@.len() && t.rows@[q].id as int == idv;
                    assert(t.rows@[q].id == wl@[q]);
                    assert(reachable(states@, start as int, wl@[q] as int));
                }
                if reachable(states@, start as int, idv) {
                    let qt = choose|qt: int| 0 <= qt < wl@.len() && wl@[qt] == idv as usize;
                    assert(t.rows@[qt].id as int == idv);
                }
            }
            assert forall|a: int, sym: char, b: int|
                table_edge(t, a, sym, b) <==> (reachable(states@, start as int, a) && has_edge(
                    states@,
                    a,
                    sym,
                    b,
                )) by {
                if table_edge(t, a, sym, b) {
                    let q = choose|q: int|
                        0 <= q < t.rows@.len() && t.rows@[q].id as int == a && cells_edge(
                            t.rows@[q].cells@,
                            sym,
                            b,
                        );
                    assert(t.rows@[q].id == wl@[q]);
                    assert(state_has_edge(states@[wl@[q] as int], sym, b));
                    assert(reachable(states@, start as int, wl@[q] as int));
                }
                if reachable(states@, start as int, a) && has_edge(states@, a, sym, b) {
                    let qt = choose|qt: int| 0 <= qt < wl@.len() && wl@[qt] == a as usize;
                    assert(cells_edge(t.rows@[qt].cells@, sym, b));
                    assert(t.rows@[qt].id as int == a);
                }
            }
            assert(table_keys_unique(t)) by {
                assert forall|i1: int, j1: int|
                    #![auto]
                    0 <= i1 < j1 < t.rows@.len() implies t.rows@[i1].id != t.rows@[j1].id by {
                    assert(t.rows@[i1].id == wl@[i1] && t.rows@[j1].id == wl@[j1]);
                }
            }
            assert(flatten_post(*self, t, self.out_state));
        }
        Ok((t, self.out_state))
    }
}

/// Walks the graph from `start`, collecting each reachable state once, and
/// checks that every edge met on the way lands inside the arena; fails with
/// `InconsistentGraph` on the first dangling destination.
#[verifier::loop_isolation(false)]
pub(crate) fn discover_reachable(states: &Vec<State>, start: usize) -> (r: Result<
    Vec<usize>,
    AutomatonError,
>)
    requires
        (start as int) < states@.len(),
    ensures
        r is Ok <==> traversal_ok(states@, start as int),
        r is Err ==> r->Err_0 == AutomatonError::InconsistentGraph,
        r is Ok ==> {
            let wl = r->Ok_0;
            &&& wl@.no_duplicates()
            &&& (forall|q: int| 0 <= q < wl@.len() ==> (#[trigger] wl@[q]) < states@.len())
            &&& (forall|t: int|
                reachable(states@, start as int, t) <==> (0 <= t < states@.len() && wl@.contains(
                    t as usize,
                )))
        },
{
    let n = states.len();
    let mut wl: Vec<usize> = Vec::new();
    wl.push(start);
    proof {
        lemma_reachable_refl(states@, start as int);
        lemma_distinct_bounded(wl@, n as nat);
        assert(wl@.contains(start)) by {
            assert(wl@[0] == start);
        }
    }
    let mut i: usize = 0;
    while i < wl.len()
        invariant
            bfs_inv(states@, start as int, wl@),
            wl@.len() <= n,
            i <= wl@.len(),
            wl@.contains(start),
            forall|q: int, b: int|
                0 <= q < i && #[trigger] any_edge(states@, wl@[q] as int, b) ==> wl@.contains(
                    b as usize,
                ),
        decreases n - i,
    {
        let cur = wl[i];
        let ghost pre = wl@;
        let step = expand_state(states, &mut wl, cur, Ghost(start as int));
        match step {
            Ok(()) => {},
            Err(e) => {
                return Err(e);
            },
        }
        proof {
            lemma_distinct_bounded(wl@, n as nat);
            assert forall|q: int, b: int|
                0 <= q < i + 1 && #[trigger] any_edge(states@, wl@[q] as int, b) implies wl@.contains(
                b as usize,
            ) by {
                if q < i {
                    assert(wl@[q] == pre[q]);
                    assert(pre.contains(b as usize));
                } else {
                    assert(wl@[q] == cur);
                }
            }
        }
        i += 1;
    }
    proof {
        assert(states@.len() == n);
        lemma_bfs_complete(states@, start as int, wl@);
    }
    Ok(wl)
}

/// Adds every destination of one discovered state to the worklist, failing
/// with `InconsistentGraph` if one of its edges leaves the arena.
#[verifier::loop_isolation(false)]
pub(crate) fn expand_state(
    states: &Vec<State>,
    wl: &mut Vec<usize>,
    cur: usize,
    Ghost(start): Ghost<int>,
) -> (r: Result<(), AutomatonError>)
    requires
        bfs_inv(states@, start, old(wl)@),
        old(wl)@.contains(cur),
        (cur as int) < states@.len(),
    ensures
        bfs_inv(states@, start, final(wl)@),
        final(wl)@.len() >= old(wl)@.len(),
        forall|q: int| 0 <= q < old(wl)@.len() ==> final(wl)@[q] == old(wl)@[q],
        forall|x: usize| old(wl)@.contains(x) ==> final(wl)@.contains(x),
        r is Ok ==> forall|b: int|
            #[trigger] any_edge(states@, cur as int, b) ==> final(wl)@.contains(b as usize),
        r is Err ==> !traversal_ok(states@, start) && r->Err_0
            == AutomatonError::InconsistentGraph,
{
    let n = states.len();
    proof {
        let qc = choose|qc: int| 0 <= qc < wl@.len() && wl@[qc] == cur;
        assert(reachable(states@, start, cur as int));
    }
    let syms = states[cur].get_all_transition_symbols();
    let nsym = syms.len();
    let mut sj: usize = 0;
    while sj < nsym
        invariant
            cur < n,
            reachable(states@, start, cur as int),
            nsym == syms@.len(),
            syms@ == states@[cur as int].transitions@.map_values(|cc: CELL| cc.symbol),
            sj <= nsym,
            bfs_inv(states@, start, wl@),
            wl@.len() >= old(wl)@.len(),
            forall|q: int| 0 <= q < old(wl)@.len() ==> wl@[q] == old(wl)@[q],
            forall|x: usize| old(wl)@.contains(x) ==> wl@.contains(x),
            forall|j: int, k2: int|
                #![auto]
                0 <= j < sj && 0 <= k2 < states@[cur as int].transitions@[j].transition@.len()
                    ==> wl@.contains(states@[cur as int].transitions@[j].transition@[k2]),
        decreases nsym - sj,
    {
        let dests = states[cur].get_transition_for_symbol(syms[sj]);
        let nd = dests.len();
        let ghost cursym = syms@[sj as int];
        let mut k: usize = 0;
        while k < nd
            invariant
                cur < n,
                reachable(states@, start, cur as int),
                sj < nsym,
                nsym == syms@.len(),
                syms@ == states@[cur as int].transitions@.map_values(|cc: CELL| cc.symbol),
                nd == dests@.len(),
                dests@ == dests_for(states@[cur as int].transitions@, cursym),
                cursym == syms@[sj as int],
                k <= nd,
                bfs_inv(states@, start, wl@),
                wl@.len() >= old(wl)@.len(),
                forall|q: int| 0 <= q < old(wl)@.len() ==> wl@[q] == old(wl)@[q],
                forall|x: usize| old(wl)@.contains(x) ==> wl@.contains(x),
                forall|j: int, k2: int|
                    #![auto]
                    0 <= j < sj && 0 <= k2 < states@[cur as int].transitions@[j].transition@.len()
                        ==> wl@.contains(states@[cur as int].transitions@[j].transition@[k2]),
                forall|k2: int| 0 <= k2 < k ==> wl@.contains(#[trigger] dests@[k2]),
            decreases nd - k,
        {
            let d = dests[k];
            proof {
                assert(dests@[k as int] == d);
                lemma_dests_for_edge(states@[cur as int].transitions@, cursym, d as int);
                assert(state_has_edge(states@[cur as int], cursym, d as int));
                assert(has_edge(states@, cur as int, cursym, d as int));
            }
            if d >= n {
                proof {
                    assert(!traversal_ok(states@, start));
                }
                return Err(AutomatonError::InconsistentGraph);
            }
            let ghost pre = wl@;
            if !vec_contains(&wl, d) {
                wl.push(d);
                proof {
                    assert(any_edge(states@, cur as int, d as int));
                    lemma_reachable_step(states@, start, cur as int, d as int);
                }
            }
            proof {
                assert forall|x: usize| pre.contains(x) implies wl@.contains(x) by {
                    if pre != wl@ {
                        lemma_seq_push_contains(pre, d, x);
                    }
                }
                assert(wl@.contains(d)) by {
                    if pre.contains(d) {
                    } else {
                        lemma_seq_push_contains(pre, d, d);
                    }
                }
            }
            k += 1;
        }
        proof {
            assert forall|k2: int|
                #![auto]
                0 <= k2 < states@[cur as int].transitions@[sj as int].transition@.len() implies wl@.contains(
                states@[cur as int].transitions@[sj as int].transition@[k2],
            ) by {
                let dd = states@[cur as int].transitions@[sj as int].transition@[k2];
                assert(states@[cur as int].transitions@[sj as int].symbol == cursym) by {
                    assert(syms@[sj as int] == states@[cur as int].transitions@.map_values(
                        |cc: CELL| cc.symbol,
                    )[sj as int]);
                }
                lemma_dests_for_edge(states@[cur as int].transitions@, cursym, dd as int);
                let kk = choose|kk: int| 0 <= kk < dests@.len() && dests@[kk] as int == dd as int;
                assert(wl@.contains(dests@[kk]));
            }
        }
        sj += 1;
    }
    proof {
        assert forall|b: int|
            any_edge(states@, cur as int, b) implies wl@.contains(b as usize) by {
            let sym = choose|sym: char| has_edge(states@, cur as int, sym, b);
            let (j, k2) = choose|j: int, k2: int|
                #![auto]
                0 <= j < states@[cur as int].transitions@.len() && states@[
                    cur as int
                ].transitions@[j].symbol == sym && 0 <= k2 < states@[
                    cur as int
                ].transitions@[j].transition@.len() && states@[
                    cur as int
                ].transitions@[j].transition@[k2] as int == b;
            assert(wl@.contains(states@[cur as int].transitions@[j].transition@[k2]));
        }
    }
    Ok(())
}

/// Builds the merged table cells of one state: one cell per distinct
/// symbol, carrying the deduplicated union of that symbol's destinations.
#[verifier::loop_isolation(false)]
#[verifier::rlimit(50)]
pub(crate) fn merge_state_cells(states: &Vec<State>, id: usize) -> (cells: Vec<CELL>)
    requires
        (id as int) < states@.len(),
    ensures
        (forall|j1: int, j2: int|
            #![auto]
            0 <= j1 < j2 < cells@.len() ==> cells@[j1].symbol != cells@[j2].symbol),
        (forall|j: int| 0 <= j < cells@.len() ==> (#[trigger] cells@[j]).transition@.no_duplicates()),
        forall|sym: char, b: int|
            #![auto]
            cells_edge(cells@, sym, b) <==> state_has_edge(states@[id as int], sym, b),
{
    let n = states.len();
    let syms = states[id].get_all_transition_symbols();
    let nsym = syms.len();
    let mut seen: Vec<char> = Vec::new();
    let mut cells: Vec<CELL> = Vec::new();
    let mut sj: usize = 0;
    while sj < nsym
        invariant
            id < n,
            nsym == syms@.len(),
            syms@ == states@[id as int].transitions@.map_values(|cc: CELL| cc.symbol),
            sj <= nsym,
            seen@.no_duplicates(),
            cells@.len() == seen@.len(),
            forall|j: int| 0 <= j < cells@.len() ==> (#[trigger] cells@[j]).symbol == seen@[j],
            forall|j: int|
                0 <= j < cells@.len() ==> (#[trigger] cells@[j]).transition@.no_duplicates(),
            forall|c: char|
                #[trigger] seen@.contains(c) <==> exists|j: int| 0 <= j < sj && syms@[j] == c,
            forall|sym: char, b: int|
                #![auto]
                cells_edge(cells@, sym, b) <==> (seen@.contains(sym) && state_has_edge(
                    states@[id as int],
                    sym,
                    b,
                )),
        decreases nsym - sj,
    {
        let csym = syms[sj];
        let ghost preseen = seen@;
        if !char_contains(&seen, csym) {
            let dests = states[id].get_transition_for_symbol(csym);
            let nd = dests.len();
            let mut uniq: Vec<usize> = Vec::new();
            let mut k: usize = 0;
            while k < nd
                invariant
                    nd == dests@.len(),
                    k <= nd,
                    uniq@.no_duplicates(),
                    forall|x: usize|
                        #[trigger] uniq@.contains(x) <==> exists|k2: int|
                            0 <= k2 < k && dests@[k2] == x,
                decreases nd - k,
            {
                let d = dests[k];
                let ghost pre = uniq@;
                if !vec_contains(&uniq, d) {
                    uniq.push(d);
                }
                proof {
                    assert forall|x: usize|
                        #[trigger] uniq@.contains(x) <==> (pre.contains(x) || x == d) by {
                        lemma_seq_push_contains(pre, d, x);
                    }
                    assert(exists|k2: int| 0 <= k2 < k + 1 && dests@[k2] == d) by {
                        assert(dests@[k as int] == d);
                    }
                }
                k += 1;
            }
            let ghost precells = cells@;
            let ghost uniqv = uniq@;
            let newcell = CELL { symbol: csym, transition: uniq };
            cells.push(newcell);
            seen.push(csym);
            proof {
                assert forall|c: char|
                    #[trigger] seen@.contains(c) <==> (preseen.contains(c) || c == csym) by {
                    lemma_seq_push_contains(preseen, csym, c);
                }
                assert(syms@[sj as int] == csym);
                assert forall|sym: char, b: int|
                    #![auto]
                    cells_edge(cells@, sym, b) <==> (seen@.contains(sym) && state_has_edge(
                        states@[id as int],
                        sym,
                        b,
                    )) by {
                    lemma_cells_edge_push(precells, newcell, sym, b);
                    lemma_dests_for_edge(states@[id as int].transitions@, csym, b);
                    if sym == csym {
                        if state_has_edge(states@[id as int], csym, b) {
                            let kk = choose|kk: int| 0 <= kk < dests@.len() && dests@[kk] as int == b;
                            assert(uniqv.contains(dests@[kk]));
                            let ki = choose|ki: int| 0 <= ki < uniqv.len() && uniqv[ki] == dests@[kk];
                            assert(newcell.transition@[ki] as int == b);
                        }
                        if exists|kk: int|
                            0 <= kk < newcell.transition@.len() && newcell.transition@[kk] as int
                                == b {
                            let kk = choose|kk: int|
                                0 <= kk < newcell.transition@.len() && newcell.transition@[kk] as int
                                    == b;
                            assert(uniqv.contains(uniqv[kk]));
                            let k2 = choose|k2: int| 0 <= k2 < nd && dests@[k2] == uniqv[kk];
                            assert(dests@[k2] as int == b);
                        }
                    }
                }
            }
        } else {
            proof {
                assert(exists|j: int| 0 <= j < sj + 1 && syms@[j] == csym) by {
                    assert(syms@[sj as int] == csym);
                }
            }
        }
        sj += 1;
    }
    proof {
        assert forall|sym: char, b: int|
            #![auto]
            cells_edge(cells@, sym, b) <==> state_has_edge(states@[id as int], sym, b) by {
            if state_has_edge(states@[id as int], sym, b) {
                let (j, k2) = choose|j: int, k2: int|
                    #![auto]
                    0 <= j < states@[id as int].transitions@.len() && states@[
                        id as int
                    ].transitions@[j].symbol == sym && 0 <= k2 < states@[
                        id as int
                    ].transitions@[j].transition@.len() && states@[
                        id as int
                    ].transitions@[j].transition@[k2] as int == b;
                assert(syms@[j] == sym) by {
                    assert(syms@[j] == states@[id as int].transitions@.map_values(
                        |cc: CELL| cc.symbol,
                    )[j]);
                }
                assert(seen@.contains(sym));
            }
        }
        assert forall|j1: int, j2: int|
            #![auto]
            0 <= j1 < j2 < cells@.len() implies cells@[j1].symbol != cells@[j2].symbol by {
            assert(cells@[j1].symbol == seen@[j1] && cells@[j2].symbol == seen@[j2]);
        }
    }
    cells
}

/// Appends a freshly assembled cell to a cell list.
pub(crate) fn push_cell(cells: &mut Vec<CELL>, symbol: char, transition: Vec<usize>)
    ensures
        final(cells)@.len() == old(cells)@.len() + 1,
        final(cells)@[old(cells)@.len() as int].symbol == symbol,
        final(cells)@[old(cells)@.len() as int].transition@ == transition@,
        forall|j: int| 0 <= j < old(cells)@.len() ==> final(cells)@[j] == old(cells)@[j],
{
    cells.push(CELL { symbol, transition });
}

} // verus!