//! The node data model of the automaton graph: a state has an acceptance flag
//! and, per symbol, an ordered list of destination state indices.

use vstd::prelude::*;

use crate::lang::{
    accepts, any_edge, arena_closed, eps_reach, eps_reach_from_any, has_edge, is_eps_path, is_walk,
    lemma_distinct_bounded, lemma_eps_path_closed, lemma_eps_reach_edge, lemma_eps_reach_refl,
    lemma_eps_reach_trans, lemma_reachable_refl, lemma_reachable_step, lemma_reaches_snoc,
    lemma_walk_closed, move_edge, reachable, reachable_symbol, reaches,
};
use crate::nfa::CELL;

verus! {

/// The reserved pseudo-symbol consumed without input.  It is guaranteed
/// distinct from every valid input symbol; a string that contains it is
/// never accepted by any automaton of this crate.
pub const EPSILON: char = '\u{03B5}';

/// Errors of the construction and flattening phase.
#[derive(Clone, Copy, Debug, PartialEq, Eq, Structural)]
pub enum AutomatonError {
    /// The reserved epsilon marker was passed where a plain symbol is needed.
    InvalidSymbol,
    /// A transition points at a state index with no corresponding live state.
    InconsistentGraph,
}

/// One state of an automaton.  Destinations are indices into the arena
/// (`Vec<State>`) that owns this state.
pub struct State {
    pub accepting: bool,
    pub transitions: Vec<CELL>,
}

/// All destinations that `cells` records for `sym`, in order: the
/// concatenation of the destination lists of every cell labelled `sym`.
pub open spec fn dests_for(cells: Seq<CELL>, sym: char) -> Seq<usize>
    decreases cells.len(),
{
    if cells.len() == 0 {
        Seq::empty()
    } else {
        dests_for(cells.drop_last(), sym) + if cells.last().symbol == sym {
            cells.last().transition@
        } else {
            Seq::empty()
        }
    }
}

/// The cell list `cells` records an edge labelled `sym` to index `b`.
pub open spec fn cells_edge(cells: Seq<CELL>, sym: char, b: int) -> bool {
    exists|j: int, k: int|
        #![auto]
        0 <= j < cells.len() && cells[j].symbol == sym && 0 <= k < cells[j].transition@.len()
            && cells[j].transition@[k] as int == b
}

/// State `s` has an edge labelled `sym` to index `b`.
pub open spec fn state_has_edge(s: State, sym: char, b: int) -> bool {
    cells_edge(s.transitions@, sym, b)
}

/// Appending one cell extends the edge relation of a cell list by exactly
/// that cell's edges.
pub proof fn lemma_cells_edge_push(cells: Seq<CELL>, c: CELL, sym: char, b: int)
    ensures
        cells_edge(cells.push(c), sym, b) <==> (cells_edge(cells, sym, b) || (c.symbol == sym
            && exists|k: int| 0 <= k < c.transition@.len() && c.transition@[k] as int == b)),
{
    let cs = cells.push(c);
    if cells_edge(cs, sym, b) {
        let (j, k) = choose|j: int, k: int|
            #![auto]
            0 <= j < cs.len() && cs[j].symbol == sym && 0 <= k < cs[j].transition@.len()
                && cs[j].transition@[k] as int == b;
        if j < cells.len() {
            assert(cells[j].symbol == sym && cells[j].transition@[k] as int == b);
        } else {
            assert(cs[j] == c);
        }
    }
    if cells_edge(cells, sym, b) {
        let (j, k) = choose|j: int, k: int|
            #![auto]
            0 <= j < cells.len() && cells[j].symbol == sym && 0 <= k < cells[j].transition@.len()
                && cells[j].transition@[k] as int == b;
        assert(cs[j].symbol == sym && cs[j].transition@[k] as int == b);
    }
    if c.symbol == sym && exists|k: int| 0 <= k < c.transition@.len() && c.transition@[k] as int
        == b {
        let k = choose|k: int| 0 <= k < c.transition@.len() && c.transition@[k] as int == b;
        assert(cs[cells.len() as int].symbol == sym && cs[cells.len() as int].transition@[k] as int
            == b);
    }
}

/// Membership in `dests_for` coincides with the existence of an edge.
pub proof fn lemma_dests_for_edge(cells: Seq<CELL>, sym: char, b: int)
    ensures
        (exists|k: int| 0 <= k < dests_for(cells, sym).len() && dests_for(cells, sym)[k] as int == b)
            <==> (exists|j: int, k: int|
            #![auto]
            0 <= j < cells.len() && cells[j].symbol == sym && 0 <= k
                < cells[j].transition@.len() && cells[j].transition@[k] as int == b),
    decreases cells.len(),
{
    if cells.len() == 0 {
    } else {
        let prefix = cells.drop_last();
        lemma_dests_for_edge(prefix, sym, b);
        let d = dests_for(cells, sym);
        let dp = dests_for(prefix, sym);
        if exists|k: int| 0 <= k < d.len() && d[k] as int == b {
            let k = choose|k: int| 0 <= k < d.len() && d[k] as int == b;
            if k < dp.len() {
                assert(dp[k] as int == b);
            } else {
                assert(cells.last().symbol == sym);
                assert(cells.last().transition@[k - dp.len()] as int == b);
                assert(cells[cells.len() - 1].symbol == sym && cells[cells.len()
                    - 1].transition@[k - dp.len()] as int == b);
            }
        }
        if exists|j: int, k: int|
            #![auto]
            0 <= j < cells.len() && cells[j].symbol == sym && 0 <= k < cells[j].transition@.len()
                && cells[j].transition@[k] as int == b {
            let (j, k) = choose|j: int, k: int|
                #![auto]
                0 <= j < cells.len() && cells[j].symbol == sym && 0 <= k
                    < cells[j].transition@.len() && cells[j].transition@[k] as int == b;
            if j < cells.len() - 1 {
                assert(prefix[j].symbol == sym && prefix[j].transition@[k] as int == b);
                let kp = choose|kp: int| 0 <= kp < dp.len() && dp[kp] as int == b;
                assert(d[kp] as int == b);
            } else {
                assert(cells.last().symbol == sym);
                assert(d[dp.len() + k] as int == b);
            }
        }
    }
}

/// The symbols of a state's cells, in insertion order: exactly what
/// `get_all_transition_symbols` returns.
pub open spec fn state_symbols(s: State) -> Seq<char> {
    s.transitions@.map_values(|c: CELL| c.symbol)
}

/// `x` carries the same cell structure as `y`, with every destination
/// index renumbered by `off`: same symbols in the same order, and for
/// every symbol the same destination list, element-wise shifted.
pub open spec fn shifted_cells(x: State, y: State, off: int) -> bool {
    &&& state_symbols(x) == state_symbols(y)
    &&& forall|sym: char|
        #[trigger] dests_for(x.transitions@, sym) == dests_for(y.transitions@, sym).map_values(
            |d: usize| (d + off) as usize,
        )
}

/// `x` is `y` renumbered by `off` with one more epsilon destination
/// appended at the end: what adding one epsilon edge to a renumbered copy
/// produces.
pub open spec fn eps_extended(x: State, y: State, off: int, dest: usize) -> bool {
    &&& state_symbols(x) == (if state_symbols(y).contains(EPSILON) {
        state_symbols(y)
    } else {
        state_symbols(y).push(EPSILON)
    })
    &&& dests_for(x.transitions@, EPSILON) == dests_for(y.transitions@, EPSILON).map_values(
        |d: usize| (d + off) as usize,
    ).push(dest)
    &&& forall|sym: char|
        sym != EPSILON ==> #[trigger] dests_for(x.transitions@, sym) == dests_for(
            y.transitions@,
            sym,
        ).map_values(|d: usize| (d + off) as usize)
}

/// The state has exactly one cell, labelled with the epsilon marker and
/// holding exactly these destinations, in this order.
pub open spec fn eps_only(s: State, dests: Seq<usize>) -> bool {
    &&& state_symbols(s) == seq![EPSILON]
    &&& dests_for(s.transitions@, EPSILON) == dests
    &&& forall|sym: char|
        sym != EPSILON ==> #[trigger] dests_for(s.transitions@, sym) == Seq::<usize>::empty()
}

/// Appending one cell appends its destinations to its own symbol's list
/// and leaves every other symbol's list unchanged.
pub proof fn lemma_dests_for_push(cells: Seq<CELL>, c: CELL, sym: char)
    ensures
        dests_for(cells.push(c), sym) == dests_for(cells, sym) + (if c.symbol == sym {
            c.transition@
        } else {
            Seq::<usize>::empty()
        }),
{
    let cs = cells.push(c);
    assert(cs.drop_last() =~= cells);
    assert(cs.last() == c);
    assert(dests_for(cs, sym) == dests_for(cells, sym) + (if c.symbol == sym {
        c.transition@
    } else {
        Seq::<usize>::empty()
    }));
}

/// Extending the last cell of a symbol appends to that symbol's list and
/// leaves every other symbol's list unchanged.
pub proof fn lemma_dests_for_update_extend(cells: Seq<CELL>, jj: int, c2: CELL, x: usize, sym: char)
    requires
        0 <= jj < cells.len(),
        cells[jj].symbol == sym,
        c2.symbol == sym,
        c2.transition@ == cells[jj].transition@.push(x),
        forall|k: int| jj < k < cells.len() ==> (#[trigger] cells[k]).symbol != sym,
    ensures
        dests_for(cells.update(jj, c2), sym) == dests_for(cells, sym).push(x),
        forall|sym2: char|
            sym2 != sym ==> #[trigger] dests_for(cells.update(jj, c2), sym2) == dests_for(
                cells,
                sym2,
            ),
    decreases cells.len(),
{
    let cs = cells.update(jj, c2);
    if jj == cells.len() - 1 {
        assert(cs.drop_last() =~= cells.drop_last());
        assert(cs.last() == c2);
        assert(dests_for(cs, sym) == dests_for(cells.drop_last(), sym) + cells[
            jj
        ].transition@.push(x));
        assert(dests_for(cells, sym) == dests_for(cells.drop_last(), sym) + cells[jj].transition@);
        assert(dests_for(cells.drop_last(), sym) + cells[jj].transition@.push(x) =~= (dests_for(
            cells.drop_last(),
            sym,
        ) + cells[jj].transition@).push(x));
        assert forall|sym2: char| sym2 != sym implies #[trigger] dests_for(cs, sym2) == dests_for(
            cells,
            sym2,
        ) by {
            assert(dests_for(cs, sym2) == dests_for(cells.drop_last(), sym2) + Seq::<
                usize,
            >::empty());
            assert(dests_for(cells, sym2) == dests_for(cells.drop_last(), sym2) + Seq::<
                usize,
            >::empty());
        }
    } else {
        assert(cs.drop_last() =~= cells.drop_last().update(jj, c2));
        assert(cs.last() == cells.last());
        assert(cells.last().symbol != sym) by {
            assert(cells[cells.len() - 1].symbol != sym);
        }
        assert(cells.drop_last()[jj] == cells[jj]);
        assert forall|k: int|
            jj < k < cells.drop_last().len() implies (#[trigger] cells.drop_last()[k]).symbol
            != sym by {
            assert(cells.drop_last()[k] == cells[k]);
        }
        lemma_dests_for_update_extend(cells.drop_last(), jj, c2, x, sym);
        assert(dests_for(cs, sym) == dests_for(cells.drop_last().update(jj, c2), sym) + Seq::<
            usize,
        >::empty());
        assert(dests_for(cells, sym) == dests_for(cells.drop_last(), sym) + Seq::<usize>::empty());
        assert(dests_for(cells.drop_last(), sym).push(x) + Seq::<usize>::empty() =~= (dests_for(
            cells.drop_last(),
            sym,
        ) + Seq::<usize>::empty()).push(x));
        assert forall|sym2: char| sym2 != sym implies #[trigger] dests_for(cs, sym2) == dests_for(
            cells,
            sym2,
        ) by {
            let tail = if cells.last().symbol == sym2 {
                cells.last().transition@
            } else {
                Seq::<usize>::empty()
            };
            assert(dests_for(cs, sym2) == dests_for(cells.drop_last().update(jj, c2), sym2) + tail);
            assert(dests_for(cells, sym2) == dests_for(cells.drop_last(), sym2) + tail);
        }
    }
}

/// Cell-wise renumbering of destinations renumbers every symbol's list.
pub proof fn lemma_dests_for_cellwise_shift(c1: Seq<CELL>, c2: Seq<CELL>, off: int, sym: char)
    requires
        c1.len() == c2.len(),
        forall|j: int| 0 <= j < c1.len() ==> (#[trigger] c2[j]).symbol == c1[j].symbol,
        forall|j: int|
            0 <= j < c1.len() ==> (#[trigger] c2[j]).transition@ == c1[j].transition@.map_values(
                |d: usize| (d + off) as usize,
            ),
    ensures
        dests_for(c2, sym) == dests_for(c1, sym).map_values(|d: usize| (d + off) as usize),
    decreases c1.len(),
{
    let f = |d: usize| (d + off) as usize;
    if c1.len() == 0 {
        assert(dests_for(c2, sym) =~= dests_for(c1, sym).map_values(f));
    } else {
        let p1 = c1.drop_last();
        let p2 = c2.drop_last();
        assert forall|j: int| 0 <= j < p1.len() implies (#[trigger] p2[j]).symbol == p1[j].symbol
            && p2[j].transition@ == p1[j].transition@.map_values(f) by {
            assert(p2[j] == c2[j] && p1[j] == c1[j]);
        }
        lemma_dests_for_cellwise_shift(p1, p2, off, sym);
        assert(c2.last() == c2[c1.len() - 1] && c1.last() == c1[c1.len() - 1]);
        let tail1 = if c1.last().symbol == sym {
            c1.last().transition@
        } else {
            Seq::<usize>::empty()
        };
        let tail2 = if c2.last().symbol == sym {
            c2.last().transition@
        } else {
            Seq::<usize>::empty()
        };
        assert(tail2 =~= tail1.map_values(f));
        assert(dests_for(c2, sym) == dests_for(p2, sym) + tail2);
        assert(dests_for(c1, sym) == dests_for(p1, sym) + tail1);
        assert(dests_for(p1, sym).map_values(f) + tail1.map_values(f) =~= (dests_for(p1, sym)
            + tail1).map_values(f));
    }
}

/// The edge relation of a state after one destination was appended:
/// derived once from the destination-list facts.
pub proof fn lemma_state_edge_from_dests(pre: State, post: State, symbol: char, new_state: usize)
    requires
        dests_for(post.transitions@, symbol) == dests_for(pre.transitions@, symbol).push(new_state),
        forall|sym: char|
            sym != symbol ==> #[trigger] dests_for(post.transitions@, sym) == dests_for(
                pre.transitions@,
                sym,
            ),
    ensures
        forall|sym: char, b: int|
            state_has_edge(post, sym, b) <==> (state_has_edge(pre, sym, b) || (sym == symbol && b
                == new_state as int)),
{
    assert forall|sym: char, b: int|
        state_has_edge(post, sym, b) <==> (state_has_edge(pre, sym, b) || (sym == symbol && b
            == new_state as int)) by {
        lemma_dests_for_edge(post.transitions@, sym, b);
        lemma_dests_for_edge(pre.transitions@, sym, b);
        let d1 = dests_for(pre.transitions@, sym);
        let d2 = dests_for(post.transitions@, sym);
        if sym == symbol {
            assert(d2 == d1.push(new_state));
            if exists|k: int| 0 <= k < d2.len() && d2[k] as int == b {
                let k = choose|k: int| 0 <= k < d2.len() && d2[k] as int == b;
                if k < d1.len() {
                    assert(d1[k] as int == b);
                } else {
                    assert(b == new_state as int);
                }
            }
            if exists|k: int| 0 <= k < d1.len() && d1[k] as int == b {
                let k = choose|k: int| 0 <= k < d1.len() && d1[k] as int == b;
                assert(d2[k] as int == b);
            }
            if b == new_state as int {
                assert(d2[d1.len() as int] as int == b);
            }
        }
    }
}

impl State {
    /// A fresh state with no outgoing edges.
    pub fn new(is_accepting: bool) -> (r: State)
        ensures
            r.accepting == is_accepting,
            r.transitions@.len() == 0,
    {
        State { accepting: is_accepting, transitions: Vec::new() }
    }

    /// Appends `new_state` at the end of the destination list for
    /// `symbol`, preserving order and allowing repeats; every other
    /// symbol's list, the set of listed symbols (but for a first cell for
    /// `symbol`) and the acceptance flag are untouched, and nothing is
    /// ever removed.
    #[verifier::loop_isolation(false)]
    pub fn add_transition_for_symbol(&mut self, symbol: char, new_state: usize)
        ensures
            final(self).accepting == old(self).accepting,
            dests_for(final(self).transitions@, symbol) == dests_for(
                old(self).transitions@,
                symbol,
            ).push(new_state),
            forall|sym: char|
                sym != symbol ==> #[trigger] dests_for(final(self).transitions@, sym) == dests_for(
                    old(self).transitions@,
                    sym,
                ),
            state_symbols(*final(self)) == (if state_symbols(*old(self)).contains(symbol) {
                state_symbols(*old(self))
            } else {
                state_symbols(*old(self)).push(symbol)
            }),
            forall|sym: char, b: int|
                state_has_edge(*final(self), sym, b) <==> (state_has_edge(*old(self), sym, b) || (
                sym == symbol && b == new_state as int)),
    {
        let ghost pre = *self;
        let n = self.transitions.len();
        let mut j: usize = n;
        while j > 0
            invariant
                n == self.transitions@.len(),
                *self == pre,
                j <= n,
                forall|k: int| j <= k < n ==> (#[trigger] self.transitions@[k]).symbol != symbol,
            decreases j,
        {
            if self.transitions[j - 1].symbol == symbol {
                let jj = j - 1;
                let mut c = self.transitions.remove(jj);
                c.add_transition(new_state);
                let ghost c2 = c;
                self.transitions.insert(jj, c);
                proof {
                    assert(self.transitions@ =~= pre.transitions@.update(jj as int, c2));
                    lemma_dests_for_update_extend(
                        pre.transitions@,
                        jj as int,
                        c2,
                        new_state,
                        symbol,
                    );
                    assert(state_symbols(*self) =~= state_symbols(pre));
                    assert(state_symbols(pre).contains(symbol)) by {
                        assert(state_symbols(pre)[jj as int] == symbol);
                    }
                    lemma_state_edge_from_dests(pre, *self, symbol, new_state);
                }
                return ;
            }
            j -= 1;
        }
        let mut c = CELL::new(symbol);
        c.add_transition(new_state);
        let ghost c2 = c;
        self.transitions.push(c);
        proof {
            assert forall|sym: char| true implies #[trigger] dests_for(self.transitions@, sym)
                == dests_for(pre.transitions@, sym) + (if sym == symbol {
                c2.transition@
            } else {
                Seq::<usize>::empty()
            }) by {
                lemma_dests_for_push(pre.transitions@, c2, sym);
            }
            assert(dests_for(self.transitions@, symbol) =~= dests_for(
                pre.transitions@,
                symbol,
            ).push(new_state)) by {
                assert(c2.transition@ =~= Seq::<usize>::empty().push(new_state));
            }
            assert forall|sym: char| sym != symbol implies #[trigger] dests_for(
                self.transitions@,
                sym,
            ) == dests_for(pre.transitions@, sym) by {
                assert(dests_for(pre.transitions@, sym) + Seq::<usize>::empty() =~= dests_for(
                    pre.transitions@,
                    sym,
                ));
            }
            assert(state_symbols(*self) =~= state_symbols(pre).push(symbol));
            assert(!state_symbols(pre).contains(symbol)) by {
                if state_symbols(pre).contains(symbol) {
                    let k = choose|k: int|
                        0 <= k < state_symbols(pre).len() && state_symbols(pre)[k] == symbol;
                    assert(pre.transitions@[k].symbol == symbol);
                    assert(false);
                }
            }
            lemma_state_edge_from_dests(pre, *self, symbol, new_state);
        }
    }

    /// The (possibly empty) list of destinations recorded for `symbol`.
    #[verifier::loop_isolation(false)]
    pub fn get_transition_for_symbol(&self, symbol: char) -> (r: Vec<usize>)
        ensures
            r@ == dests_for(self.transitions@, symbol),
    {
        let mut r: Vec<usize> = Vec::new();
        let n = self.transitions.len();
        let mut j: usize = 0;
        while j < n
            invariant
                n == self.transitions@.len(),
                j <= n,
                r@ == dests_for(self.transitions@.subrange(0, j as int), symbol),
            decreases n - j,
        {
            let ghost prefix = self.transitions@.subrange(0, j as int);
            if self.transitions[j].symbol == symbol {
                let cell_len = self.transitions[j].transition.len();
                let mut k: usize = 0;
                while k < cell_len
                    invariant
                        j < n,
                        n == self.transitions@.len(),
                        cell_len == self.transitions@[j as int].transition@.len(),
                        k <= cell_len,
                        r@ == dests_for(prefix, symbol) + self.transitions@[
                            j as int
                        ].transition@.subrange(0, k as int),
                    decreases cell_len - k,
                {
                    r.push(self.transitions[j].transition[k]);
                    proof {
                        assert(self.transitions@[j as int].transition@.subrange(0, k as int + 1)
                            =~= self.transitions@[j as int].transition@.subrange(0, k as int).push(
                            self.transitions@[j as int].transition@[k as int],
                        ));
                        assert(r@ =~= dests_for(prefix, symbol) + self.transitions@[
                            j as int
                        ].transition@.subrange(0, k as int + 1));
                    }
                    k += 1;
                }
                proof {
                    let next = self.transitions@.subrange(0, j as int + 1);
                    assert(next.drop_last() =~= prefix);
                    assert(self.transitions@[j as int].transition@.subrange(
                        0,
                        cell_len as int,
                    ) =~= self.transitions@[j as int].transition@);
                    assert(r@ == dests_for(next, symbol));
                }
            } else {
                proof {
                    let next = self.transitions@.subrange(0, j as int + 1);
                    assert(next.drop_last() =~= prefix);
                    assert(r@ =~= dests_for(next, symbol));
                }
            }
            j += 1;
        }
        proof {
            assert(self.transitions@.subrange(0, n as int) =~= self.transitions@);
        }
        r
    }

    /// The symbols of this state's cells, in insertion order.
    #[verifier::loop_isolation(false)]
    pub fn get_all_transition_symbols(&self) -> (r: Vec<char>)
        ensures
            r@ == self.transitions@.map_values(|c: CELL| c.symbol),
    {
        let mut r: Vec<char> = Vec::new();
        let n = self.transitions.len();
        let mut j: usize = 0;
        while j < n
            invariant
                n == self.transitions@.len(),
                j <= n,
                r@ == self.transitions@.subrange(0, j as int).map_values(|c: CELL| c.symbol),
            decreases n - j,
        {
            r.push(self.transitions[j].symbol);
            proof {
                assert(r@ =~= self.transitions@.subrange(0, j as int + 1).map_values(
                    |c: CELL| c.symbol,
                ));
            }
            j += 1;
        }
        proof {
            assert(self.transitions@.subrange(0, n as int) =~= self.transitions@);
        }
        r
    }
}

pub(crate) proof fn lemma_seq_push_contains<A>(s: Seq<A>, e: A, x: A)
    ensures
        s.push(e).contains(x) <==> (s.contains(x) || x == e),
{
    if s.contains(x) {
        let i = choose|i: int| 0 <= i < s.len() && s[i] == x;
        assert(s.push(e)[i] == x);
    }
    if x == e {
        assert(s.push(e)[s.len() as int] == x);
    }
    if s.push(e).contains(x) {
        let i = choose|i: int| 0 <= i < s.push(e).len() && s.push(e)[i] == x;
        if i < s.len() {
            assert(s[i] == x);
        }
    }
}

/// Linear membership scan.
#[verifier::loop_isolation(false)]
pub(crate) fn vec_contains(v: &Vec<usize>, x: usize) -> (r: bool)
    ensures
        r == v@.contains(x),
{
    let n = v.len();
    let mut i: usize = 0;
    while i < n
        invariant
            i <= n,
            n == v@.len(),
            forall|q: int| 0 <= q < i ==> v@[q] != x,
        decreases n - i,
    {
        if v[i] == x {
            return true;
        }
        i += 1;
    }
    proof {
        if v@.contains(x) {
            let q = choose|q: int| 0 <= q < v@.len() && v@[q] == x;
            assert(false);
        }
    }
    false
}

/// Linear membership scan for symbols.
#[verifier::loop_isolation(false)]
pub(crate) fn char_contains(v: &Vec<char>, x: char) -> (r: bool)
    ensures
        r == v@.contains(x),
{
    let n = v.len();
    let mut i: usize = 0;
    while i < n
        invariant
            i <= n,
            n == v@.len(),
            forall|q: int| 0 <= q < i ==> v@[q] != x,
        decreases n - i,
    {
        if v[i] == x {
            return true;
        }
        i += 1;
    }
    proof {
        if v@.contains(x) {
            let q = choose|q: int| 0 <= q < v@.len() && v@[q] == x;
            assert(false);
        }
    }
    false
}

/// The epsilon closure of a seed set, computed by a worklist traversal with
/// a visited set: exactly the states epsilon-reachable from some seed.
#[verifier::loop_isolation(false)]
#[verifier::rlimit(100)]
#[verifier::spinoff_prover]
fn eps_close(states: &Vec<State>, seeds: &Vec<usize>) -> (r: Vec<usize>)
    requires
        arena_closed(states@),
        forall|q: int| 0 <= q < seeds@.len() ==> (#[trigger] seeds@[q]) < states@.len(),
    ensures
        r@.no_duplicates(),
        forall|q: int| 0 <= q < r@.len() ==> (#[trigger] r@[q]) < states@.len(),
        forall|t: usize|
            #[trigger] r@.contains(t) <==> eps_reach_from_any(states@, seeds@, t as int),
        seeds@.len() >= 1 ==> r@.len() >= 1 && r@[0] == seeds@[0],
{
    let n = states.len();
    let ns = seeds.len();
    let mut wl: Vec<usize> = Vec::new();
    let mut si: usize = 0;
    while si < ns
        invariant
            si <= ns,
            wl@.no_duplicates(),
            forall|q: int| 0 <= q < wl@.len() ==> (#[trigger] wl@[q]) < n,
            forall|q: int| 0 <= q < si ==> wl@.contains(#[trigger] seeds@[q]),
            forall|q: int| 0 <= q < wl@.len() ==> seeds@.contains(#[trigger] wl@[q]),
            wl@.len() <= si,
            si >= 1 ==> wl@.len() >= 1 && wl@[0] == seeds@[0],
        decreases ns - si,
    {
        let sv = seeds[si];
        let ghost pre = wl@;
        proof {
            if si == 0 {
                assert(wl@.len() == 0);
            }
        }
        if !vec_contains(&wl, sv) {
            wl.push(sv);
        }
        proof {
            assert forall|x: usize| pre.contains(x) implies wl@.contains(x) by {
                lemma_seq_push_contains(pre, sv, x);
            }
            assert(wl@.contains(sv)) by {
                if pre.contains(sv) {
                } else {
                    lemma_seq_push_contains(pre, sv, sv);
                }
            }
        }
        si += 1;
    }
    proof {
        lemma_distinct_bounded(wl@, n as nat);
        assert forall|q: int|
            0 <= q < wl@.len() implies eps_reach_from_any(
            states@,
            seeds@,
            (#[trigger] wl@[q]) as int,
        ) by {
            let q2 = choose|q2: int| 0 <= q2 < seeds@.len() && seeds@[q2] == wl@[q];
            lemma_eps_reach_refl(states@, wl@[q] as int);
        }
    }
    let mut i: usize = 0;
    while i < wl.len()
        invariant
            wl@.no_duplicates(),
            wl@.len() <= n,
            i <= wl@.len(),
            forall|q: int| 0 <= q < wl@.len() ==> (#[trigger] wl@[q]) < n,
            forall|q: int| 0 <= q < seeds@.len() ==> wl@.contains(#[trigger] seeds@[q]),
            forall|q: int|
                0 <= q < wl@.len() ==> eps_reach_from_any(
                    states@,
                    seeds@,
                    (#[trigger] wl@[q]) as int,
                ),
            forall|q: int, b: int|
                0 <= q < i && #[trigger] has_edge(states@, wl@[q] as int, EPSILON, b)
                    ==> wl@.contains(b as usize),
            seeds@.len() >= 1 ==> wl@.len() >= 1 && wl@[0] == seeds@[0],
        decreases n - i,
    {
        let cur = wl[i];
        let dests = states[cur].get_transition_for_symbol(EPSILON);
        let nd = dests.len();
        let ghost cur_i = i as int;
        let mut k: usize = 0;
        while k < nd
            invariant
                nd == dests@.len(),
                dests@ == dests_for(states@[cur as int].transitions@, EPSILON),
                cur == wl@[cur_i],
                0 <= cur_i < wl@.len(),
                cur < n,
                k <= nd,
                wl@.no_duplicates(),
                wl@.len() <= n,
                forall|q: int| 0 <= q < wl@.len() ==> (#[trigger] wl@[q]) < n,
                forall|q: int| 0 <= q < seeds@.len() ==> wl@.contains(#[trigger] seeds@[q]),
                forall|q: int|
                    0 <= q < wl@.len() ==> eps_reach_from_any(
                        states@,
                        seeds@,
                        (#[trigger] wl@[q]) as int,
                    ),
                forall|q: int, b: int|
                    0 <= q < cur_i && #[trigger] has_edge(states@, wl@[q] as int, EPSILON, b)
                        ==> wl@.contains(b as usize),
                forall|k2: int| 0 <= k2 < k ==> wl@.contains(#[trigger] dests@[k2]),
                seeds@.len() >= 1 ==> wl@.len() >= 1 && wl@[0] == seeds@[0],
            decreases nd - k,
        {
            let d = dests[k];
            proof {
                assert(dests@[k as int] == d);
                lemma_dests_for_edge(states@[cur as int].transitions@, EPSILON, d as int);
                assert(state_has_edge(states@[cur as int], EPSILON, d as int));
                assert(has_edge(states@, cur as int, EPSILON, d as int));
                assert(d < n);
            }
            let ghost pre = wl@;
            if !vec_contains(&wl, d) {
                wl.push(d);
                proof {
                    let q0 = choose|q0: int|
                        0 <= q0 < seeds@.len() && eps_reach(states@, seeds@[q0] as int, cur as int);
                    lemma_eps_reach_edge(states@, cur as int, d as int);
                    lemma_eps_reach_trans(states@, seeds@[q0] as int, cur as int, d as int);
                    lemma_distinct_bounded(wl@, n as nat);
                }
            }
            proof {
                assert forall|x: usize| pre.contains(x) implies wl@.contains(x) by {
                    if pre != wl@ {
                        lemma_seq_push_contains(pre, d, x);
                    }
                }
                assert(wl@.contains(d)) by {
                    if pre.contains(d) {
                    } else {
                        lemma_seq_push_contains(pre, d, d);
                    }
                }
            }
            k += 1;
        }
        proof {
            assert forall|b: int|
                has_edge(states@, wl@[cur_i] as int, EPSILON, b) implies wl@.contains(
                b as usize,
            ) by {
                lemma_dests_for_edge(states@[cur as int].transitions@, EPSILON, b);
                let kk = choose|kk: int|
                    0 <= kk < dests@.len() && dests@[kk] as int == b;
                assert(wl@.contains(dests@[kk]));
            }
        }
        i += 1;
    }
    proof {
        assert forall|t: usize|
            eps_reach_from_any(states@, seeds@, t as int) implies wl@.contains(t) by {
            let q0 = choose|q0: int|
                0 <= q0 < seeds@.len() && eps_reach(states@, seeds@[q0] as int, t as int);
            let sset = Set::new(|x: int| 0 <= x && wl@.contains(x as usize));
            let p = choose|p: Seq<int>|
                is_eps_path(states@, p) && p.first() == seeds@[q0] as int && p.last() == t as int;
            assert(sset.contains(p.first())) by {
                assert(wl@.contains(seeds@[q0]));
            }
            assert forall|x: int, y: int|
                sset.contains(x) && #[trigger] has_edge(states@, x, EPSILON, y) implies sset.contains(
                y,
            ) by {
                let qx = choose|qx: int| 0 <= qx < wl@.len() && wl@[qx] == x as usize;
                assert(has_edge(states@, wl@[qx] as int, EPSILON, y));
                assert(wl@.contains(y as usize));
                assert(0 <= y < states@.len());
            }
            lemma_eps_path_closed(states@, sset, p);
            assert(sset.contains(t as int));
        }
    }
    wl
}

impl State {
    /// The epsilon closure of one state: every state reachable from it by
    /// epsilon edges alone, each listed once, in discovery order starting
    /// from the state itself.
    pub fn epslion_closure(states: &Vec<State>, start: usize) -> (r: Vec<usize>)
        requires
            arena_closed(states@),
            (start as int) < states@.len(),
        ensures
            r@.no_duplicates(),
            r@.len() >= 1,
            r@[0] == start,
            forall|q: int| 0 <= q < r@.len() ==> (#[trigger] r@[q]) < states@.len(),
            forall|t: usize| #[trigger] r@.contains(t) <==> eps_reach(states@, start as int, t as int),
    {
        let mut seeds: Vec<usize> = Vec::new();
        seeds.push(start);
        let r = eps_close(states, &seeds);
        proof {
            assert forall|t: usize|
                #[trigger] r@.contains(t) <==> eps_reach(states@, start as int, t as int) by {
                if eps_reach(states@, start as int, t as int) {
                    assert(seeds@[0] == start);
                }
                if eps_reach_from_any(states@, seeds@, t as int) {
                    let q = choose|q: int|
                        0 <= q < seeds@.len() && eps_reach(states@, seeds@[q] as int, t as int);
                    assert(seeds@[q] == start);
                }
            }
        }
        r
    }

    /// One matcher step: from the set of currently active states, consume
    /// one input symbol and return the new active set (the epsilon closure
    /// of all destinations reached on that symbol).  The cycle guard resets
    /// here, because a symbol of input was consumed; within the closure it
    /// persists across the epsilon-only moves.
    #[verifier::loop_isolation(false)]
    pub fn test_helper(states: &Vec<State>, current: &Vec<usize>, c: char) -> (r: Vec<usize>)
        requires
            arena_closed(states@),
            forall|q: int| 0 <= q < current@.len() ==> (#[trigger] current@[q]) < states@.len(),
        ensures
            r@.no_duplicates(),
            forall|q: int| 0 <= q < r@.len() ==> (#[trigger] r@[q]) < states@.len(),
            forall|t: usize|
                #[trigger] r@.contains(t) <==> (c != EPSILON && exists|b: int|
                    #![auto]
                    move_edge(states@, current@, c, b) && eps_reach(states@, b, t as int)),
    {
        if c == EPSILON {
            let r: Vec<usize> = Vec::new();
            return r;
        }
        let nc = current.len();
        let mut seeds: Vec<usize> = Vec::new();
        let mut q: usize = 0;
        while q < nc
            invariant
                nc == current@.len(),
                q <= nc,
                forall|q2: int| 0 <= q2 < seeds@.len() ==> (#[trigger] seeds@[q2]) < states@.len(),
                forall|t: usize|
                    #[trigger] seeds@.contains(t) <==> move_edge(
                        states@,
                        current@.subrange(0, q as int),
                        c,
                        t as int,
                    ),
            decreases nc - q,
        {
            let dests = states[current[q]].get_transition_for_symbol(c);
            let nd = dests.len();
            let ghost qpre = current@.subrange(0, q as int);
            let mut k: usize = 0;
            while k < nd
                invariant
                    q < nc,
                    nc == current@.len(),
                    nd == dests@.len(),
                    dests@ == dests_for(states@[current@[q as int] as int].transitions@, c),
                    k <= nd,
                    forall|q2: int|
                        0 <= q2 < seeds@.len() ==> (#[trigger] seeds@[q2]) < states@.len(),
                    forall|t: usize|
                        #[trigger] seeds@.contains(t) <==> (move_edge(states@, qpre, c, t as int)
                            || exists|k2: int| 0 <= k2 < k && dests@[k2] == t),
                decreases nd - k,
            {
                let d = dests[k];
                proof {
                    assert(dests@[k as int] == d);
                    lemma_dests_for_edge(
                        states@[current@[q as int] as int].transitions@,
                        c,
                        d as int,
                    );
                    assert(state_has_edge(states@[current@[q as int] as int], c, d as int));
                    assert(has_edge(states@, current@[q as int] as int, c, d as int));
                    assert(d < states@.len());
                }
                let ghost pre = seeds@;
                seeds.push(d);
                proof {
                    assert forall|t: usize|
                        #[trigger] seeds@.contains(t) <==> (move_edge(states@, qpre, c, t as int)
                            || exists|k2: int| 0 <= k2 < k + 1 && dests@[k2] == t) by {
                        lemma_seq_push_contains(pre, d, t);
                        if seeds@.contains(t) && !pre.contains(t) {
                            assert(dests@[k as int] == t);
                        }
                        if exists|k2: int| 0 <= k2 < k + 1 && dests@[k2] == t {
                            let k2 = choose|k2: int| 0 <= k2 < k + 1 && dests@[k2] == t;
                        }
                    }
                }
                k += 1;
            }
            proof {
                let qnext = current@.subrange(0, q as int + 1);
                assert forall|t: usize|
                    #[trigger] seeds@.contains(t) <==> move_edge(states@, qnext, c, t as int) by {
                    if seeds@.contains(t) {
                        if move_edge(states@, qpre, c, t as int) {
                            let q2 = choose|q2: int|
                                0 <= q2 < qpre.len() && has_edge(
                                    states@,
                                    qpre[q2] as int,
                                    c,
                                    t as int,
                                );
                            assert(qnext[q2] == qpre[q2]);
                            assert(has_edge(states@, qnext[q2] as int, c, t as int));
                        } else {
                            let k2 = choose|k2: int| 0 <= k2 < nd && dests@[k2] == t;
                            assert(dests@[k2] as int == t as int);
                            lemma_dests_for_edge(
                                states@[current@[q as int] as int].transitions@,
                                c,
                                t as int,
                            );
                            assert(state_has_edge(
                                states@[current@[q as int] as int],
                                c,
                                t as int,
                            ));
                            assert(qnext[q as int] == current@[q as int]);
                            assert(has_edge(states@, qnext[q as int] as int, c, t as int));
                        }
                    }
                    if move_edge(states@, qnext, c, t as int) {
                        let q2 = choose|q2: int|
                            0 <= q2 < qnext.len() && has_edge(states@, qnext[q2] as int, c, t as int);
                        if q2 < q {
                            assert(qpre[q2] == qnext[q2]);
                            assert(move_edge(states@, qpre, c, t as int));
                        } else {
                            assert(qnext[q2] == current@[q as int]);
                            lemma_dests_for_edge(
                                states@[current@[q as int] as int].transitions@,
                                c,
                                t as int,
                            );
                            let kk = choose|kk: int|
                                0 <= kk < dests@.len() && dests@[kk] as int == t as int;
                            assert(dests@[kk] == t);
                        }
                    }
                }
            }
            q += 1;
        }
        proof {
            assert(current@.subrange(0, nc as int) =~= current@);
        }
        let r = eps_close(states, &seeds);
        proof {
            assert forall|t: usize|
                #[trigger] r@.contains(t) <==> (exists|b: int|
                    #![auto]
                    move_edge(states@, current@, c, b) && eps_reach(states@, b, t as int)) by {
                if r@.contains(t) {
                    let q2 = choose|q2: int|
                        0 <= q2 < seeds@.len() && eps_reach(states@, seeds@[q2] as int, t as int);
                    assert(seeds@.contains(seeds@[q2]));
                    assert(move_edge(states@, current@, c, seeds@[q2] as int));
                }
                if exists|b: int|
                    #![auto]
                    move_edge(states@, current@, c, b) && eps_reach(states@, b, t as int) {
                    let b = choose|b: int|
                        #![auto]
                        move_edge(states@, current@, c, b) && eps_reach(states@, b, t as int);
                    assert(0 <= b < states@.len());
                    assert(seeds@.contains(b as usize));
                    let qb = choose|qb: int| 0 <= qb < seeds@.len() && seeds@[qb] == b as usize;
                    assert(eps_reach_from_any(states@, seeds@, t as int));
                }
            }
        }
        r
    }

    /// Decides whether the automaton rooted at `start` accepts `input`, by
    /// simulating all nondeterministic runs at once: the worklist of active
    /// states advances symbol by symbol, with the visited set of the
    /// epsilon closure guarding against epsilon cycles at a fixed position.
    #[verifier::loop_isolation(false)]
    #[verifier::rlimit(60)]
    pub fn test(states: &Vec<State>, start: usize, input: &str) -> (r: bool)
        requires
            arena_closed(states@),
            (start as int) < states@.len(),
        ensures
            r == accepts(states@, start as int, input@),
    {
        let nstates = states.len();
        let n = input.unicode_len();
        let mut current = State::epslion_closure(states, start);
        proof {
            assert(input@.subrange(0, 0) =~= Seq::<char>::empty());
        }
        let mut i: usize = 0;
        while i < n
            invariant
                n == input@.len(),
                i <= n,
                current@.no_duplicates(),
                forall|q: int| 0 <= q < current@.len() ==> (#[trigger] current@[q]) < states@.len(),
                forall|t: usize|
                    #[trigger] current@.contains(t) <==> reaches(
                        states@,
                        start as int,
                        input@.subrange(0, i as int),
                        t as int,
                    ),
            decreases n - i,
        {
            let c = input.get_char(i);
            let ghost u = input@.subrange(0, i as int);
            let next = State::test_helper(states, &current, c);
            proof {
                let w1 = input@.subrange(0, i as int + 1);
                assert(w1 =~= u.push(c));
                assert forall|t: usize|
                    #[trigger] next@.contains(t) <==> reaches(
                        states@,
                        start as int,
                        w1,
                        t as int,
                    ) by {
                    lemma_reaches_snoc(states@, start as int, u, c, t as int);
                    if next@.contains(t) {
                        let b = choose|b: int|
                            #![auto]
                            move_edge(states@, current@, c, b) && eps_reach(states@, b, t as int);
                        let q2 = choose|q2: int|
                            0 <= q2 < current@.len() && has_edge(
                                states@,
                                current@[q2] as int,
                                c,
                                b,
                            );
                        assert(current@.contains(current@[q2]));
                        assert(reaches(states@, start as int, u, current@[q2] as int));
                    }
                    if reaches(states@, start as int, w1, t as int) {
                        let (m, b) = choose|m: int, b: int|
                            #![auto]
                            reaches(states@, start as int, u, m) && has_edge(states@, m, c, b)
                                && eps_reach(states@, b, t as int);
                        assert(0 <= m < states@.len());
                        assert(current@.contains(m as usize));
                        let qm = choose|qm: int|
                            0 <= qm < current@.len() && current@[qm] == m as usize;
                        assert(move_edge(states@, current@, c, b));
                    }
                }
            }
            current = next;
            i += 1;
        }
        proof {
            assert(input@.subrange(0, n as int) =~= input@);
        }
        let nc = current.len();
        let mut k: usize = 0;
        while k < nc
            invariant
                nc == current@.len(),
                k <= nc,
                forall|q: int| 0 <= q < current@.len() ==> (#[trigger] current@[q]) < states@.len(),
                forall|t: usize|
                    #[trigger] current@.contains(t) <==> reaches(
                        states@,
                        start as int,
                        input@,
                        t as int,
                    ),
                forall|q: int|
                    0 <= q < k ==> !states@[(#[trigger] current@[q]) as int].accepting,
            decreases nc - k,
        {
            if states[current[k]].accepting {
                proof {
                    assert(current@.contains(current@[k as int]));
                    assert(reaches(states@, start as int, input@, current@[k as int] as int));
                    assert(accepts(states@, start as int, input@));
                }
                return true;
            }
            k += 1;
        }
        proof {
            if accepts(states@, start as int, input@) {
                let t = choose|t: int|
                    #![auto]
                    reaches(states@, start as int, input@, t) && 0 <= t < states@.len()
                        && states@[t].accepting;
                assert(current@.contains(t as usize));
                let qt = choose|qt: int| 0 <= qt < current@.len() && current@[qt] == t as usize;
                assert(false);
            }
        }
        false
    }

    /// Walks the whole graph reachable from `start`, counting states once
    /// each and collecting every transition symbol seen along the way.
    /// Returns the count, the symbols and the reachable state indices, the
    /// latter in discovery order.
    #[verifier::loop_isolation(false)]
    pub fn count_unique_transitions(states: &Vec<State>, start: usize) -> (r: (
        u64,
        Vec<char>,
        Vec<usize>,
    ))
        requires
            arena_closed(states@),
            (start as int) < states@.len(),
        ensures
            r.2@.no_duplicates(),
            forall|q: int| 0 <= q < r.2@.len() ==> (#[trigger] r.2@[q]) < states@.len(),
            forall|t: usize|
                #[trigger] r.2@.contains(t) <==> reachable(states@, start as int, t as int),
            r.0 as int == r.2@.len(),
            r.1@.no_duplicates(),
            forall|c: char| #[trigger] r.1@.contains(c) <==> reachable_symbol(states@, start as int, c),
    {
        let n = states.len();
        let mut wl: Vec<usize> = Vec::new();
        wl.push(start);
        let mut symbols: Vec<char> = Vec::new();
        proof {
            lemma_reachable_refl(states@, start as int);
            lemma_distinct_bounded(wl@, n as nat);
            assert(wl@.contains(start)) by {
                assert(wl@[0] == start);
            }
        }
        let mut i: usize = 0;
        while i < wl.len()
            invariant
                wl@.no_duplicates(),
                wl@.len() <= n,
                i <= wl@.len(),
                wl@.contains(start),
                forall|q: int| 0 <= q < wl@.len() ==> (#[trigger] wl@[q]) < n,
                forall|q: int|
                    0 <= q < wl@.len() ==> reachable(states@, start as int, (#[trigger] wl@[q]) as int),
                forall|q: int, b: int|
                    0 <= q < i && #[trigger] any_edge(states@, wl@[q] as int, b) ==> wl@.contains(
                        b as usize,
                    ),
                symbols@.no_duplicates(),
                forall|c: char|
                    #[trigger] symbols@.contains(c) <==> exists|q: int, j: int|
                        #![auto]
                        0 <= q < i && 0 <= j < states@[wl@[q] as int].transitions@.len()
                            && states@[wl@[q] as int].transitions@[j].symbol == c,
            decreases n - i,
        {
            let cur = wl[i];
            let ghost cur_i = i as int;
            let syms = states[cur].get_all_transition_symbols();
            let nsym = syms.len();
            let mut sj: usize = 0;
            while sj < nsym
                invariant
                    cur == wl@[cur_i],
                    0 <= cur_i < wl@.len(),
                    cur < n,
                    nsym == syms@.len(),
                    syms@ == states@[cur as int].transitions@.map_values(|cc: CELL| cc.symbol),
                    sj <= nsym,
                    symbols@.no_duplicates(),
                    forall|c: char|
                        #[trigger] symbols@.contains(c) <==> (exists|q: int, j: int|
                            #![auto]
                            0 <= q < cur_i && 0 <= j < states@[wl@[q] as int].transitions@.len()
                                && states@[wl@[q] as int].transitions@[j].symbol == c) || exists|
                            j: int,
                        |
                            0 <= j < sj && syms@[j] == c,
                decreases nsym - sj,
            {
                let cc = syms[sj];
                let ghost pre = symbols@;
                if !char_contains(&symbols, cc) {
                    symbols.push(cc);
                }
                proof {
                    assert forall|c: char|
                        #[trigger] symbols@.contains(c) <==> (pre.contains(c) || c == cc) by {
                        lemma_seq_push_contains(pre, cc, c);
                    }
                    assert(exists|j: int| 0 <= j < sj + 1 && syms@[j] == cc) by {
                        assert(syms@[sj as int] == cc);
                    }
                }
                sj += 1;
            }
            proof {
                assert forall|c: char|
                    #[trigger] symbols@.contains(c) <==> (exists|q: int, j: int|
                        #![auto]
                        0 <= q < cur_i + 1 && 0 <= j < states@[wl@[q] as int].transitions@.len()
                            && states@[wl@[q] as int].transitions@[j].symbol == c) by {
                    if symbols@.contains(c) {
                        if exists|j: int| 0 <= j < nsym && syms@[j] == c {
                            let j = choose|j: int| 0 <= j < nsym && syms@[j] == c;
                            assert(states@[wl@[cur_i] as int].transitions@[j].symbol == c);
                        }
                    } else {
                        if exists|q: int, j: int|
                            #![auto]
                            0 <= q < cur_i + 1 && 0 <= j < states@[wl@[q] as int].transitions@.len()
                                && states@[wl@[q] as int].transitions@[j].symbol == c {
                            let (q, j) = choose|q: int, j: int|
                                #![auto]
                                0 <= q < cur_i + 1 && 0 <= j < states@[
                                    wl@[q] as int
                                ].transitions@.len() && states@[wl@[q] as int].transitions@[j].symbol
                                    == c;
                            if q == cur_i {
                                assert(syms@[j] == c);
                            }
                            assert(false);
                        }
                    }
                }
            }
            let ghost wl0 = wl@;
            let mut sj2: usize = 0;
            while sj2 < nsym
                invariant
                    cur == wl@[cur_i],
                    wl0.len() <= wl@.len(),
                    forall|q: int| 0 <= q < wl0.len() ==> wl@[q] == wl0[q],
                    cur_i < wl0.len(),
                    0 <= cur_i < wl@.len(),
                    cur < n,
                    nsym == syms@.len(),
                    syms@ == states@[cur as int].transitions@.map_values(|cc: CELL| cc.symbol),
                    sj2 <= nsym,
                    wl@.no_duplicates(),
                    wl@.len() <= n,
                    wl@.contains(start),
                    forall|q: int| 0 <= q < wl@.len() ==> (#[trigger] wl@[q]) < n,
                    forall|q: int|
                        0 <= q < wl@.len() ==> reachable(
                            states@,
                            start as int,
                            (#[trigger] wl@[q]) as int,
                        ),
                    forall|q: int, b: int|
                        0 <= q < cur_i && #[trigger] any_edge(states@, wl@[q] as int, b)
                            ==> wl@.contains(b as usize),
                    forall|j: int, k2: int|
                        #![auto]
                        0 <= j < sj2 && 0 <= k2 < states@[cur as int].transitions@[j].transition@.len()
                            ==> wl@.contains(states@[cur as int].transitions@[j].transition@[k2]),
                    forall|c: char|
                        #[trigger] symbols@.contains(c) <==> exists|q: int, j: int|
                            #![auto]
                            0 <= q < cur_i + 1 && 0 <= j < states@[wl0[q] as int].transitions@.len()
                                && states@[wl0[q] as int].transitions@[j].symbol == c,
                decreases nsym - sj2,
            {
                let dests = states[cur].get_transition_for_symbol(syms[sj2]);
                let nd = dests.len();
                let ghost cursym = syms@[sj2 as int];
                let mut k: usize = 0;
                while k < nd
                    invariant
                        cur == wl@[cur_i],
                        0 <= cur_i < wl@.len(),
                        cur < n,
                        sj2 < nsym,
                        nsym == syms@.len(),
                        syms@ == states@[cur as int].transitions@.map_values(|cc: CELL| cc.symbol),
                        nd == dests@.len(),
                        dests@ == dests_for(states@[cur as int].transitions@, cursym),
                        cursym == syms@[sj2 as int],
                        k <= nd,
                        wl@.no_duplicates(),
                        wl@.len() <= n,
                        wl@.contains(start),
                        forall|q: int| 0 <= q < wl@.len() ==> (#[trigger] wl@[q]) < n,
                        forall|q: int|
                            0 <= q < wl@.len() ==> reachable(
                                states@,
                                start as int,
                                (#[trigger] wl@[q]) as int,
                            ),
                        forall|q: int, b: int|
                            0 <= q < cur_i && #[trigger] any_edge(states@, wl@[q] as int, b)
                                ==> wl@.contains(b as usize),
                        forall|j: int, k2: int|
                            #![auto]
                            0 <= j < sj2 && 0 <= k2 < states@[
                                cur as int
                            ].transitions@[j].transition@.len() ==> wl@.contains(
                                states@[cur as int].transitions@[j].transition@[k2],
                            ),
                        forall|k2: int| 0 <= k2 < k ==> wl@.contains(#[trigger] dests@[k2]),
                        wl0.len() <= wl@.len(),
                        forall|q: int| 0 <= q < wl0.len() ==> wl@[q] == wl0[q],
                        forall|c: char|
                            #[trigger] symbols@.contains(c) <==> exists|q: int, j: int|
                                #![auto]
                                0 <= q < cur_i + 1 && 0 <= j < states@[
                                    wl0[q] as int
                                ].transitions@.len() && states@[wl0[q] as int].transitions@[j].symbol
                                    == c,
                    decreases nd - k,
                {
                    let d = dests[k];
                    proof {
                        lemma_dests_for_edge(states@[cur as int].transitions@, cursym, d as int);
                        assert(has_edge(states@, cur as int, cursym, d as int));
                        assert(any_edge(states@, cur as int, d as int));
                        assert(d < n);
                    }
                    let ghost pre = wl@;
                    if !vec_contains(&wl, d) {
                        wl.push(d);
                        proof {
                            lemma_reachable_step(states@, start as int, cur as int, d as int);
                            lemma_distinct_bounded(wl@, n as nat);
                        }
                    }
                    proof {
                        assert forall|x: usize| pre.contains(x) implies wl@.contains(x) by {
                            if pre != wl@ {
                                lemma_seq_push_contains(pre, d, x);
                            }
                        }
                        assert(wl@.contains(d)) by {
                            if pre.contains(d) {
                            } else {
                                lemma_seq_push_contains(pre, d, d);
                            }
                        }
                    }
                    k += 1;
                }
                proof {
                    assert forall|k2: int|
                        #![auto]
                        0 <= k2 < states@[cur as int].transitions@[sj2 as int].transition@.len() implies wl@.contains(
                        states@[cur as int].transitions@[sj2 as int].transition@[k2],
                    ) by {
                        let dd = states@[cur as int].transitions@[sj2 as int].transition@[k2];
                        assert(states@[cur as int].transitions@[sj2 as int].symbol == cursym) by {
                            assert(syms@[sj2 as int] == states@[cur as int].transitions@.map_values(
                                |cc: CELL| cc.symbol,
                            )[sj2 as int]);
                        }
                        lemma_dests_for_edge(states@[cur as int].transitions@, cursym, dd as int);
                        let kk = choose|kk: int|
                            0 <= kk < dests@.len() && dests@[kk] as int == dd as int;
                        assert(wl@.contains(dests@[kk]));
                    }
                }
                sj2 += 1;
            }
            proof {
                assert forall|c: char|
                    #[trigger] symbols@.contains(c) <==> exists|q: int, j: int|
                        #![auto]
                        0 <= q < cur_i + 1 && 0 <= j < states@[wl@[q] as int].transitions@.len()
                            && states@[wl@[q] as int].transitions@[j].symbol == c by {
                    if symbols@.contains(c) {
                        let (q, j) = choose|q: int, j: int|
                            #![auto]
                            0 <= q < cur_i + 1 && 0 <= j < states@[
                                wl0[q] as int
                            ].transitions@.len() && states@[wl0[q] as int].transitions@[j].symbol
                                == c;
                        assert(wl@[q] == wl0[q]);
                    } else {
                        if exists|q: int, j: int|
                            #![auto]
                            0 <= q < cur_i + 1 && 0 <= j < states@[wl@[q] as int].transitions@.len()
                                && states@[wl@[q] as int].transitions@[j].symbol == c {
                            let (q, j) = choose|q: int, j: int|
                                #![auto]
                                0 <= q < cur_i + 1 && 0 <= j < states@[
                                    wl@[q] as int
                                ].transitions@.len() && states@[
                                    wl@[q] as int
                                ].transitions@[j].symbol == c;
                            assert(wl0[q] == wl@[q]);
                            assert(false);
                        }
                    }
                }
                assert forall|b: int|
                    any_edge(states@, wl@[cur_i] as int, b) implies wl@.contains(b as usize) by {
                    let sym = choose|sym: char| has_edge(states@, cur as int, sym, b);
                    let (j, k2) = choose|j: int, k2: int|
                        #![auto]
                        0 <= j < states@[cur as int].transitions@.len() && states@[
                            cur as int
                        ].transitions@[j].symbol == sym && 0 <= k2 < states@[
                            cur as int
                        ].transitions@[j].transition@.len() && states@[
                            cur as int
                        ].transitions@[j].transition@[k2] as int == b;
                    assert(wl@.contains(states@[cur as int].transitions@[j].transition@[k2]));
                }
            }
            i += 1;
        }
        proof {
            assert forall|t: usize|
                reachable(states@, start as int, t as int) implies wl@.contains(t) by {
                let sset = Set::new(|x: int| 0 <= x && wl@.contains(x as usize));
                let p = choose|p: Seq<int>|
                    is_walk(states@, p) && p.first() == start as int && p.last() == t as int;
                assert(sset.contains(p.first()));
                assert forall|x: int, y: int|
                    sset.contains(x) && #[trigger] any_edge(states@, x, y) implies sset.contains(
                    y,
                ) by {
                    let qx = choose|qx: int| 0 <= qx < wl@.len() && wl@[qx] == x as usize;
                    assert(any_edge(states@, wl@[qx] as int, y));
                    assert(wl@.contains(y as usize));
                    let sym = choose|sym: char| has_edge(states@, x, sym, y);
                    assert(0 <= y < states@.len());
                }
                lemma_walk_closed(states@, sset, p);
                assert(sset.contains(t as int));
            }
            assert forall|c: char|
                #[trigger] symbols@.contains(c) <==> reachable_symbol(states@, start as int, c) by {
                if symbols@.contains(c) {
                    let (q, j) = choose|q: int, j: int|
                        #![auto]
                        0 <= q < wl@.len() && 0 <= j < states@[wl@[q] as int].transitions@.len()
                            && states@[wl@[q] as int].transitions@[j].symbol == c;
                    assert(reachable(states@, start as int, wl@[q] as int));
                }
                if reachable_symbol(states@, start as int, c) {
                    let (t, j) = choose|t: int, j: int|
                        #![auto]
                        reachable(states@, start as int, t) && 0 <= t < states@.len() && 0 <= j
                            < states@[t].transitions@.len() && states@[t].transitions@[j].symbol
                            == c;
                    assert(wl@.contains(t as usize));
                    let qt = choose|qt: int| 0 <= qt < wl@.len() && wl@[qt] == t as usize;
                }
            }
        }
        let count_usize = wl.len();
        let count: u64 = count_usize as u64;
        (count, symbols, wl)
    }
}

} // verus!
