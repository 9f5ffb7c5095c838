//! Determinization by subset construction: a flattened NFA transition
//! table is converted into a DFA transition table keyed by canonical
//! (sorted, deduplicated) sets of NFA state identifiers.

use vstd::arithmetic::power2::{lemma_pow2_strictly_increases, lemma_pow2_unfold, pow2};
use vstd::prelude::*;
use vstd::set_lib::{lemma_len_subset, lemma_len_union, lemma_map_size_bound};

use crate::lang::{table_edge, table_has_key, table_keys_unique};
use crate::nfa::{push_cell, TableRow, TransitionTable, CELL};
use crate::state::{
    cells_edge, char_contains, dests_for, lemma_dests_for_edge, lemma_seq_push_contains,
    vec_contains, State, EPSILON,
};

verus! {

/// A canonical identifier list: strictly increasing, hence duplicate-free.
pub open spec fn sorted_unique(s: Seq<usize>) -> bool {
    forall|i: int, j: int| 0 <= i < j < s.len() ==> s[i] < s[j]
}

/// The set of identifiers a canonical key stands for.
pub open spec fn key_set(k: Seq<usize>) -> Set<int> {
    Set::new(|b: int| 0 <= b <= usize::MAX && k.contains(b as usize))
}

/// Every destination recorded in the table is itself a key of the table
/// (the no-dangling-edges invariant of flattened tables).
pub open spec fn table_closed(t: TransitionTable) -> bool {
    forall|a: int, sym: char, b: int| #[trigger] table_edge(t, a, sym, b) ==> table_has_key(t, b)
}

/// `sym` belongs to the table's alphabet: some cell carries it, and it is
/// not the reserved epsilon marker.
pub open spec fn table_has_symbol(t: TransitionTable, sym: char) -> bool {
    sym != EPSILON && exists|i: int, j: int|
        #![auto]
        0 <= i < t.rows@.len() && 0 <= j < t.rows@[i].cells@.len()
            && t.rows@[i].cells@[j].symbol == sym
}

/// `p` is a non-empty sequence of identifiers joined by epsilon edges of
/// the table.
pub open spec fn is_t_eps_path(t: TransitionTable, p: Seq<int>) -> bool {
    &&& p.len() >= 1
    &&& forall|i: int| 0 <= i < p.len() - 1 ==> table_edge(t, #[trigger] p[i], EPSILON, p[i + 1])
}

/// `b` is reachable from `a` over epsilon edges of the table.
pub open spec fn t_eps_reach(t: TransitionTable, a: int, b: int) -> bool {
    exists|p: Seq<int>| is_t_eps_path(t, p) && p.first() == a && p.last() == b
}

/// The epsilon closure of a set of identifiers, over the table.
#[verifier::opaque]
pub open spec fn closure_set(t: TransitionTable, s: Set<int>) -> Set<int> {
    Set::new(|b: int| exists|a: int| s.contains(a) && t_eps_reach(t, a, b))
}

/// All destinations reachable from `s` on one `sym` edge of the table.
#[verifier::opaque]
pub open spec fn move_set(t: TransitionTable, s: Set<int>, sym: char) -> Set<int> {
    Set::new(|b: int| exists|a: int| s.contains(a) && table_edge(t, a, sym, b))
}

/// `y` is epsilon-reachable (over the table) from at least one seed.
pub open spec fn t_reach_from_any(t: TransitionTable, seeds: Seq<usize>, y: int) -> bool {
    exists|q: int| 0 <= q < seeds.len() && t_eps_reach(t, (#[trigger] seeds[q]) as int, y)
}

pub proof fn lemma_t_eps_reach_refl(t: TransitionTable, a: int)
    ensures
        t_eps_reach(t, a, a),
{
    let p = seq![a];
    assert(is_t_eps_path(t, p));
    assert(p.first() == a && p.last() == a);
}

pub proof fn lemma_t_eps_reach_edge(t: TransitionTable, a: int, b: int)
    requires
        table_edge(t, a, EPSILON, b),
    ensures
        t_eps_reach(t, a, b),
{
    let p = seq![a, b];
    assert(p.len() == 2 && p[0] == a && p[1] == b);
    assert(is_t_eps_path(t, p));
    assert(p.first() == a && p.last() == b);
}

pub proof fn lemma_t_eps_reach_trans(t: TransitionTable, a: int, b: int, c: int)
    requires
        t_eps_reach(t, a, b),
        t_eps_reach(t, b, c),
    ensures
        t_eps_reach(t, a, c),
{
    let p1 = choose|p: Seq<int>| is_t_eps_path(t, p) && p.first() == a && p.last() == b;
    let p2 = choose|p: Seq<int>| is_t_eps_path(t, p) && p.first() == b && p.last() == c;
    if p2.len() == 1 {
        assert(p1.first() == a && p1.last() == c);
    } else {
        let q = p1 + p2.drop_first();
        assert(q.len() == p1.len() + p2.len() - 1);
        assert forall|i: int| 0 <= i < q.len() - 1 implies table_edge(
            t,
            #[trigger] q[i],
            EPSILON,
            q[i + 1],
        ) by {
            if i < p1.len() - 1 {
                assert(q[i] == p1[i] && q[i + 1] == p1[i + 1]);
                assert(table_edge(t, p1[i], EPSILON, p1[i + 1]));
            } else if i == p1.len() - 1 {
                assert(q[i] == p1[p1.len() - 1] && q[i + 1] == p2[1]);
                assert(p1.last() == p2[0]);
                assert(table_edge(t, p2[0], EPSILON, p2[1]));
            } else {
                assert(q[i] == p2[i - p1.len() + 1] && q[i + 1] == p2[i - p1.len() + 2]);
                assert(table_edge(t, p2[i - p1.len() + 1], EPSILON, p2[i - p1.len() + 2]));
            }
        }
        assert(is_t_eps_path(t, q));
        assert(q.first() == a && q.last() == c);
    }
}

/// The last identifier of a table epsilon path starting in a set closed
/// under the table's epsilon edges lies in that set.
pub proof fn lemma_t_eps_path_closed(t: TransitionTable, sset: Set<int>, p: Seq<int>)
    requires
        is_t_eps_path(t, p),
        sset.contains(p.first()),
        forall|x: int, y: int|
            sset.contains(x) && #[trigger] table_edge(t, x, EPSILON, y) ==> sset.contains(y),
    ensures
        sset.contains(p.last()),
    decreases p.len(),
{
    if p.len() == 1 {
    } else {
        assert(table_edge(t, p[0], EPSILON, p[1]));
        assert(sset.contains(p[1]));
        let q = p.drop_first();
        assert forall|i: int| 0 <= i < q.len() - 1 implies table_edge(
            t,
            #[trigger] q[i],
            EPSILON,
            q[i + 1],
        ) by {
            assert(q[i] == p[i + 1] && q[i + 1] == p[i + 2]);
            assert(table_edge(t, p[i + 1], EPSILON, p[i + 2]));
        }
        assert(is_t_eps_path(t, q));
        lemma_t_eps_path_closed(t, sset, q);
    }
}

/// Two canonical keys standing for the same set are the same list.
pub proof fn lemma_sorted_unique_same_set(v1: Seq<usize>, v2: Seq<usize>)
    requires
        sorted_unique(v1),
        sorted_unique(v2),
        forall|y: usize| v1.contains(y) <==> v2.contains(y),
    ensures
        v1 == v2,
    decreases v1.len(),
{
    if v1.len() == 0 {
        if v2.len() > 0 {
            assert(v2.contains(v2[0]));
            assert(false);
        }
        assert(v1 =~= v2);
    } else {
        assert(v1.contains(v1.last())) by {
            assert(v1[v1.len() - 1] == v1.last());
        }
        if v2.len() == 0 {
            assert(false);
        }
        assert(v2.contains(v2.last())) by {
            assert(v2[v2.len() - 1] == v2.last());
        }
        let i2 = choose|i2: int| 0 <= i2 < v2.len() && v2[i2] == v1.last();
        assert(v2.last() >= v1.last()) by {
            if i2 < v2.len() - 1 {
                assert(v2[i2] < v2[v2.len() - 1]);
            }
        }
        let i1 = choose|i1: int| 0 <= i1 < v1.len() && v1[i1] == v2.last();
        assert(v1.last() >= v2.last()) by {
            if i1 < v1.len() - 1 {
                assert(v1[i1] < v1[v1.len() - 1]);
            }
        }
        assert(v1.last() == v2.last());
        let w1 = v1.drop_last();
        let w2 = v2.drop_last();
        assert forall|y: usize| w1.contains(y) <==> w2.contains(y) by {
            if w1.contains(y) {
                let q = choose|q: int| 0 <= q < w1.len() && w1[q] == y;
                assert(v1[q] == y);
                assert(v1.contains(y));
                assert(y < v1.last()) by {
                    assert(v1[q] < v1[v1.len() - 1]);
                }
                let q2 = choose|q2: int| 0 <= q2 < v2.len() && v2[q2] == y;
                assert(q2 != v2.len() - 1);
                assert(w2[q2] == y);
                assert(w2.contains(y));
            }
            if w2.contains(y) {
                let q = choose|q: int| 0 <= q < w2.len() && w2[q] == y;
                assert(v2[q] == y);
                assert(v2.contains(y));
                assert(y < v2.last()) by {
                    assert(v2[q] < v2[v2.len() - 1]);
                }
                let q2 = choose|q2: int| 0 <= q2 < v1.len() && v1[q2] == y;
                assert(q2 != v1.len() - 1);
                assert(w1[q2] == y);
                assert(w1.contains(y));
            }
        }
        lemma_sorted_unique_same_set(w1, w2);
        assert(v1 =~= v2) by {
            assert(v1.len() == v2.len());
            assert(forall|q: int| 0 <= q < v1.len() - 1 ==> v1[q] == w1[q] && v2[q] == w2[q]);
        }
    }
}

/// The finite subsets of a finite set `u`.
#[verifier::opaque]
pub open spec fn subsets_of(u: Set<int>) -> Set<Set<int>> {
    Set::new(|s: Set<int>| s.finite() && s.subset_of(u))
}

/// A finite set of size `n` has at most `pow2(n)` subsets.
pub proof fn lemma_subsets_card(u: Set<int>)
    requires
        u.finite(),
    ensures
        subsets_of(u).finite(),
        subsets_of(u).len() <= pow2(u.len()),
    decreases u.len(),
{
    reveal(subsets_of);
    if u.len() == 0 {
        vstd::set_lib::lemma_set_empty_equivalency_len(u);
        assert forall|s: Set<int>| subsets_of(u).contains(s) implies s
            == Set::<int>::empty() by {
            assert(s.subset_of(u));
            assert(s =~= Set::<int>::empty());
        }
        assert(subsets_of(u) =~= Set::<Set<int>>::empty().insert(Set::<int>::empty()));
        assert(subsets_of(u).len() == 1);
        assert(pow2(0) == 1) by {
            vstd::arithmetic::power2::lemma2_to64();
        }
    } else {
        let x = u.choose();
        assert(u.contains(x)) by {
            if u.is_empty() {
                vstd::set_lib::lemma_set_empty_equivalency_len(u);
            }
        }
        let u2 = u.remove(x);
        lemma_subsets_card(u2);
        let small = subsets_of(u2);
        let f = |s: Set<int>| s.insert(x);
        let img = small.map(f);
        lemma_map_size_bound(small, img, f);
        assert(subsets_of(u) =~= small.union(img)) by {
            assert forall|s: Set<int>| subsets_of(u).contains(s) implies small.union(
                img,
            ).contains(s) by {
                if s.contains(x) {
                    let s0 = s.remove(x);
                    assert(s0.finite() && s0.subset_of(u2));
                    assert(small.contains(s0));
                    assert(f(s0) == s) by {
                        assert(s0.insert(x) =~= s);
                    }
                    assert(img.contains(s));
                } else {
                    assert(s.subset_of(u2));
                    assert(small.contains(s));
                }
            }
            assert forall|s: Set<int>| small.union(img).contains(s) implies subsets_of(
                u,
            ).contains(s) by {
                if small.contains(s) {
                    assert(s.finite() && s.subset_of(u));
                } else {
                    let s0 = choose|s0: Set<int>| small.contains(s0) && f(s0) == s;
                    assert(s == s0.insert(x));
                    assert(s.finite() && s.subset_of(u));
                }
            }
        }
        lemma_len_union(small, img);
        assert(pow2(u.len()) == 2 * pow2(u2.len())) by {
            lemma_pow2_unfold(u.len());
        }
    }
}

/// Copies an identifier list.
pub(crate) fn copy_key(v: &Vec<usize>) -> (r: Vec<usize>)
    ensures
        r@ == v@,
{
    let n = v.len();
    let mut r: Vec<usize> = Vec::new();
    let mut i: usize = 0;
    while i < n
        invariant
            n == v@.len(),
            i <= n,
            r@ == v@.subrange(0, i as int),
        decreases n - i,
    {
        r.push(v[i]);
        proof {
            assert(r@ =~= v@.subrange(0, i as int + 1));
        }
        i += 1;
    }
    proof {
        assert(v@.subrange(0, n as int) =~= v@);
    }
    r
}

/// Compares two identifier lists element by element.
pub(crate) fn key_eq(a: &Vec<usize>, b: &Vec<usize>) -> (r: bool)
    ensures
        r == (a@ == b@),
{
    let n = a.len();
    if n != b.len() {
        proof {
            assert(a@ != b@) by {
                if a@ == b@ {
                    assert(a@.len() == b@.len());
                }
            }
        }
        return false;
    }
    let mut i: usize = 0;
    while i < n
        invariant
            n == a@.len(),
            n == b@.len(),
            i <= n,
            forall|q: int| 0 <= q < i ==> a@[q] == b@[q],
        decreases n - i,
    {
        if a[i] != b[i] {
            proof {
                assert(a@ != b@) by {
                    if a@ == b@ {
                        assert(a@[i as int] == b@[i as int]);
                    }
                }
            }
            return false;
        }
        i += 1;
    }
    proof {
        assert(a@ =~= b@);
    }
    true
}

/// Inserts an identifier into a canonical list, keeping it canonical.
#[verifier::loop_isolation(false)]
pub(crate) fn insert_sorted_unique(v: &mut Vec<usize>, x: usize)
    requires
        sorted_unique(old(v)@),
    ensures
        sorted_unique(final(v)@),
        forall|y: usize| final(v)@.contains(y) <==> (old(v)@.contains(y) || y == x),
{
    let n = v.len();
    let mut i: usize = 0;
    while i < n && v[i] < x
        invariant
            n == v@.len(),
            *v == *old(v),
            i <= n,
            forall|q: int| 0 <= q < i ==> v@[q] < x,
        decreases n - i,
    {
        i += 1;
    }
    if i < n && v[i] == x {
        proof {
            assert(v@.contains(x));
        }
        return ;
    }
    proof {
        assert(i == n || v@[i as int] > x);
    }
    let ghost pre = v@;
    v.insert(i, x);
    proof {
        assert(v@ == pre.insert(i as int, x));
        assert forall|q1: int, q2: int| 0 <= q1 < q2 < v@.len() implies v@[q1] < v@[q2] by {
            if q1 < i && q2 < i {
                assert(v@[q1] == pre[q1] && v@[q2] == pre[q2]);
            } else if q1 < i && q2 == i {
                assert(v@[q1] == pre[q1] && v@[q2] == x);
            } else if q1 < i && q2 > i {
                assert(v@[q1] == pre[q1] && v@[q2] == pre[q2 - 1]);
                assert(q1 <= q2 - 1);
                if q1 < q2 - 1 {
                    assert(pre[q1] < pre[q2 - 1]);
                }
            } else if q1 == i {
                assert(v@[q1] == x && v@[q2] == pre[q2 - 1]);
                assert(i < pre.len());
                assert(pre[i as int] > x);
                if (i as int) < q2 - 1 {
                    assert(pre[i as int] < pre[q2 - 1]);
                }
            } else {
                assert(v@[q1] == pre[q1 - 1] && v@[q2] == pre[q2 - 1]);
                assert(pre[q1 - 1] < pre[q2 - 1]);
            }
        }
        assert(pre == old(v)@);
        assert forall|y: usize| #[trigger] v@.contains(y) <==> (pre.contains(y) || y == x) by {
            if v@.contains(y) {
                let q = choose|q: int| 0 <= q < v@.len() && v@[q] == y;
                if q < i {
                    assert(pre[q] == y);
                    assert(pre.contains(y));
                } else if q == i {
                } else {
                    assert(pre[q - 1] == y);
                    assert(pre.contains(y));
                }
            }
            if pre.contains(y) {
                let q = choose|q: int| 0 <= q < pre.len() && pre[q] == y;
                if q < i {
                    assert(v@[q] == y);
                } else {
                    assert(v@[q + 1] == y);
                }
                assert(v@.contains(y));
            }
            if y == x {
                assert(v@[i as int] == x);
                assert(v@.contains(y));
            }
        }
    }
}

/// Sorts an identifier list into canonical (sorted, deduplicated) form.
pub(crate) fn canonicalize(v: &Vec<usize>) -> (r: Vec<usize>)
    ensures
        sorted_unique(r@),
        forall|y: usize| r@.contains(y) <==> v@.contains(y),
{
    let n = v.len();
    let mut r: Vec<usize> = Vec::new();
    let mut i: usize = 0;
    while i < n
        invariant
            n == v@.len(),
            i <= n,
            sorted_unique(r@),
            forall|y: usize| r@.contains(y) <==> v@.subrange(0, i as int).contains(y),
        decreases n - i,
    {
        let ghost pre = r@;
        insert_sorted_unique(&mut r, v[i]);
        proof {
            assert forall|y: usize|
                r@.contains(y) <==> v@.subrange(0, i as int + 1).contains(y) by {
                let s1 = v@.subrange(0, i as int);
                let s2 = v@.subrange(0, i as int + 1);
                assert(s2 =~= s1.push(v@[i as int]));
                lemma_seq_push_contains(s1, v@[i as int], y);
            }
        }
        i += 1;
    }
    proof {
        assert(v@.subrange(0, n as int) =~= v@);
    }
    r
}

/// A duplicate-free sequence whose members all come from two other
/// sequences is no longer than the two together.
pub proof fn lemma_distinct_in_two_seqs(v: Seq<usize>, a: Seq<usize>, b: Seq<usize>)
    requires
        v.no_duplicates(),
        forall|q: int| 0 <= q < v.len() ==> a.contains(#[trigger] v[q]) || b.contains(v[q]),
    ensures
        v.len() <= a.len() + b.len(),
{
    broadcast use vstd::seq_lib::seq_to_set_is_finite;

    v.unique_seq_to_set();
    a.lemma_cardinality_of_set();
    b.lemma_cardinality_of_set();
    let u = a.to_set().union(b.to_set());
    assert(v.to_set().subset_of(u)) by {
        assert forall|y: usize| v.to_set().contains(y) implies u.contains(y) by {
            let q = choose|q: int| 0 <= q < v.len() && v[q] == y;
        }
    }
    lemma_len_union(a.to_set(), b.to_set());
    lemma_len_subset(v.to_set(), u);
}

/// Looks a row up by its state identifier.
#[verifier::loop_isolation(false)]
pub(crate) fn find_table_row(t: &TransitionTable, id: usize) -> (r: Option<usize>)
    ensures
        r is Some ==> (r->Some_0 as int) < t.rows@.len() && t.rows@[r->Some_0 as int].id == id,
        r is None ==> forall|i: int| 0 <= i < t.rows@.len() ==> (#[trigger] t.rows@[i]).id != id,
{
    let n = t.rows.len();
    let mut i: usize = 0;
    while i < n
        invariant
            n == t.rows@.len(),
            i <= n,
            forall|q: int| 0 <= q < i ==> (#[trigger] t.rows@[q]).id != id,
        decreases n - i,
    {
        if t.rows[i].id == id {
            return Some(i);
        }
        i += 1;
    }
    None
}

/// The epsilon closure of a seed list over the table, canonicalized.
/// Exactly the identifiers reachable from some seed by epsilon edges of
/// the table.
#[verifier::loop_isolation(false)]
#[verifier::rlimit(50)]
pub(crate) fn t_close(t: &TransitionTable, seeds: &Vec<usize>) -> (r: Vec<usize>)
    requires
        table_keys_unique(*t),
        table_closed(*t),
    ensures
        sorted_unique(r@),
        forall|y: usize| #[trigger] r@.contains(y) <==> t_reach_from_any(*t, seeds@, y as int),
        forall|y: usize|
            #[trigger] r@.contains(y) ==> (seeds@.contains(y) || table_has_key(*t, y as int)),
{
    let nt = t.rows.len();
    let ns = seeds.len();
    let ghost ids = t.rows@.map_values(|row: TableRow| row.id);
    let mut wl: Vec<usize> = Vec::new();
    let mut si: usize = 0;
    while si < ns
        invariant
            si <= ns,
            ns == seeds@.len(),
            wl@.no_duplicates(),
            forall|q: int| 0 <= q < si ==> wl@.contains(#[trigger] seeds@[q]),
            forall|q: int| 0 <= q < wl@.len() ==> seeds@.contains(#[trigger] wl@[q]),
        decreases ns - si,
    {
        let sv = seeds[si];
        let ghost pre = wl@;
        if !vec_contains(&wl, sv) {
            wl.push(sv);
        }
        proof {
            assert forall|x: usize| pre.contains(x) implies wl@.contains(x) by {
                if pre != wl@ {
                    lemma_seq_push_contains(pre, sv, x);
                }
            }
            assert(wl@.contains(sv)) by {
                if pre.contains(sv) {
                } else {
                    lemma_seq_push_contains(pre, sv, sv);
                }
            }
        }
        si += 1;
    }
    proof {
        lemma_distinct_in_two_seqs(wl@, seeds@, ids);
        assert forall|q: int|
            0 <= q < wl@.len() implies t_reach_from_any(*t, seeds@, (#[trigger] wl@[q]) as int)
            && (seeds@.contains(wl@[q]) || table_has_key(*t, wl@[q] as int)) by {
            lemma_t_eps_reach_refl(*t, wl@[q] as int);
            let q2 = choose|q2: int| 0 <= q2 < seeds@.len() && seeds@[q2] == wl@[q];
            assert(t_eps_reach(*t, seeds@[q2] as int, wl@[q] as int));
        }
    }
    let mut i: usize = 0;
    while i < wl.len()
        invariant
            wl@.no_duplicates(),
            wl@.len() <= ns + nt,
            i <= wl@.len(),
            ns == seeds@.len(),
            nt == t.rows@.len(),
            ids == t.rows@.map_values(|row: TableRow| row.id),
            forall|q: int| 0 <= q < seeds@.len() ==> wl@.contains(#[trigger] seeds@[q]),
            forall|q: int|
                0 <= q < wl@.len() ==> (seeds@.contains(#[trigger] wl@[q]) || table_has_key(
                    *t,
                    wl@[q] as int,
                )),
            forall|q: int|
                0 <= q < wl@.len() ==> t_reach_from_any(*t, seeds@, (#[trigger] wl@[q]) as int),
            forall|q: int, b: int|
                0 <= q < i && #[trigger] table_edge(*t, wl@[q] as int, EPSILON, b) ==> wl@.contains(
                    b as usize,
                ),
        decreases ns + nt - i,
    {
        let cur = wl[i];
        let ghost cur_i = i as int;
        let rowi = find_table_row(t, cur);
        match rowi {
            None => {
                proof {
                    assert forall|b: int|
                        #[trigger] table_edge(*t, cur as int, EPSILON, b) implies wl@.contains(
                        b as usize,
                    ) by {
                        let ri = choose|ri: int|
                            0 <= ri < t.rows@.len() && t.rows@[ri].id as int == cur as int
                                && cells_edge(t.rows@[ri].cells@, EPSILON, b);
                        assert(t.rows@[ri].id == cur);
                        assert(false);
                    }
                }
            },
            Some(ri) => {
                let dests = get_row_dests(t, ri, EPSILON);
                let nd = dests.len();
                let mut k: usize = 0;
                while k < nd
                    invariant
                        cur == wl@[cur_i],
                        0 <= cur_i < wl@.len(),
                        (ri as int) < t.rows@.len(),
                        t.rows@[ri as int].id == cur,
                        nd == dests@.len(),
                        dests@ == dests_for(t.rows@[ri as int].cells@, EPSILON),
                        k <= nd,
                        wl@.no_duplicates(),
                        wl@.len() <= ns + nt,
                        ns == seeds@.len(),
                        nt == t.rows@.len(),
                        ids == t.rows@.map_values(|row: TableRow| row.id),
                        forall|q: int| 0 <= q < seeds@.len() ==> wl@.contains(#[trigger] seeds@[q]),
                        forall|q: int|
                            0 <= q < wl@.len() ==> (seeds@.contains(#[trigger] wl@[q])
                                || table_has_key(*t, wl@[q] as int)),
                        forall|q: int|
                            0 <= q < wl@.len() ==> t_reach_from_any(
                                *t,
                                seeds@,
                                (#[trigger] wl@[q]) as int,
                            ),
                        forall|q: int, b: int|
                            0 <= q < cur_i && #[trigger] table_edge(*t, wl@[q] as int, EPSILON, b)
                                ==> wl@.contains(b as usize),
                        forall|k2: int| 0 <= k2 < k ==> wl@.contains(#[trigger] dests@[k2]),
                    decreases nd - k,
                {
                    let d = dests[k];
                    proof {
                        assert(dests@[k as int] == d);
                        lemma_dests_for_edge(t.rows@[ri as int].cells@, EPSILON, d as int);
                        assert(cells_edge(t.rows@[ri as int].cells@, EPSILON, d as int));
                        assert(table_edge(*t, cur as int, EPSILON, d as int));
                        assert(table_has_key(*t, d as int));
                    }
                    let ghost pre = wl@;
                    if !vec_contains(&wl, d) {
                        wl.push(d);
                        proof {
                            assert(t_reach_from_any(*t, seeds@, cur as int));
                            let q2 = choose|q2: int|
                                0 <= q2 < seeds@.len() && t_eps_reach(
                                    *t,
                                    (#[trigger] seeds@[q2]) as int,
                                    cur as int,
                                );
                            lemma_t_eps_reach_edge(*t, cur as int, d as int);
                            lemma_t_eps_reach_trans(*t, seeds@[q2] as int, cur as int, d as int);
                            assert(t_reach_from_any(*t, seeds@, d as int));
                            assert(table_has_key(*t, d as int));
                            let rk = choose|rk: int|
                                0 <= rk < t.rows@.len() && t.rows@[rk].id as int == d as int;
                            assert(ids[rk] == t.rows@[rk].id);
                            assert(ids.contains(d));
                            assert forall|q: int|
                                0 <= q < wl@.len() implies (seeds@.contains(#[trigger] wl@[q])
                                || ids.contains(wl@[q])) by {
                                if q < pre.len() {
                                    assert(wl@[q] == pre[q]);
                                    if !seeds@.contains(pre[q]) {
                                        assert(table_has_key(*t, pre[q] as int));
                                        let rk2 = choose|rk2: int|
                                            0 <= rk2 < t.rows@.len() && t.rows@[rk2].id as int
                                                == pre[q] as int;
                                        assert(ids[rk2] == t.rows@[rk2].id);
                                        assert(ids.contains(pre[q]));
                                    }
                                } else {
                                    assert(wl@[q] == d);
                                }
                            }
                            lemma_distinct_in_two_seqs(wl@, seeds@, ids);
                        }
                    }
                    proof {
                        assert forall|x: usize| pre.contains(x) implies wl@.contains(x) by {
                            if pre != wl@ {
                                lemma_seq_push_contains(pre, d, x);
                            }
                        }
                        assert(wl@.contains(d)) by {
                            if pre.contains(d) {
                            } else {
                                lemma_seq_push_contains(pre, d, d);
                            }
                        }
                    }
                    k += 1;
                }
                proof {
                    assert forall|b: int|
                        #[trigger] table_edge(*t, wl@[cur_i] as int, EPSILON, b) implies wl@.contains(
                        b as usize,
                    ) by {
                        let ri2 = choose|ri2: int|
                            0 <= ri2 < t.rows@.len() && t.rows@[ri2].id as int == cur as int
                                && cells_edge(t.rows@[ri2].cells@, EPSILON, b);
                        assert(ri2 == ri as int) by {
                            if ri2 != ri as int {
                                assert(t.rows@[ri2].id == t.rows@[ri as int].id);
                            }
                        }
                        lemma_dests_for_edge(t.rows@[ri as int].cells@, EPSILON, b);
                        let kk = choose|kk: int|
                            0 <= kk < dests@.len() && dests@[kk] as int == b;
                        assert(wl@.contains(dests@[kk]));
                    }
                }
            },
        }
        i += 1;
    }
    proof {
        assert forall|y: usize| t_reach_from_any(*t, seeds@, y as int) implies wl@.contains(
            y,
        ) by {
            let q0 = choose|q0: int|
                0 <= q0 < seeds@.len() && t_eps_reach(*t, (#[trigger] seeds@[q0]) as int, y as int);
            let sset = Set::new(|x: int| 0 <= x && wl@.contains(x as usize));
            let p = choose|p: Seq<int>|
                is_t_eps_path(*t, p) && p.first() == seeds@[q0] as int && p.last() == y as int;
            assert(sset.contains(p.first())) by {
                assert(wl@.contains(seeds@[q0]));
            }
            assert forall|x: int, yy: int|
                sset.contains(x) && #[trigger] table_edge(*t, x, EPSILON, yy) implies sset.contains(
                yy,
            ) by {
                let qx = choose|qx: int| 0 <= qx < wl@.len() && wl@[qx] == x as usize;
                assert(table_edge(*t, wl@[qx] as int, EPSILON, yy));
                assert(wl@.contains(yy as usize));
                let ri = choose|ri: int|
                    0 <= ri < t.rows@.len() && t.rows@[ri].id as int == x && cells_edge(
                        t.rows@[ri].cells@,
                        EPSILON,
                        yy,
                    );
                assert(0 <= yy);
            }
            lemma_t_eps_path_closed(*t, sset, p);
            assert(sset.contains(y as int));
        }
    }
    let r = canonicalize(&wl);
    r
}

/// The destination list the row records for `sym`.
pub(crate) fn get_row_dests(t: &TransitionTable, ri: usize, sym: char) -> (r: Vec<usize>)
    requires
        (ri as int) < t.rows@.len(),
    ensures
        r@ == dests_for(t.rows@[ri as int].cells@, sym),
{
    let row_cells = &t.rows[ri].cells;
    let n = row_cells.len();
    let mut r: Vec<usize> = Vec::new();
    let mut j: usize = 0;
    while j < n
        invariant
            (ri as int) < t.rows@.len(),
            n == t.rows@[ri as int].cells@.len(),
            j <= n,
            r@ == dests_for(t.rows@[ri as int].cells@.subrange(0, j as int), sym),
        decreases n - j,
    {
        let ghost prefix = t.rows@[ri as int].cells@.subrange(0, j as int);
        if t.rows[ri].cells[j].symbol == sym {
            let cell_len = t.rows[ri].cells[j].transition.len();
            let mut k: usize = 0;
            while k < cell_len
                invariant
                    (ri as int) < t.rows@.len(),
                    j < n,
                    n == t.rows@[ri as int].cells@.len(),
                    cell_len == t.rows@[ri as int].cells@[j as int].transition@.len(),
                    k <= cell_len,
                    r@ == dests_for(prefix, sym) + t.rows@[ri as int].cells@[
                        j as int
                    ].transition@.subrange(0, k as int),
                decreases cell_len - k,
            {
                r.push(t.rows[ri].cells[j].transition[k]);
                proof {
                    assert(t.rows@[ri as int].cells@[j as int].transition@.subrange(
                        0,
                        k as int + 1,
                    ) =~= t.rows@[ri as int].cells@[j as int].transition@.subrange(0, k as int).push(
                        t.rows@[ri as int].cells@[j as int].transition@[k as int],
                    ));
                    assert(r@ =~= dests_for(prefix, sym) + t.rows@[ri as int].cells@[
                        j as int
                    ].transition@.subrange(0, k as int + 1));
                }
                k += 1;
            }
            proof {
                let next = t.rows@[ri as int].cells@.subrange(0, j as int + 1);
                assert(next.drop_last() =~= prefix);
                assert(t.rows@[ri as int].cells@[j as int].transition@.subrange(
                    0,
                    cell_len as int,
                ) =~= t.rows@[ri as int].cells@[j as int].transition@);
                assert(r@ == dests_for(next, sym));
            }
        } else {
            proof {
                let next = t.rows@[ri as int].cells@.subrange(0, j as int + 1);
                assert(next.drop_last() =~= prefix);
                assert(r@ =~= dests_for(next, sym));
            }
        }
        j += 1;
    }
    proof {
        assert(t.rows@[ri as int].cells@.subrange(0, n as int) =~= t.rows@[ri as int].cells@);
    }
    r
}

/// A table edge always lands on an identifier in machine range.
pub proof fn lemma_table_edge_nonneg(t: TransitionTable, a: int, sym: char, b: int)
    requires
        table_edge(t, a, sym, b),
    ensures
        0 <= b <= usize::MAX,
{
    let i = choose|i: int|
        0 <= i < t.rows@.len() && t.rows@[i].id as int == a && cells_edge(t.rows@[i].cells@, sym, b);
    let (j, k) = choose|j: int, k: int|
        #![auto]
        0 <= j < t.rows@[i].cells@.len() && t.rows@[i].cells@[j].symbol == sym && 0 <= k
            < t.rows@[i].cells@[j].transition@.len() && t.rows@[i].cells@[j].transition@[k] as int
            == b;
}

/// Epsilon reachability over the table stays in machine range.
pub proof fn lemma_t_eps_reach_nonneg(t: TransitionTable, a: int, b: int)
    requires
        t_eps_reach(t, a, b),
        0 <= a <= usize::MAX,
    ensures
        0 <= b <= usize::MAX,
{
    let p = choose|p: Seq<int>| is_t_eps_path(t, p) && p.first() == a && p.last() == b;
    if p.len() == 1 {
    } else {
        assert(table_edge(t, p[p.len() - 2], EPSILON, p[p.len() - 1]));
        lemma_table_edge_nonneg(t, p[p.len() - 2], EPSILON, p[p.len() - 1]);
    }
}

/// One of the listed keys is exactly `k`.
pub open spec fn keys_has(keys: Seq<Vec<usize>>, k: Seq<usize>) -> bool {
    exists|q: int| 0 <= q < keys.len() && (#[trigger] keys[q])@ == k
}

/// Every member of the key lies in the identifier universe of the table
/// extended by the entry.
pub open spec fn key_in_universe(t: TransitionTable, entry: usize, k: Seq<usize>) -> bool {
    forall|y: usize|
        #[trigger] k.contains(y) ==> key_set(t.rows@.map_values(|row: TableRow| row.id)).insert(
            entry as int,
        ).contains(y as int)
}

/// A table key belongs to the identifier universe.
pub proof fn lemma_key_id_in_universe(t: TransitionTable, entry: usize, y: usize)
    requires
        table_has_key(t, y as int),
    ensures
        key_set(t.rows@.map_values(|row: TableRow| row.id)).insert(entry as int).contains(
            y as int,
        ),
{
    let idseq = t.rows@.map_values(|row: TableRow| row.id);
    let ri = choose|ri: int| 0 <= ri < t.rows@.len() && (#[trigger] t.rows@[ri]).id as int == y as int;
    assert(idseq[ri] == t.rows@[ri].id);
    assert(idseq.contains(y));
    assert(key_set(idseq).contains(y as int));
}

/// A key whose members lie in a finite universe stands for a finite subset
/// of it.
pub proof fn lemma_key_set_finite(k: Seq<usize>, u: Set<int>)
    requires
        forall|y: usize| #[trigger] k.contains(y) ==> u.contains(y as int),
    ensures
        key_set(k).finite(),
        key_set(k).subset_of(u),
{
    broadcast use vstd::seq_lib::seq_to_set_is_finite;

    let ki = k.map_values(|x: usize| x as int);
    assert(key_set(k).subset_of(ki.to_set())) by {
        assert forall|b: int| key_set(k).contains(b) implies ki.to_set().contains(b) by {
            let q = choose|q: int| 0 <= q < k.len() && k[q] == b as usize;
            assert(ki[q] == b);
        }
    }
    lemma_len_subset(key_set(k), ki.to_set());
    assert forall|b: int| key_set(k).contains(b) implies u.contains(b) by {
        assert(k.contains(b as usize));
    }
}

/// The number of distinct canonical keys over the table's identifiers and
/// one extra entry identifier is bounded by a power of two.
pub proof fn lemma_key_universe_bound(t: TransitionTable, entry: usize)
    ensures
        key_set(t.rows@.map_values(|row: TableRow| row.id)).insert(entry as int).finite(),
        key_set(t.rows@.map_values(|row: TableRow| row.id)).insert(entry as int).len() <= t.rows@.len()
            + 1,
        subsets_of(
            key_set(t.rows@.map_values(|row: TableRow| row.id)).insert(entry as int),
        ).len() <= pow2((t.rows@.len() + 1) as nat),
{
    broadcast use vstd::seq_lib::seq_to_set_is_finite;

    let idseq = t.rows@.map_values(|row: TableRow| row.id);
    let ids_int = idseq.map_values(|x: usize| x as int);
    assert(key_set(idseq).subset_of(ids_int.to_set())) by {
        assert forall|b: int| key_set(idseq).contains(b) implies ids_int.to_set().contains(b) by {
            let q = choose|q: int| 0 <= q < idseq.len() && idseq[q] == b as usize;
            assert(ids_int[q] == b);
        }
    }
    lemma_len_subset(key_set(idseq), ids_int.to_set());
    ids_int.lemma_cardinality_of_set();
    let u = key_set(idseq).insert(entry as int);
    assert(u.finite());
    assert(u.len() <= t.rows@.len() + 1);
    lemma_subsets_card(u);
    if u.len() < t.rows@.len() + 1 {
        lemma_pow2_strictly_increases(u.len(), (t.rows@.len() + 1) as nat);
    }
}

/// All destinations the table records for the members of `key` on symbol
/// `c`, in scan order (duplicates possible).
#[verifier::loop_isolation(false)]
pub(crate) fn collect_moves(t: &TransitionTable, key: &Vec<usize>, c: char) -> (r: Vec<usize>)
    requires
        table_keys_unique(*t),
    ensures
        forall|y: usize|
            #[trigger] r@.contains(y) <==> move_set(*t, key_set(key@), c).contains(y as int),
{
    let nk = key.len();
    let mut r: Vec<usize> = Vec::new();
    let mut qi: usize = 0;
    while qi < nk
        invariant
            nk == key@.len(),
            qi <= nk,
            forall|y: usize|
                #[trigger] r@.contains(y) <==> exists|q: int|
                    0 <= q < qi && table_edge(*t, (#[trigger] key@[q]) as int, c, y as int),
        decreases nk - qi,
    {
        let cur = key[qi];
        match find_table_row(t, cur) {
            None => {
                proof {
                    assert forall|y: usize|
                        #[trigger] r@.contains(y) <==> exists|q: int|
                            0 <= q < qi + 1 && table_edge(
                                *t,
                                (#[trigger] key@[q]) as int,
                                c,
                                y as int,
                            ) by {
                        if exists|q: int|
                            0 <= q < qi + 1 && table_edge(
                                *t,
                                (#[trigger] key@[q]) as int,
                                c,
                                y as int,
                            ) {
                            let q = choose|q: int|
                                0 <= q < qi + 1 && table_edge(
                                    *t,
                                    (#[trigger] key@[q]) as int,
                                    c,
                                    y as int,
                                );
                            if q == qi {
                                let ri = choose|ri: int|
                                    0 <= ri < t.rows@.len() && t.rows@[ri].id as int == cur as int
                                        && cells_edge(t.rows@[ri].cells@, c, y as int);
                                assert(t.rows@[ri].id == cur);
                                assert(false);
                            }
                        }
                    }
                }
            },
            Some(ri) => {
                let ds = get_row_dests(t, ri, c);
                let nd = ds.len();
                let ghost pre_r = r@;
                let mut k: usize = 0;
                while k < nd
                    invariant
                        nd == ds@.len(),
                        k <= nd,
                        forall|y: usize|
                            #[trigger] r@.contains(y) <==> (pre_r.contains(y) || exists|k2: int|
                                0 <= k2 < k && ds@[k2] == y),
                    decreases nd - k,
                {
                    let ghost pre2 = r@;
                    let dv = ds[k];
                    r.push(dv);
                    proof {
                        assert forall|y: usize|
                            #[trigger] r@.contains(y) <==> (pre2.contains(y) || y == dv) by {
                            lemma_seq_push_contains(pre2, dv, y);
                        }
                        assert(exists|k2: int| 0 <= k2 < k + 1 && ds@[k2] == dv) by {
                            assert(ds@[k as int] == dv);
                        }
                    }
                    k += 1;
                }
                proof {
                    assert forall|y: usize|
                        #[trigger] r@.contains(y) <==> exists|q: int|
                            0 <= q < qi + 1 && table_edge(
                                *t,
                                (#[trigger] key@[q]) as int,
                                c,
                                y as int,
                            ) by {
                        lemma_dests_for_edge(t.rows@[ri as int].cells@, c, y as int);
                        if r@.contains(y) {
                            if pre_r.contains(y) {
                                let q = choose|q: int|
                                    0 <= q < qi && table_edge(
                                        *t,
                                        (#[trigger] key@[q]) as int,
                                        c,
                                        y as int,
                                    );
                            } else {
                                let k2 = choose|k2: int| 0 <= k2 < nd && ds@[k2] == y;
                                assert(ds@[k2] as int == y as int);
                                assert(cells_edge(t.rows@[ri as int].cells@, c, y as int));
                                assert(table_edge(*t, cur as int, c, y as int));
                                assert(key@[qi as int] == cur);
                            }
                        } else {
                            if exists|q: int|
                                0 <= q < qi + 1 && table_edge(
                                    *t,
                                    (#[trigger] key@[q]) as int,
                                    c,
                                    y as int,
                                ) {
                                let q = choose|q: int|
                                    0 <= q < qi + 1 && table_edge(
                                        *t,
                                        (#[trigger] key@[q]) as int,
                                        c,
                                        y as int,
                                    );
                                if q == qi {
                                    let ri2 = choose|ri2: int|
                                        0 <= ri2 < t.rows@.len() && t.rows@[ri2].id as int
                                            == cur as int && cells_edge(
                                            t.rows@[ri2].cells@,
                                            c,
                                            y as int,
                                        );
                                    assert(ri2 == ri as int) by {
                                        if ri2 != ri as int {
                                            assert(t.rows@[ri2].id == t.rows@[ri as int].id);
                                        }
                                    }
                                    let kk = choose|kk: int|
                                        0 <= kk < dests_for(t.rows@[ri as int].cells@, c).len()
                                            && dests_for(t.rows@[ri as int].cells@, c)[kk] as int
                                            == y as int;
                                    assert(ds@[kk] == y);
                                    assert(false);
                                }
                                assert(false);
                            }
                        }
                    }
                }
            },
        }
        qi += 1;
    }
    proof {
        reveal(move_set);
        assert forall|y: usize|
            #[trigger] r@.contains(y) <==> move_set(*t, key_set(key@), c).contains(y as int) by {
            if r@.contains(y) {
                let q = choose|q: int|
                    0 <= q < nk && table_edge(*t, (#[trigger] key@[q]) as int, c, y as int);
                assert(key@.contains(key@[q]));
                assert(key_set(key@).contains(key@[q] as int));
            }
            if move_set(*t, key_set(key@), c).contains(y as int) {
                let a = choose|a: int| key_set(key@).contains(a) && table_edge(*t, a, c, y as int);
                assert(key@.contains(a as usize));
                let q = choose|q: int| 0 <= q < key@.len() && key@[q] == a as usize;
                assert(table_edge(*t, (key@[q]) as int, c, y as int));
            }
        }
    }
    r
}

/// A canonicalized closure result stands for the epsilon closure of the
/// seed set.
#[verifier::rlimit(100)]
#[verifier::spinoff_prover]
pub proof fn lemma_tclose_closure(
    t: TransitionTable,
    seeds: Seq<usize>,
    outp: Seq<usize>,
    s: Set<int>,
)
    requires
        forall|y: usize| #[trigger] outp.contains(y) <==> t_reach_from_any(t, seeds, y as int),
        forall|a: int|
            #[trigger] s.contains(a) <==> (0 <= a <= usize::MAX && seeds.contains(a as usize)),
    ensures
        key_set(outp) == closure_set(t, s),
{
    reveal(closure_set);
    assert(key_set(outp) =~= closure_set(t, s)) by {
        assert forall|b: int| key_set(outp).contains(b) implies closure_set(t, s).contains(b) by {
            assert(outp.contains(b as usize));
            assert(t_reach_from_any(t, seeds, b));
            let q = choose|q: int|
                0 <= q < seeds.len() && t_eps_reach(t, (#[trigger] seeds[q]) as int, b);
            assert(seeds.contains(seeds[q]));
            assert(s.contains(seeds[q] as int));
        }
        assert forall|b: int| closure_set(t, s).contains(b) implies key_set(outp).contains(b) by {
            let a = choose|a: int| s.contains(a) && t_eps_reach(t, a, b);
            assert(0 <= a <= usize::MAX);
            lemma_t_eps_reach_nonneg(t, a, b);
            assert(seeds.contains(a as usize));
            let q = choose|q: int| 0 <= q < seeds.len() && seeds[q] == a as usize;
            assert(t_eps_reach(t, ((#[trigger] seeds[q])) as int, b));
            assert(t_reach_from_any(t, seeds, b));
            assert(outp.contains(b as usize));
        }
    }
}

/// A key whose members are all table keys lies in any extended universe.
pub proof fn lemma_key_in_universe_from_keys(t: TransitionTable, entry: usize, outp: Seq<usize>)
    requires
        forall|y: usize| #[trigger] outp.contains(y) ==> table_has_key(t, y as int),
    ensures
        key_in_universe(t, entry, outp),
{
    assert forall|y: usize|
        #[trigger] outp.contains(y) implies key_set(
        t.rows@.map_values(|row: TableRow| row.id),
    ).insert(entry as int).contains(y as int) by {
        lemma_key_id_in_universe(t, entry, y);
    }
}

/// A canonical key whose list differs from every listed canonical key has
/// a set seen nowhere in the list.
pub proof fn lemma_new_key_unseen(
    prekeys: Seq<Vec<usize>>,
    nextv: Seq<usize>,
    seen: Set<Set<int>>,
)
    requires
        forall|q: int| 0 <= q < prekeys.len() ==> sorted_unique((#[trigger] prekeys[q])@),
        sorted_unique(nextv),
        forall|q: int| 0 <= q < prekeys.len() ==> (#[trigger] prekeys[q])@ != nextv,
        forall|s: Set<int>|
            #[trigger] seen.contains(s) ==> exists|q: int|
                0 <= q < prekeys.len() && s == key_set((#[trigger] prekeys[q])@),
    ensures
        !seen.contains(key_set(nextv)),
{
    if seen.contains(key_set(nextv)) {
        let q = choose|q: int|
            0 <= q < prekeys.len() && key_set(nextv) == key_set((#[trigger] prekeys[q])@);
        assert forall|y: usize| prekeys[q]@.contains(y) <==> nextv.contains(y) by {
            assert(key_set(prekeys[q]@).contains(y as int) == key_set(nextv).contains(y as int));
        }
        lemma_sorted_unique_same_set(prekeys[q]@, nextv);
        assert(false);
    }
}

/// The canonical destination of one DFA cell: the epsilon closure of the
/// moves of `key`'s members on `c`.
#[verifier::loop_isolation(false)]
pub(crate) fn dfa_cell_target(
    t: &TransitionTable,
    key: &Vec<usize>,
    c: char,
    Ghost(entry): Ghost<usize>,
) -> (next: Vec<usize>)
    requires
        table_keys_unique(*t),
        table_closed(*t),
    ensures
        sorted_unique(next@),
        key_set(next@) == closure_set(*t, move_set(*t, key_set(key@), c)),
        key_in_universe(*t, entry, next@),
{
    let mv = collect_moves(t, key, c);
    let next = t_close(t, &mv);
    proof {
        reveal(move_set);
        assert forall|a: int|
            #[trigger] move_set(*t, key_set(key@), c).contains(a) <==> (0 <= a <= usize::MAX
                && mv@.contains(a as usize)) by {
            if move_set(*t, key_set(key@), c).contains(a) {
                let a0 = choose|a0: int| key_set(key@).contains(a0) && table_edge(*t, a0, c, a);
                lemma_table_edge_nonneg(*t, a0, c, a);
                assert(mv@.contains(a as usize));
            }
        }
        lemma_tclose_closure(*t, mv@, next@, move_set(*t, key_set(key@), c));
        assert forall|y: usize| #[trigger] next@.contains(y) implies table_has_key(
            *t,
            y as int,
        ) by {
            if mv@.contains(y) {
                assert(move_set(*t, key_set(key@), c).contains(y as int));
                let a0 = choose|a0: int|
                    key_set(key@).contains(a0) && table_edge(*t, a0, c, y as int);
            }
        }
        lemma_key_in_universe_from_keys(*t, entry, next@);
    }
    next
}

/// The running invariant of the discovered DFA states: every key is
/// canonical, drawn from the table's identifier universe, listed once, and
/// mirrored exactly by the ghost set of identifier sets seen so far.
#[verifier::opaque]
pub open spec fn keyset_inv(
    t: TransitionTable,
    entry: usize,
    keys: Seq<Vec<usize>>,
    seen: Set<Set<int>>,
) -> bool {
    &&& forall|q: int| 0 <= q < keys.len() ==> sorted_unique((#[trigger] keys[q])@)
    &&& forall|q: int| 0 <= q < keys.len() ==> key_in_universe(t, entry, (#[trigger] keys[q])@)
    &&& forall|q1: int, q2: int| #![auto] 0 <= q1 < q2 < keys.len() ==> keys[q1]@ != keys[q2]@
    &&& seen.finite()
    &&& seen.len() == keys.len()
    &&& forall|q: int| 0 <= q < keys.len() ==> seen.contains(key_set((#[trigger] keys[q])@))
    &&& forall|s: Set<int>|
        #[trigger] seen.contains(s) ==> exists|q: int|
            0 <= q < keys.len() && s == key_set((#[trigger] keys[q])@)
    &&& seen.subset_of(
        subsets_of(key_set(t.rows@.map_values(|row: TableRow| row.id)).insert(entry as int)),
    )
}

/// The invariant holds of a single canonical key drawn from the universe.
pub proof fn lemma_keyset_inv_init(
    t: TransitionTable,
    entry: usize,
    keys: Seq<Vec<usize>>,
    seen: Set<Set<int>>,
)
    requires
        keys.len() == 1,
        sorted_unique(keys[0]@),
        key_in_universe(t, entry, keys[0]@),
        seen == Set::<Set<int>>::empty().insert(key_set(keys[0]@)),
    ensures
        keyset_inv(t, entry, keys, seen),
{
    reveal(keyset_inv);
    let u_set = key_set(t.rows@.map_values(|row: TableRow| row.id)).insert(entry as int);
    assert(seen.len() == 1);
    assert forall|s: Set<int>| #[trigger] seen.contains(s) implies exists|q: int|
        0 <= q < keys.len() && s == key_set((#[trigger] keys[q])@) by {
        assert(s == key_set(keys[0]@));
    }
    assert(seen.subset_of(subsets_of(u_set))) by {
        reveal(subsets_of);
        lemma_key_set_finite(keys[0]@, u_set);
    }
}

/// The invariant bounds the number of discovered DFA states by the number
/// of distinct subsets of the identifier universe.
pub proof fn lemma_keyset_inv_bound(
    t: TransitionTable,
    entry: usize,
    keys: Seq<Vec<usize>>,
    seen: Set<Set<int>>,
)
    requires
        keyset_inv(t, entry, keys, seen),
    ensures
        keys.len() <= pow2((t.rows@.len() + 1) as nat),
{
    reveal(keyset_inv);
    lemma_key_universe_bound(t, entry);
    let u_set = key_set(t.rows@.map_values(|row: TableRow| row.id)).insert(entry as int);
    lemma_subsets_card(u_set);
    lemma_len_subset(seen, subsets_of(u_set));
    if u_set.len() < t.rows@.len() + 1 {
        lemma_pow2_strictly_increases(u_set.len(), (t.rows@.len() + 1) as nat);
    }
}

/// One row of a DFA transition table: a canonical set of NFA identifiers
/// as the state's identity, and one cell per alphabet symbol.
pub struct DfaRow {
    pub key: Vec<usize>,
    pub cells: Vec<CELL>,
}

/// A DFA transition table keyed by canonical NFA identifier sets.
pub struct DfaTable {
    pub rows: Vec<DfaRow>,
}

/// The row carries one cell for `c`.
pub open spec fn row_has_symbol(row: DfaRow, c: char) -> bool {
    exists|j: int| 0 <= j < row.cells@.len() && (#[trigger] row.cells@[j]).symbol == c
}

/// One well-formed, exact row of the subset construction: canonical key,
/// one canonical cell per alphabet symbol, and each cell's destination the
/// epsilon closure of the moves of the key's members on that symbol.
pub open spec fn dfa_row_ok(t: TransitionTable, row: DfaRow) -> bool {
    &&& sorted_unique(row.key@)
    &&& forall|j: int|
        0 <= j < row.cells@.len() ==> sorted_unique((#[trigger] row.cells@[j]).transition@)
    &&& forall|j: int| 0 <= j < row.cells@.len() ==> (#[trigger] row.cells@[j]).symbol != EPSILON
    &&& forall|j1: int, j2: int|
        #![auto]
        0 <= j1 < j2 < row.cells@.len() ==> row.cells@[j1].symbol != row.cells@[j2].symbol
    &&& forall|c: char| row_has_symbol(row, c) <==> #[trigger] table_has_symbol(t, c)
    &&& forall|j: int|
        0 <= j < row.cells@.len() ==> key_set((#[trigger] row.cells@[j]).transition@)
            == closure_set(t, move_set(t, key_set(row.key@), row.cells@[j].symbol))
}

/// What the subset construction returns: the start state (the epsilon
/// closure of the entry) first, every row well formed and exact, no key
/// twice, and every destination itself a key.
pub open spec fn dfa_post(t: TransitionTable, entry: int, d: DfaTable) -> bool {
    &&& d.rows@.len() >= 1
    &&& key_set(d.rows@[0].key@) == closure_set(t, Set::<int>::empty().insert(entry))
    &&& forall|i: int| 0 <= i < d.rows@.len() ==> dfa_row_ok(t, #[trigger] d.rows@[i])
    &&& forall|i1: int, i2: int|
        #![auto]
        0 <= i1 < i2 < d.rows@.len() ==> d.rows@[i1].key@ != d.rows@[i2].key@
    &&& forall|i: int, j: int|
        0 <= i < d.rows@.len() && 0 <= j < d.rows@[i].cells@.len() ==> dfa_has_key(
            d,
            (#[trigger] d.rows@[i].cells@[j]).transition@,
        )
    &&& forall|i: int| 0 < i < d.rows@.len() ==> key_is_cell_dest(d, (#[trigger] d.rows@[i]).key@)
}

/// The key is the destination of one of these cells.
pub open spec fn cells_have_dest(cells: Seq<CELL>, k: Seq<usize>) -> bool {
    exists|j: int| 0 <= j < cells.len() && (#[trigger] cells[j]).transition@ == k
}

/// The key is the destination of some cell of these rows.
pub open spec fn rows_have_dest(rows: Seq<DfaRow>, k: Seq<usize>) -> bool {
    exists|i2: int, j: int|
        #![auto]
        0 <= i2 < rows.len() && 0 <= j < rows[i2].cells@.len() && rows[i2].cells@[j].transition@
            == k
}

/// The key is the destination of some cell of the DFA table: it was
/// discovered as the target of a recorded transition.
pub open spec fn key_is_cell_dest(d: DfaTable, k: Seq<usize>) -> bool {
    rows_have_dest(d.rows@, k)
}

/// Some row of the DFA table carries exactly this key.
pub open spec fn dfa_has_key(d: DfaTable, k: Seq<usize>) -> bool {
    exists|i: int| 0 <= i < d.rows@.len() && (#[trigger] d.rows@[i]).key@ == k
}

/// One of the first `upto` rows of the DFA table carries exactly this key.
pub open spec fn key_among_first(d: DfaTable, k: Seq<usize>, upto: int) -> bool {
    exists|i2: int| 0 <= i2 < upto && (#[trigger] d.rows@[i2]).key@ == k
}

/// `accs` lists exactly the accepting DFA states: the table keys that
/// contain the accept identifier, each at most once when the table keys
/// themselves are listed once.
pub open spec fn accepting_keys_ok(d: DfaTable, accept: usize, accs: Seq<Vec<usize>>) -> bool {
    &&& forall|q: int|
        0 <= q < accs.len() ==> (#[trigger] accs[q])@.contains(accept) && dfa_has_key(d, accs[q]@)
    &&& forall|i: int|
        0 <= i < d.rows@.len() && (#[trigger] d.rows@[i]).key@.contains(accept) ==> exists|q: int|
            0 <= q < accs.len() && (#[trigger] accs[q])@ == d.rows@[i].key@
    &&& (forall|i1: int, i2: int|
        #![auto]
        0 <= i1 < i2 < d.rows@.len() ==> d.rows@[i1].key@ != d.rows@[i2].key@) ==> (forall|
        q1: int,
        q2: int,
    |
        #![auto]
        0 <= q1 < q2 < accs.len() ==> accs[q1]@ != accs[q2]@)
}

/// Collects the table's alphabet: every distinct non-epsilon symbol that
/// occurs in some cell.
#[verifier::loop_isolation(false)]
pub(crate) fn table_alphabet(t: &TransitionTable) -> (r: Vec<char>)
    ensures
        r@.no_duplicates(),
        forall|c: char| #[trigger] r@.contains(c) <==> table_has_symbol(*t, c),
{
    let n = t.rows.len();
    let mut r: Vec<char> = Vec::new();
    let mut i: usize = 0;
    while i < n
        invariant
            n == t.rows@.len(),
            i <= n,
            r@.no_duplicates(),
            forall|c: char|
                #[trigger] r@.contains(c) <==> (c != EPSILON && exists|q: int, j: int|
                    #![auto]
                    0 <= q < i && 0 <= j < t.rows@[q].cells@.len() && t.rows@[q].cells@[j].symbol
                        == c),
        decreases n - i,
    {
        let m = t.rows[i].cells.len();
        let mut j: usize = 0;
        while j < m
            invariant
                i < n,
                n == t.rows@.len(),
                m == t.rows@[i as int].cells@.len(),
                j <= m,
                r@.no_duplicates(),
                forall|c: char|
                    #[trigger] r@.contains(c) <==> (c != EPSILON && ((exists|q: int, j2: int|
                        #![auto]
                        0 <= q < i && 0 <= j2 < t.rows@[q].cells@.len()
                            && t.rows@[q].cells@[j2].symbol == c) || (exists|j2: int|
                        0 <= j2 < j && t.rows@[i as int].cells@[j2].symbol == c))),
            decreases m - j,
        {
            let c = t.rows[i].cells[j].symbol;
            let ghost pre = r@;
            if c != EPSILON && !char_contains(&r, c) {
                r.push(c);
            }
            proof {
                assert forall|c2: char| #[trigger] r@.contains(c2) <==> (pre.contains(c2) || (
                r@ != pre && c2 == c)) by {
                    if r@ != pre {
                        lemma_seq_push_contains(pre, c, c2);
                    }
                }
                if c != EPSILON {
                    assert(r@.contains(c)) by {
                        if pre.contains(c) {
                        } else {
                            lemma_seq_push_contains(pre, c, c);
                        }
                    }
                }
                assert(exists|j2: int| 0 <= j2 < j + 1 && t.rows@[i as int].cells@[j2].symbol == c)
                    by {
                    assert(t.rows@[i as int].cells@[j as int].symbol == c);
                }
            }
            j += 1;
        }
        i += 1;
    }
    proof {
        assert forall|c: char| #[trigger] r@.contains(c) <==> table_has_symbol(*t, c) by {}
    }
    r
}

/// Looks a canonical key up in a list of keys.
#[verifier::loop_isolation(false)]
pub(crate) fn find_key(keys: &Vec<Vec<usize>>, k: &Vec<usize>) -> (r: Option<usize>)
    ensures
        r is Some ==> (r->Some_0 as int) < keys@.len() && keys@[r->Some_0 as int]@ == k@,
        r is None ==> forall|q: int| 0 <= q < keys@.len() ==> (#[trigger] keys@[q])@ != k@,
{
    let n = keys.len();
    let mut i: usize = 0;
    while i < n
        invariant
            n == keys@.len(),
            i <= n,
            forall|q: int| 0 <= q < i ==> (#[trigger] keys@[q])@ != k@,
        decreases n - i,
    {
        if key_eq(&keys[i], k) {
            return Some(i);
        }
        i += 1;
    }
    None
}

/// The Determinizer and the synthetic-state model around it.
pub struct DFA {
    pub states: Vec<State>,
    pub in_state: usize,
    pub out_state: usize,
}

impl DFA {
    /// A fresh pair of synthetic states: a non-accepting entry and an
    /// accepting exit, with no edges.
    pub fn new() -> (r: DFA)
        ensures
            r.states@.len() == 2,
            r.in_state == 0usize,
            r.out_state == 1usize,
            !r.states@[0].accepting,
            r.states@[1].accepting,
            r.states@[0].transitions@.len() == 0,
            r.states@[1].transitions@.len() == 0,
    {
        let mut states: Vec<State> = Vec::new();
        states.push(State::new(false));
        states.push(State::new(true));
        DFA { states, in_state: 0, out_state: 1 }
    }

    /// Subset construction: converts a flattened NFA transition table into
    /// a DFA transition table.  The start state is the epsilon closure of
    /// `entry_state` and stands first; every DFA state is a canonical set
    /// of NFA identifiers; for every alphabet symbol each state moves to
    /// the epsilon closure of its members' moves; each such subset is
    /// enqueued at most once, so the construction terminates.  Also
    /// returns the accepting DFA states: those whose set contains
    /// `accepting_state`.
    #[verifier::loop_isolation(false)]
    #[verifier::spinoff_prover]
    #[verifier::rlimit(100)]
    pub fn get_transition_table(
        nfa_table: &TransitionTable,
        entry_state: usize,
        accepting_state: usize,
    ) -> (r: (DfaTable, Vec<Vec<usize>>))
        requires
            table_keys_unique(*nfa_table),
            table_closed(*nfa_table),
        ensures
            dfa_post(*nfa_table, entry_state as int, r.0),
            accepting_keys_ok(r.0, accepting_state, r.1@),
    {
        let t = nfa_table;
        let ghost bound = pow2((t.rows@.len() + 1) as nat);
        let alphabet = table_alphabet(t);
        let na = alphabet.len();
        let mut seed: Vec<usize> = Vec::new();
        seed.push(entry_state);
        let start_key = t_close(t, &seed);
        proof {
            assert forall|a: int|
                #[trigger] Set::<int>::empty().insert(entry_state as int).contains(a) <==> (0 <= a
                    <= usize::MAX && seed@.contains(a as usize)) by {
                if seed@.contains(a as usize) {
                    let q = choose|q: int| 0 <= q < seed@.len() && seed@[q] == a as usize;
                    assert(seed@[q] == entry_state);
                }
                if a == entry_state as int {
                    assert(seed@[0] == entry_state);
                    assert(seed@.contains(a as usize));
                }
            }
            lemma_tclose_closure(
                *t,
                seed@,
                start_key@,
                Set::<int>::empty().insert(entry_state as int),
            );
            assert(key_in_universe(*t, entry_state, start_key@)) by {
                assert forall|y: usize| #[trigger] start_key@.contains(y) implies key_set(
                    t.rows@.map_values(|row: TableRow| row.id),
                ).insert(entry_state as int).contains(y as int) by {
                    if seed@.contains(y) {
                        assert(y == entry_state);
                    } else {
                        assert(table_has_key(*t, y as int));
                        lemma_key_id_in_universe(*t, entry_state, y);
                    }
                }
            }
        }
        let mut keys: Vec<Vec<usize>> = Vec::new();
        keys.push(start_key);
        let ghost mut seen = Set::<Set<int>>::empty().insert(key_set(keys@[0]@));
        proof {
            lemma_keyset_inv_init(*t, entry_state, keys@, seen);
        }
        let mut rows: Vec<DfaRow> = Vec::new();
        let mut i: usize = 0;
        while i < keys.len()
            invariant
                keyset_inv(*t, entry_state, keys@, seen),
                keys@.len() >= 1,
                key_set(keys@[0]@) == closure_set(
                    *t,
                    Set::<int>::empty().insert(entry_state as int),
                ),
                i <= keys@.len(),
                rows@.len() == i,
                forall|q: int| 0 <= q < i ==> (#[trigger] rows@[q]).key@ == keys@[q]@,
                forall|q: int| 0 <= q < i ==> dfa_row_ok(*t, #[trigger] rows@[q]),
                forall|q: int, j: int|
                    0 <= q < i && 0 <= j < rows@[q].cells@.len() ==> keys_has(
                        keys@,
                        (#[trigger] rows@[q].cells@[j]).transition@,
                    ),
                forall|q: int|
                    0 < q < keys@.len() ==> rows_have_dest(rows@, (#[trigger] keys@[q])@),
            decreases bound - i,
        {
            proof {
                lemma_keyset_inv_bound(*t, entry_state, keys@, seen);
            }
            let key = copy_key(&keys[i]);
            let ghost key_i = i as int;
            let ghost prekeys_outer = keys@;
            let (cells, new_seen) = DFA::build_row_cells(
                t,
                &alphabet,
                &mut keys,
                &key,
                Ghost(entry_state),
                Ghost(seen),
            );
            proof {
                seen = new_seen@;
            }
            let ghost cellsv = cells@;
            let ghost prerows = rows@;
            let row = DfaRow { key, cells };
            proof {
                assert(row.key@ == keys@[key_i]@);
                assert(dfa_row_ok(*t, row)) by {
                    assert(sorted_unique(row.key@)) by {
                        reveal(keyset_inv);
                    }
                    assert forall|c: char| row_has_symbol(row, c) <==> #[trigger] table_has_symbol(
                        *t,
                        c,
                    ) by {
                        if row_has_symbol(row, c) {
                            let j = choose|j: int|
                                0 <= j < row.cells@.len() && (#[trigger] row.cells@[j]).symbol == c;
                            assert(alphabet@[j] == c);
                            assert(alphabet@.contains(c));
                        }
                        if table_has_symbol(*t, c) {
                            assert(alphabet@.contains(c));
                            let j = choose|j: int| 0 <= j < alphabet@.len() && alphabet@[j] == c;
                            assert(row.cells@[j].symbol == c);
                        }
                    }
                    assert forall|j1: int, j2: int|
                        #![auto]
                        0 <= j1 < j2 < row.cells@.len() implies row.cells@[j1].symbol
                        != row.cells@[j2].symbol by {
                        assert(row.cells@[j1].symbol == alphabet@[j1]);
                        assert(row.cells@[j2].symbol == alphabet@[j2]);
                    }
                    assert forall|j: int|
                        0 <= j < row.cells@.len() implies (#[trigger] row.cells@[j]).symbol
                        != EPSILON by {
                        assert(row.cells@[j].symbol == alphabet@[j]);
                        assert(alphabet@.contains(alphabet@[j]));
                    }
                }
            }
            rows.push(row);
            proof {
                assert forall|q: int|
                    0 < q < keys@.len() implies rows_have_dest(
                    rows@,
                    (#[trigger] keys@[q])@,
                ) by {
                    if q < prekeys_outer.len() {
                        assert(keys@[q] == prekeys_outer[q]);
                        assert(rows_have_dest(prerows, prekeys_outer[q]@));
                        let (i2, j) = choose|i2: int, j: int|
                            #![auto]
                            0 <= i2 < prerows.len() && 0 <= j < prerows[i2].cells@.len()
                                && prerows[i2].cells@[j].transition@ == prekeys_outer[q]@;
                        assert(rows@[i2] == prerows[i2]);
                    } else {
                        assert(cells_have_dest(cellsv, keys@[q]@));
                        let j = choose|j: int|
                            0 <= j < cellsv.len() && (#[trigger] cellsv[j]).transition@ == keys@[
                                q
                            ]@;
                        assert(rows@[prerows.len() as int].cells@ == cellsv);
                    }
                }
            }
            i += 1;
        }
        let dfa = DfaTable { rows };
        let accs = DFA::get_accepting_states(&dfa, accepting_state);
        proof {
            assert(dfa_post(*t, entry_state as int, dfa)) by {
                reveal(keyset_inv);
                assert forall|i2: int|
                    0 < i2 < dfa.rows@.len() implies key_is_cell_dest(
                    dfa,
                    (#[trigger] dfa.rows@[i2]).key@,
                ) by {
                    assert(dfa.rows@[i2].key@ == keys@[i2]@);
                    assert(rows_have_dest(dfa.rows@, keys@[i2]@));
                }
                assert forall|i2: int, j: int|
                    0 <= i2 < dfa.rows@.len() && 0 <= j < dfa.rows@[i2].cells@.len() implies dfa_has_key(
                    dfa,
                    (#[trigger] dfa.rows@[i2].cells@[j]).transition@,
                ) by {
                    assert(keys_has(keys@, dfa.rows@[i2].cells@[j].transition@));
                    let q2 = choose|q2: int|
                        0 <= q2 < keys@.len() && (#[trigger] keys@[q2])@ == dfa.rows@[
                            i2
                        ].cells@[j].transition@;
                    assert(dfa.rows@[q2].key@ == keys@[q2]@);
                }
            }
        }
        (dfa, accs)
    }

    /// Builds the cells of one DFA row: for every alphabet symbol, the
    /// canonical closure of the key's moves, registering each fresh
    /// destination as a newly discovered DFA state.
    #[verifier::loop_isolation(false)]
    #[verifier::spinoff_prover]
    pub(crate) fn build_row_cells(
        t: &TransitionTable,
        alphabet: &Vec<char>,
        keys: &mut Vec<Vec<usize>>,
        key: &Vec<usize>,
        Ghost(entry_state): Ghost<usize>,
        Ghost(seen): Ghost<Set<Set<int>>>,
    ) -> (res: (Vec<CELL>, Ghost<Set<Set<int>>>))
        requires
            table_keys_unique(*t),
            table_closed(*t),
            keyset_inv(*t, entry_state, old(keys)@, seen),
        ensures
            keyset_inv(*t, entry_state, final(keys)@, res.1@),
            final(keys)@.len() >= old(keys)@.len(),
            forall|q: int| 0 <= q < old(keys)@.len() ==> final(keys)@[q] == old(keys)@[q],
            res.0@.len() == alphabet@.len(),
            forall|j: int| 0 <= j < res.0@.len() ==> (#[trigger] res.0@[j]).symbol == alphabet@[j],
            forall|j: int|
                0 <= j < res.0@.len() ==> sorted_unique((#[trigger] res.0@[j]).transition@),
            forall|j: int|
                0 <= j < res.0@.len() ==> key_set((#[trigger] res.0@[j]).transition@)
                    == closure_set(*t, move_set(*t, key_set(key@), res.0@[j].symbol)),
            forall|j: int|
                0 <= j < res.0@.len() ==> keys_has(
                    final(keys)@,
                    (#[trigger] res.0@[j]).transition@,
                ),
            forall|q: int|
                old(keys)@.len() <= q < final(keys)@.len() ==> cells_have_dest(
                    res.0@,
                    (#[trigger] final(keys)@[q])@,
                ),
    {
        let na = alphabet.len();
        let mut cells: Vec<CELL> = Vec::new();
        let ghost mut cur_seen = seen;
        let mut aj: usize = 0;
        while aj < na
            invariant
                aj <= na,
                cells@.len() == aj,
                keyset_inv(*t, entry_state, keys@, cur_seen),
                keys@.len() >= old(keys)@.len(),
                forall|q: int| 0 <= q < old(keys)@.len() ==> keys@[q] == old(keys)@[q],
                forall|j: int|
                    0 <= j < cells@.len() ==> (#[trigger] cells@[j]).symbol == alphabet@[j],
                forall|j: int|
                    0 <= j < cells@.len() ==> sorted_unique((#[trigger] cells@[j]).transition@),
                forall|j: int|
                    0 <= j < cells@.len() ==> key_set((#[trigger] cells@[j]).transition@)
                        == closure_set(*t, move_set(*t, key_set(key@), cells@[j].symbol)),
                forall|j: int|
                    0 <= j < cells@.len() ==> keys_has(keys@, (#[trigger] cells@[j]).transition@),
                forall|q: int|
                    old(keys)@.len() <= q < keys@.len() ==> cells_have_dest(
                        cells@,
                        (#[trigger] keys@[q])@,
                    ),
            decreases na - aj,
        {
            let c = alphabet[aj];
            let next = dfa_cell_target(t, key, c, Ghost(entry_state));
            let ghost next_view = next@;
            let ghost prekeys = keys@;
            let new_seen = DFA::register_key(t, keys, &next, Ghost(entry_state), Ghost(cur_seen));
            proof {
                cur_seen = new_seen@;
            }
            let ghost precells = cells@;
            push_cell(&mut cells, c, next);
            proof {
                assert(cells@[aj as int].symbol == c);
                assert(cells@[aj as int].transition@ == next_view);
                assert forall|j: int| 0 <= j < cells@.len() implies keys_has(
                    keys@,
                    (#[trigger] cells@[j]).transition@,
                ) by {
                    if j < precells.len() {
                        assert(cells@[j] == precells[j]);
                        assert(keys_has(prekeys, precells[j].transition@));
                        let q2 = choose|q2: int|
                            0 <= q2 < prekeys.len() && (#[trigger] prekeys[q2])@ == precells[
                                j
                            ].transition@;
                        assert(keys@[q2] == prekeys[q2]);
                    }
                }
                assert forall|q: int|
                    old(keys)@.len() <= q < keys@.len() implies cells_have_dest(
                    cells@,
                    (#[trigger] keys@[q])@,
                ) by {
                    if q < prekeys.len() {
                        assert(keys@[q] == prekeys[q]);
                        assert(cells_have_dest(precells, prekeys[q]@));
                        let j2 = choose|j2: int|
                            0 <= j2 < precells.len() && (#[trigger] precells[j2]).transition@
                                == prekeys[q]@;
                        assert(cells@[j2] == precells[j2]);
                    } else {
                        assert(keys@[q]@ == next_view);
                        assert(cells@[aj as int].transition@ == next_view);
                    }
                }
            }
            aj += 1;
        }
        (cells, Ghost(cur_seen))
    }

    /// Adds a freshly computed canonical key to the discovered DFA states,
    /// unless its set of identifiers was discovered before.
    #[verifier::loop_isolation(false)]
    #[verifier::spinoff_prover]
    pub(crate) fn register_key(
        t: &TransitionTable,
        keys: &mut Vec<Vec<usize>>,
        next: &Vec<usize>,
        Ghost(entry_state): Ghost<usize>,
        Ghost(seen): Ghost<Set<Set<int>>>,
    ) -> (res: Ghost<Set<Set<int>>>)
        requires
            keyset_inv(*t, entry_state, old(keys)@, seen),
            sorted_unique(next@),
            key_in_universe(*t, entry_state, next@),
        ensures
            keyset_inv(*t, entry_state, final(keys)@, res@),
            final(keys)@.len() >= old(keys)@.len(),
            final(keys)@.len() <= old(keys)@.len() + 1,
            forall|q: int| 0 <= q < old(keys)@.len() ==> final(keys)@[q] == old(keys)@[q],
            final(keys)@.len() > old(keys)@.len() ==> final(keys)@[old(keys)@.len() as int]@
                == next@,
            keys_has(final(keys)@, next@),
    {
        proof {
            reveal(keyset_inv);
        }
        let found = find_key(keys, next);
        match found {
            Some(fi) => {
                proof {
                    assert(keys@[fi as int]@ == next@);
                    assert(keys_has(keys@, next@));
                }
                Ghost(seen)
            },
            None => {
                let nk = copy_key(next);
                let ghost prekeys = keys@;
                keys.push(nk);
                proof {
                    lemma_new_key_unseen(prekeys, next@, seen);
                    let ghost u_set = key_set(t.rows@.map_values(|row: TableRow| row.id)).insert(
                        entry_state as int,
                    );
                    assert(keys@[prekeys.len() as int]@ == next@);
                    assert(keys_has(keys@, next@));
                    assert forall|q1: int, q2: int|
                        #![auto]
                        0 <= q1 < q2 < keys@.len() implies keys@[q1]@ != keys@[q2]@ by {
                        if q2 < prekeys.len() {
                            assert(keys@[q1] == prekeys[q1] && keys@[q2] == prekeys[q2]);
                        } else {
                            assert(keys@[q2]@ == next@);
                            if q1 < prekeys.len() {
                                assert(keys@[q1] == prekeys[q1]);
                            }
                        }
                    }
                    let new_seen = seen.insert(key_set(next@));
                    assert(new_seen.subset_of(subsets_of(u_set))) by {
                        reveal(subsets_of);
                        assert(key_set(next@).finite() && key_set(next@).subset_of(u_set)) by {
                            lemma_key_set_finite(next@, u_set);
                        }
                    }
                    assert forall|q: int|
                        0 <= q < keys@.len() implies new_seen.contains(
                        key_set((#[trigger] keys@[q])@),
                    ) by {
                        if q < prekeys.len() {
                            assert(keys@[q] == prekeys[q]);
                        } else {
                            assert(keys@[q]@ == next@);
                        }
                    }
                    assert forall|s2: Set<int>| #[trigger] new_seen.contains(s2) implies exists|
                        q: int,
                    |
                        0 <= q < keys@.len() && s2 == key_set((#[trigger] keys@[q])@) by {
                        if s2 == key_set(next@) {
                            assert(s2 == key_set(keys@[prekeys.len() as int]@));
                        } else {
                            let q = choose|q: int|
                                0 <= q < prekeys.len() && s2 == key_set((#[trigger] prekeys[q])@);
                            assert(s2 == key_set(keys@[q]@));
                        }
                    }
                    assert(keyset_inv(*t, entry_state, keys@, new_seen));
                }
                Ghost(seen.insert(key_set(next@)))
            },
        }
    }

    /// The accepting DFA states: every key that contains the NFA's accept
    /// identifier, in table order.
    #[verifier::loop_isolation(false)]
    #[verifier::spinoff_prover]
    pub fn get_accepting_states(dfa_table: &DfaTable, accepting_state: usize) -> (r: Vec<
        Vec<usize>,
    >)
        ensures
            accepting_keys_ok(*dfa_table, accepting_state, r@),
    {
        let n = dfa_table.rows.len();
        let mut r: Vec<Vec<usize>> = Vec::new();
        let mut i: usize = 0;
        while i < n
            invariant
                n == dfa_table.rows@.len(),
                i <= n,
                forall|q: int|
                    0 <= q < r@.len() ==> (#[trigger] r@[q])@.contains(accepting_state)
                        && dfa_has_key(*dfa_table, r@[q]@),
                forall|i2: int|
                    0 <= i2 < i && (#[trigger] dfa_table.rows@[i2]).key@.contains(accepting_state)
                        ==> exists|q: int| 0 <= q < r@.len() && (#[trigger] r@[q])@
                        == dfa_table.rows@[i2].key@,
                forall|q: int|
                    0 <= q < r@.len() ==> key_among_first(*dfa_table, (#[trigger] r@[q])@, i as int),
                (forall|i1: int, i2: int|
                    #![auto]
                    0 <= i1 < i2 < dfa_table.rows@.len() ==> dfa_table.rows@[i1].key@
                        != dfa_table.rows@[i2].key@) ==> (forall|q1: int, q2: int|
                    #![auto]
                    0 <= q1 < q2 < r@.len() ==> r@[q1]@ != r@[q2]@),
            decreases n - i,
        {
            if vec_contains(&dfa_table.rows[i].key, accepting_state) {
                let k = copy_key(&dfa_table.rows[i].key);
                let ghost pre = r@;
                r.push(k);
                proof {
                    assert(r@[pre.len() as int]@ == dfa_table.rows@[i as int].key@);
                    assert forall|q: int|
                        0 <= q < r@.len() implies (#[trigger] r@[q])@.contains(accepting_state)
                        && dfa_has_key(*dfa_table, r@[q]@) by {
                        if q < pre.len() {
                            assert(r@[q] == pre[q]);
                            assert(dfa_has_key(*dfa_table, pre[q]@));
                        } else {
                            assert(dfa_table.rows@[i as int].key@ == r@[q]@);
                        }
                    }
                    assert forall|i2: int|
                        0 <= i2 < i + 1 && (#[trigger] dfa_table.rows@[i2]).key@.contains(
                            accepting_state,
                        ) implies exists|q: int|
                        0 <= q < r@.len() && (#[trigger] r@[q])@ == dfa_table.rows@[i2].key@ by {
                        if i2 < i {
                            let q = choose|q: int|
                                0 <= q < pre.len() && (#[trigger] pre[q])@ == dfa_table.rows@[
                                    i2
                                ].key@;
                            assert(r@[q]@ == dfa_table.rows@[i2].key@);
                        } else {
                            assert(r@[pre.len() as int]@ == dfa_table.rows@[i2].key@);
                        }
                    }
                    assert forall|q: int|
                        0 <= q < r@.len() implies key_among_first(
                        *dfa_table,
                        (#[trigger] r@[q])@,
                        i as int + 1,
                    ) by {
                        if q < pre.len() {
                            assert(r@[q] == pre[q]);
                            let i2 = choose|i2: int|
                                0 <= i2 < i && (#[trigger] dfa_table.rows@[i2]).key@ == pre[q]@;
                            assert(dfa_table.rows@[i2].key@ == r@[q]@);
                        } else {
                            assert(dfa_table.rows@[i as int].key@ == r@[q]@);
                        }
                    }
                    if forall|i1: int, i2: int|
                        #![auto]
                        0 <= i1 < i2 < dfa_table.rows@.len() ==> dfa_table.rows@[i1].key@
                            != dfa_table.rows@[i2].key@ {
                        assert forall|q1: int, q2: int|
                            #![auto]
                            0 <= q1 < q2 < r@.len() implies r@[q1]@ != r@[q2]@ by {
                            if q2 < pre.len() {
                                assert(r@[q1] == pre[q1] && r@[q2] == pre[q2]);
                            } else {
                                assert(r@[q2]@ == dfa_table.rows@[i as int].key@);
                                assert(r@[q1] == pre[q1]);
                                assert(key_among_first(*dfa_table, pre[q1]@, i as int));
                                let i2 = choose|i2: int|
                                    0 <= i2 < i && (#[trigger] dfa_table.rows@[i2]).key@ == pre[
                                        q1
                                    ]@;
                                assert(dfa_table.rows@[i2].key@ != dfa_table.rows@[i as int].key@);
                            }
                        }
                    }
                }
            }
            proof {
                assert forall|q: int|
                    0 <= q < r@.len() implies key_among_first(
                    *dfa_table,
                    (#[trigger] r@[q])@,
                    i as int + 1,
                ) by {
                    let i2 = choose|i2: int|
                        0 <= i2 < i + 1 && (#[trigger] dfa_table.rows@[i2]).key@ == r@[q]@;
                }
            }
            i += 1;
        }
        r
    }
}

/// Acceptance of an input by the DFA table: starting from `key`, follow
/// for each symbol the unique cell of the current state; accept when the
/// final state's set contains the accept identifier.  A missing row or
/// cell rejects.
pub open spec fn dfa_accepts(d: DfaTable, key: Seq<usize>, accept: usize, w: Seq<char>) -> bool
    decreases w.len(),
{
    if w.len() == 0 {
        key.contains(accept)
    } else {
        exists|i: int, j: int|
            #![auto]
            0 <= i < d.rows@.len() && d.rows@[i].key@ == key && 0 <= j < d.rows@[i].cells@.len()
                && d.rows@[i].cells@[j].symbol == w.first() && dfa_accepts(
                d,
                d.rows@[i].cells@[j].transition@,
                accept,
                w.drop_first(),
            )
    }
}

/// Looks up the row keyed by exactly this identifier set.
#[verifier::loop_isolation(false)]
pub(crate) fn find_dfa_row(d: &DfaTable, key: &Vec<usize>) -> (r: Option<usize>)
    ensures
        r is Some ==> (r->Some_0 as int) < d.rows@.len() && d.rows@[r->Some_0 as int].key@ == key@,
        r is None ==> forall|i: int| 0 <= i < d.rows@.len() ==> (#[trigger] d.rows@[i]).key@ != key@,
{
    let n = d.rows.len();
    let mut i: usize = 0;
    while i < n
        invariant
            n == d.rows@.len(),
            i <= n,
            forall|q: int| 0 <= q < i ==> (#[trigger] d.rows@[q]).key@ != key@,
        decreases n - i,
    {
        if key_eq(&d.rows[i].key, key) {
            return Some(i);
        }
        i += 1;
    }
    None
}

/// Looks up the cell of one row that carries this symbol.
#[verifier::loop_isolation(false)]
pub(crate) fn find_symbol_cell(d: &DfaTable, ri: usize, c: char) -> (r: Option<usize>)
    requires
        (ri as int) < d.rows@.len(),
    ensures
        r is Some ==> (r->Some_0 as int) < d.rows@[ri as int].cells@.len() && d.rows@[
            ri as int
        ].cells@[r->Some_0 as int].symbol == c,
        r is None ==> forall|j: int|
            0 <= j < d.rows@[ri as int].cells@.len() ==> (#[trigger] d.rows@[
                ri as int
            ].cells@[j]).symbol != c,
{
    let n = d.rows[ri].cells.len();
    let mut j: usize = 0;
    while j < n
        invariant
            (ri as int) < d.rows@.len(),
            n == d.rows@[ri as int].cells@.len(),
            j <= n,
            forall|q: int| 0 <= q < j ==> (#[trigger] d.rows@[ri as int].cells@[q]).symbol != c,
        decreases n - j,
    {
        if d.rows[ri].cells[j].symbol == c {
            return Some(j);
        }
        j += 1;
    }
    None
}

impl DFA {
    /// Executes the DFA table on an input string: the deterministic
    /// counterpart of the backtracking matcher, one table lookup per
    /// consumed symbol.
    #[verifier::loop_isolation(false)]
    pub fn test(
        dfa_table: &DfaTable,
        start: &Vec<usize>,
        accepting_state: usize,
        input: &str,
    ) -> (r: bool)
        requires
            forall|i1: int, i2: int|
                #![auto]
                0 <= i1 < i2 < dfa_table.rows@.len() ==> dfa_table.rows@[i1].key@
                    != dfa_table.rows@[i2].key@,
            forall|i: int, j1: int, j2: int|
                #![auto]
                0 <= i < dfa_table.rows@.len() && 0 <= j1 < j2 < dfa_table.rows@[i].cells@.len()
                    ==> dfa_table.rows@[i].cells@[j1].symbol != dfa_table.rows@[i].cells@[j2].symbol,
        ensures
            r == dfa_accepts(*dfa_table, start@, accepting_state, input@),
    {
        let n = input.unicode_len();
        let mut current = copy_key(start);
        proof {
            assert(input@.subrange(0, n as int) =~= input@);
        }
        let mut i: usize = 0;
        while i < n
            invariant
                n == input@.len(),
                i <= n,
                dfa_accepts(*dfa_table, start@, accepting_state, input@) == dfa_accepts(
                    *dfa_table,
                    current@,
                    accepting_state,
                    input@.subrange(i as int, n as int),
                ),
            decreases n - i,
        {
            let c = input.get_char(i);
            let ghost suffix = input@.subrange(i as int, n as int);
            proof {
                assert(suffix.first() == c);
                assert(suffix.drop_first() =~= input@.subrange(i as int + 1, n as int));
                assert(suffix.len() > 0);
            }
            let row = find_dfa_row(dfa_table, &current);
            match row {
                None => {
                    proof {
                        if dfa_accepts(*dfa_table, current@, accepting_state, suffix) {
                            let (i2, j2) = choose|i2: int, j2: int|
                                #![auto]
                                0 <= i2 < dfa_table.rows@.len() && dfa_table.rows@[i2].key@
                                    == current@ && 0 <= j2 < dfa_table.rows@[i2].cells@.len()
                                    && dfa_table.rows@[i2].cells@[j2].symbol == suffix.first()
                                    && dfa_accepts(
                                    *dfa_table,
                                    dfa_table.rows@[i2].cells@[j2].transition@,
                                    accepting_state,
                                    suffix.drop_first(),
                                );
                            assert(false);
                        }
                    }
                    return false;
                },
                Some(ri) => {
                    let cj = find_symbol_cell(dfa_table, ri, c);
                    match cj {
                        None => {
                            proof {
                                if dfa_accepts(*dfa_table, current@, accepting_state, suffix) {
                                    let (i2, j2) = choose|i2: int, j2: int|
                                        #![auto]
                                        0 <= i2 < dfa_table.rows@.len() && dfa_table.rows@[i2].key@
                                            == current@ && 0 <= j2 < dfa_table.rows@[
                                            i2
                                        ].cells@.len() && dfa_table.rows@[i2].cells@[j2].symbol
                                            == suffix.first() && dfa_accepts(
                                            *dfa_table,
                                            dfa_table.rows@[i2].cells@[j2].transition@,
                                            accepting_state,
                                            suffix.drop_first(),
                                        );
                                    assert(i2 == ri as int);
                                    assert(false);
                                }
                            }
                            return false;
                        },
                        Some(j) => {
                            let next = copy_key(&dfa_table.rows[ri].cells[j].transition);
                            proof {
                                let rii = ri as int;
                                let ji = j as int;
                                assert(dfa_accepts(*dfa_table, current@, accepting_state, suffix)
                                    == dfa_accepts(
                                    *dfa_table,
                                    next@,
                                    accepting_state,
                                    suffix.drop_first(),
                                )) by {
                                    if dfa_accepts(
                                        *dfa_table,
                                        next@,
                                        accepting_state,
                                        suffix.drop_first(),
                                    ) {
                                        assert(dfa_accepts(
                                            *dfa_table,
                                            current@,
                                            accepting_state,
                                            suffix,
                                        ));
                                    }
                                    if dfa_accepts(*dfa_table, current@, accepting_state, suffix) {
                                        let (i2, j2) = choose|i2: int, j2: int|
                                            #![auto]
                                            0 <= i2 < dfa_table.rows@.len() && dfa_table.rows@[
                                                i2
                                            ].key@ == current@ && 0 <= j2 < dfa_table.rows@[
                                                i2
                                            ].cells@.len() && dfa_table.rows@[i2].cells@[j2].symbol
                                                == suffix.first() && dfa_accepts(
                                                *dfa_table,
                                                dfa_table.rows@[i2].cells@[j2].transition@,
                                                accepting_state,
                                                suffix.drop_first(),
                                            );
                                        assert(i2 == rii);
                                        assert(j2 == ji);
                                    }
                                }
                            }
                            current = next;
                        },
                    }
                },
            }
            i += 1;
        }
        proof {
            assert(input@.subrange(n as int, n as int) =~= Seq::<char>::empty());
        }
        let res = vec_contains(&current, accepting_state);
        res
    }

    /// Splits a flattened table into its one-step epsilon map (each state
    /// listed with itself followed by its epsilon destinations) and the
    /// set of distinct non-epsilon symbols of the whole table.
    #[verifier::loop_isolation(false)]
    pub fn get_epsilon_and_unique_transitions(transition_map: &TransitionTable) -> (r: (
        Vec<(usize, Vec<usize>)>,
        Vec<char>,
    ))
        ensures
            r.0@.len() == transition_map.rows@.len(),
            forall|i: int|
                0 <= i < r.0@.len() ==> (#[trigger] r.0@[i]).0 == transition_map.rows@[i].id,
            forall|i: int|
                0 <= i < r.0@.len() ==> (#[trigger] r.0@[i]).1@ == seq![
                    transition_map.rows@[i].id,
                ] + dests_for(transition_map.rows@[i].cells@, EPSILON),
            r.1@.no_duplicates(),
            forall|c: char| #[trigger] r.1@.contains(c) <==> table_has_symbol(*transition_map, c),
    {
        let n = transition_map.rows.len();
        let mut eps_rows: Vec<(usize, Vec<usize>)> = Vec::new();
        let mut i: usize = 0;
        while i < n
            invariant
                n == transition_map.rows@.len(),
                i <= n,
                eps_rows@.len() == i,
                forall|q: int|
                    0 <= q < i ==> (#[trigger] eps_rows@[q]).0 == transition_map.rows@[q].id,
                forall|q: int|
                    0 <= q < i ==> (#[trigger] eps_rows@[q]).1@ == seq![
                        transition_map.rows@[q].id,
                    ] + dests_for(transition_map.rows@[q].cells@, EPSILON),
            decreases n - i,
        {
            let id = transition_map.rows[i].id;
            let dests = get_row_dests(transition_map, i, EPSILON);
            let nd = dests.len();
            let mut eps: Vec<usize> = Vec::new();
            eps.push(id);
            let mut k: usize = 0;
            while k < nd
                invariant
                    i < n,
                    n == transition_map.rows@.len(),
                    nd == dests@.len(),
                    dests@ == dests_for(transition_map.rows@[i as int].cells@, EPSILON),
                    id == transition_map.rows@[i as int].id,
                    k <= nd,
                    eps@ == seq![id] + dests@.subrange(0, k as int),
                decreases nd - k,
            {
                eps.push(dests[k]);
                proof {
                    assert(eps@ =~= seq![id] + dests@.subrange(0, k as int + 1));
                }
                k += 1;
            }
            proof {
                assert(dests@.subrange(0, nd as int) =~= dests@);
            }
            eps_rows.push((id, eps));
            i += 1;
        }
        let alphabet = table_alphabet(transition_map);
        (eps_rows, alphabet)
    }
}

} // verus!
