//! The mathematical model of the recognizer: what a validated automaton is,
//! which states a chain can lead to, and when a chain is accepted.

use vstd::prelude::*;

verus! {

/// The reserved marker character: on a transition it denotes an epsilon
/// (unlabeled) edge; anywhere inside a query chain it forces the chain to be
/// read as the empty chain.
pub const EPSILON: char = '-';

/// The content of a validated automaton. States are the indices
/// `0 .. state_count`; `initial` and `accepting` list the indices of the
/// initial and accepting states; `edges` holds the transitions as
/// (source, label, target) triples, in the order they were declared.
pub ghost struct AutView {
    pub state_count: nat,
    pub symbols: Seq<char>,
    pub initial: Seq<nat>,
    pub accepting: Seq<nat>,
    pub edges: Seq<(nat, char, nat)>,
}

/// The edge (src, sym, tgt) is one of the automaton's transitions.
pub open spec fn edge_in(edges: Seq<(nat, char, nat)>, src: nat, sym: char, tgt: nat) -> bool {
    edges.contains((src, sym, tgt))
}

/// Every edge connects declared states and carries a declared symbol or the
/// epsilon marker, and the initial and accepting lists name declared states.
pub open spec fn wf_view(v: AutView) -> bool {
    &&& forall|k: int|
        0 <= k < v.edges.len() ==> (#[trigger] v.edges[k]).0 < v.state_count && v.edges[k].2
            < v.state_count && (v.symbols.contains(v.edges[k].1) || v.edges[k].1 == EPSILON)
    &&& forall|k: int| 0 <= k < v.initial.len() ==> #[trigger] v.initial[k] < v.state_count
    &&& forall|k: int| 0 <= k < v.accepting.len() ==> #[trigger] v.accepting[k] < v.state_count
}

/// Membership of state `q` in a boolean characteristic vector.
pub open spec fn in_set(b: Seq<bool>, q: nat) -> bool {
    q < b.len() && b[q as int]
}

/// Consecutive entries of `path` are connected by epsilon edges.
pub open spec fn is_eps_path(edges: Seq<(nat, char, nat)>, path: Seq<nat>) -> bool {
    forall|i: int| 0 <= i < path.len() - 1 ==> edge_in(edges, #[trigger] path[i], EPSILON, path[i + 1])
}

/// `tgt` is reachable from `src` through zero or more epsilon edges.
#[verifier::opaque]
pub open spec fn eps_reach(edges: Seq<(nat, char, nat)>, src: nat, tgt: nat) -> bool {
    exists|path: Seq<nat>|
        path.len() >= 1 && path.first() == src && path.last() == tgt && #[trigger] is_eps_path(
            edges,
            path,
        )
}

/// Some marked state of `from` reaches `t` through zero or more epsilon
/// edges.
#[verifier::opaque]
pub open spec fn eps_reach_from(edges: Seq<(nat, char, nat)>, from: Seq<bool>, t: nat) -> bool {
    exists|s: nat| in_set(from, s) && #[trigger] eps_reach(edges, s, t)
}

/// An edge labeled `sym` leads from some marked state of `from` to `t`.
#[verifier::opaque]
pub open spec fn step_from(
    edges: Seq<(nat, char, nat)>,
    from: Seq<bool>,
    sym: char,
    t: nat,
) -> bool {
    exists|p: nat| in_set(from, p) && #[trigger] edge_in(edges, p, sym, t)
}

/// `q` is a state the automaton can be in after consuming `chain`: some
/// initial state leads to `q` along edges labeled with the symbols of
/// `chain`, in order, with any number of epsilon edges in between.
#[verifier::opaque]
pub open spec fn reaches(v: AutView, chain: Seq<char>, q: nat) -> bool
    decreases chain.len(),
{
    if chain.len() == 0 {
        exists|s: nat| v.initial.contains(s) && #[trigger] eps_reach(v.edges, s, q)
    } else {
        exists|p: nat, t: nat|
            reaches(v, chain.drop_last(), p) && #[trigger] edge_in(v.edges, p, chain.last(), t)
                && eps_reach(v.edges, t, q)
    }
}

/// The automaton accepts `chain`: it can end in an accepting state.
pub open spec fn accepts_spec(v: AutView, chain: Seq<char>) -> bool {
    exists|q: nat| #[trigger] reaches(v, chain, q) && v.accepting.contains(q)
}

/// The chain a query actually searches: any occurrence of the marker forces
/// the empty chain.
pub open spec fn chain_effective(chain: Seq<char>) -> Seq<char> {
    if chain.contains(EPSILON) {
        Seq::empty()
    } else {
        chain
    }
}

/// A raw transition is valid when both endpoints are declared states and its
/// symbol is declared or is the epsilon marker.
pub open spec fn transition_valid(states: Seq<u16>, symbols: Seq<char>, t: (u16, char, u16)) -> bool {
    states.contains(t.0) && states.contains(t.2) && (symbols.contains(t.1) || t.1 == EPSILON)
}

/// The index of the first occurrence of `x` in `states` (the length of
/// `states` when `x` is absent).
pub open spec fn label_index(states: Seq<u16>, x: u16) -> nat
    decreases states.len(),
{
    if states.len() == 0 {
        0
    } else if states.first() == x {
        0
    } else {
        1 + label_index(states.drop_first(), x)
    }
}

/// The graph edge a raw transition turns into: labels replaced by the
/// indices of the states that carry them.
pub open spec fn edge_of_transition(states: Seq<u16>, t: (u16, char, u16)) -> (nat, char, nat) {
    (label_index(states, t.0), t.1, label_index(states, t.2))
}

pub open spec fn edges_of_transitions(states: Seq<u16>, ts: Seq<(u16, char, u16)>) -> Seq<
    (nat, char, nat),
>
    decreases ts.len(),
{
    if ts.len() == 0 {
        Seq::empty()
    } else {
        edges_of_transitions(states, ts.drop_last()).push(
            edge_of_transition(states, ts.last()),
        )
    }
}

/// The indices, in increasing order, of the states whose label occurs in
/// `chosen`.
pub open spec fn selected_indices(states: Seq<u16>, chosen: Seq<u16>) -> Seq<nat>
    decreases states.len(),
{
    if states.len() == 0 {
        Seq::empty()
    } else {
        let rest = selected_indices(states.drop_last(), chosen);
        if chosen.contains(states.last()) {
            rest.push((states.len() - 1) as nat)
        } else {
            rest
        }
    }
}

/// The indices of an executable list of states, as mathematical naturals.
pub open spec fn nat_seq(s: Seq<usize>) -> Seq<nat> {
    s.map_values(|x: usize| x as nat)
}

/// How many entries of `b` are false — the measure that shrinks while the
/// epsilon closure grows.
pub open spec fn count_false(b: Seq<bool>) -> nat
    decreases b.len(),
{
    if b.len() == 0 {
        0
    } else {
        count_false(b.drop_last()) + if b.last() {
            0nat
        } else {
            1nat
        }
    }
}

pub proof fn lemma_nat_seq_push(s: Seq<usize>, x: usize)
    ensures
        nat_seq(s.push(x)) =~= nat_seq(s).push(x as nat),
{
}

pub proof fn lemma_eps_reach_from_refl(edges: Seq<(nat, char, nat)>, from: Seq<bool>, t: nat)
    requires
        in_set(from, t),
    ensures
        eps_reach_from(edges, from, t),
{
    reveal(eps_reach_from);
    lemma_eps_refl(edges, t);
}

pub proof fn lemma_eps_reach_from_step(
    edges: Seq<(nat, char, nat)>,
    from: Seq<bool>,
    q: nat,
    t: nat,
)
    requires
        eps_reach_from(edges, from, q),
        edge_in(edges, q, EPSILON, t),
    ensures
        eps_reach_from(edges, from, t),
{
    reveal(eps_reach_from);
    let s = choose|s: nat| in_set(from, s) && #[trigger] eps_reach(edges, s, q);
    lemma_eps_extend(edges, s, q, t);
}

/// A superset of `from` that is closed under epsilon edges holds everything
/// `from` reaches through them.
pub proof fn lemma_eps_reach_from_closed(
    edges: Seq<(nat, char, nat)>,
    from: Seq<bool>,
    vis: Seq<bool>,
    t: nat,
)
    requires
        eps_reach_from(edges, from, t),
        forall|p: nat| #[trigger] in_set(from, p) ==> in_set(vis, p),
        forall|q: nat, t2: nat|
            in_set(vis, q) && #[trigger] edge_in(edges, q, EPSILON, t2) ==> in_set(vis, t2),
    ensures
        in_set(vis, t),
{
    reveal(eps_reach_from);
    let s = choose|s: nat| in_set(from, s) && #[trigger] eps_reach(edges, s, t);
    lemma_eps_reach_in_closed(edges, vis, s, t);
}

pub proof fn lemma_step_from_intro(
    edges: Seq<(nat, char, nat)>,
    from: Seq<bool>,
    p: nat,
    sym: char,
    t: nat,
)
    requires
        in_set(from, p),
        edge_in(edges, p, sym, t),
    ensures
        step_from(edges, from, sym, t),
{
    reveal(step_from);
}

pub proof fn lemma_eps_refl(edges: Seq<(nat, char, nat)>, s: nat)
    ensures
        eps_reach(edges, s, s),
{
    reveal(eps_reach);
    let path = seq![s];
    assert(is_eps_path(edges, path));
    assert(path.len() >= 1 && path.first() == s && path.last() == s);
}

pub proof fn lemma_eps_extend(edges: Seq<(nat, char, nat)>, s: nat, m: nat, t: nat)
    requires
        eps_reach(edges, s, m),
        edge_in(edges, m, EPSILON, t),
    ensures
        eps_reach(edges, s, t),
{
    reveal(eps_reach);
    let path = choose|path: Seq<nat>|
        path.len() >= 1 && path.first() == s && path.last() == m && #[trigger] is_eps_path(
            edges,
            path,
        );
    let ext = path.push(t);
    assert(is_eps_path(edges, ext)) by {
        assert forall|i: int| 0 <= i < ext.len() - 1 implies edge_in(
            edges,
            #[trigger] ext[i],
            EPSILON,
            ext[i + 1],
        ) by {
            if i < path.len() - 1 {
                assert(ext[i] == path[i] && ext[i + 1] == path[i + 1]);
            } else {
                assert(ext[i] == path[path.len() - 1] && ext[i + 1] == t);
            }
        }
    }
    assert(ext.len() >= 1 && ext.first() == s && ext.last() == t);
}

/// A set that contains the start of an epsilon path and is closed under
/// epsilon edges contains its end.
pub proof fn lemma_eps_path_in_closed(edges: Seq<(nat, char, nat)>, vis: Seq<bool>, path: Seq<nat>)
    requires
        forall|q: nat, t: nat|
            in_set(vis, q) && #[trigger] edge_in(edges, q, EPSILON, t) ==> in_set(vis, t),
        is_eps_path(edges, path),
        path.len() >= 1,
        in_set(vis, path.first()),
    ensures
        in_set(vis, path.last()),
    decreases path.len(),
{
    if path.len() > 1 {
        assert(edge_in(edges, path[0], EPSILON, path[1]));
        assert(in_set(vis, path[1]));
        let rest = path.subrange(1, path.len() as int);
        assert(is_eps_path(edges, rest)) by {
            assert forall|i: int| 0 <= i < rest.len() - 1 implies edge_in(
                edges,
                #[trigger] rest[i],
                EPSILON,
                rest[i + 1],
            ) by {
                assert(rest[i] == path[i + 1] && rest[i + 1] == path[i + 2]);
            }
        }
        assert(rest.first() == path[1] && rest.last() == path.last());
        lemma_eps_path_in_closed(edges, vis, rest);
    }
}

pub proof fn lemma_eps_reach_in_closed(edges: Seq<(nat, char, nat)>, vis: Seq<bool>, s: nat, t: nat)
    requires
        forall|q: nat, t2: nat|
            in_set(vis, q) && #[trigger] edge_in(edges, q, EPSILON, t2) ==> in_set(vis, t2),
        in_set(vis, s),
        eps_reach(edges, s, t),
    ensures
        in_set(vis, t),
{
    reveal(eps_reach);
    let path = choose|path: Seq<nat>|
        path.len() >= 1 && path.first() == s && path.last() == t && #[trigger] is_eps_path(
            edges,
            path,
        );
    lemma_eps_path_in_closed(edges, vis, path);
}

/// Epsilon edges of a well-formed automaton never leave the state set.
pub proof fn lemma_eps_reach_bound(v: AutView, s: nat, t: nat)
    requires
        wf_view(v),
        s < v.state_count,
        eps_reach(v.edges, s, t),
    ensures
        t < v.state_count,
{
    reveal(eps_reach);
    let path = choose|path: Seq<nat>|
        path.len() >= 1 && path.first() == s && path.last() == t && #[trigger] is_eps_path(
            v.edges,
            path,
        );
    lemma_eps_path_bound(v, path);
}

proof fn lemma_eps_path_bound(v: AutView, path: Seq<nat>)
    requires
        wf_view(v),
        is_eps_path(v.edges, path),
        path.len() >= 1,
        path.first() < v.state_count,
    ensures
        path.last() < v.state_count,
    decreases path.len(),
{
    if path.len() > 1 {
        assert(edge_in(v.edges, path[0], EPSILON, path[1]));
        let e = (path[0], EPSILON, path[1]);
        let k = choose|k: int| 0 <= k < v.edges.len() && v.edges[k] == e;
        assert(v.edges[k].2 < v.state_count);
        let rest = path.subrange(1, path.len() as int);
        assert(is_eps_path(v.edges, rest)) by {
            assert forall|i: int| 0 <= i < rest.len() - 1 implies edge_in(
                v.edges,
                #[trigger] rest[i],
                EPSILON,
                rest[i + 1],
            ) by {
                assert(rest[i] == path[i + 1] && rest[i + 1] == path[i + 2]);
            }
        }
        lemma_eps_path_bound(v, rest);
    }
}

/// Only declared states are reachable in a well-formed automaton.
pub proof fn lemma_reaches_bound(v: AutView, chain: Seq<char>, q: nat)
    requires
        wf_view(v),
        reaches(v, chain, q),
    ensures
        q < v.state_count,
    decreases chain.len(),
{
    reveal(reaches);
    if chain.len() == 0 {
        let s = choose|s: nat| v.initial.contains(s) && #[trigger] eps_reach(v.edges, s, q);
        let k = choose|k: int| 0 <= k < v.initial.len() && v.initial[k] == s;
        lemma_eps_reach_bound(v, s, q);
    } else {
        let (p, t) = choose|p: nat, t: nat|
            reaches(v, chain.drop_last(), p) && #[trigger] edge_in(v.edges, p, chain.last(), t)
                && eps_reach(v.edges, t, q);
        let e = (p, chain.last(), t);
        let k = choose|k: int| 0 <= k < v.edges.len() && v.edges[k] == e;
        assert(v.edges[k].2 < v.state_count);
        lemma_eps_reach_bound(v, t, q);
    }
}

proof fn lemma_unknown_symbol_unreachable(v: AutView, chain: Seq<char>, i: int, q: nat)
    requires
        wf_view(v),
        0 <= i < chain.len(),
        !v.symbols.contains(chain[i]),
        chain[i] != EPSILON,
    ensures
        !reaches(v, chain, q),
    decreases chain.len(),
{
    reveal(reaches);
    if reaches(v, chain, q) {
        let (p, t) = choose|p: nat, t: nat|
            reaches(v, chain.drop_last(), p) && #[trigger] edge_in(v.edges, p, chain.last(), t)
                && eps_reach(v.edges, t, q);
        if i == chain.len() - 1 {
            let e = (p, chain.last(), t);
            let k = choose|k: int| 0 <= k < v.edges.len() && v.edges[k] == e;
            assert(v.symbols.contains(v.edges[k].1) || v.edges[k].1 == EPSILON);
        } else {
            assert(chain.drop_last()[i] == chain[i]);
            lemma_unknown_symbol_unreachable(v, chain.drop_last(), i, p);
        }
    }
}

/// Alphabet closure: a chain that carries a symbol the alphabet does not
/// declare, and no epsilon marker, is rejected outright.
pub proof fn lemma_rejects_outside_alphabet(v: AutView, chain: Seq<char>, i: int)
    requires
        wf_view(v),
        !chain.contains(EPSILON),
        0 <= i < chain.len(),
        !v.symbols.contains(chain[i]),
    ensures
        !accepts_spec(v, chain_effective(chain)),
        !accepts_spec(v, chain),
    decreases chain.len(),
{
    assert(chain[i] != EPSILON);
    assert(chain_effective(chain) == chain);
    if accepts_spec(v, chain) {
        let q = choose|q: nat| #[trigger] reaches(v, chain, q) && v.accepting.contains(q);
        lemma_unknown_symbol_unreachable(v, chain, i, q);
    }
}

/// Empty-input acceptance: the empty chain is accepted exactly when some
/// initial state reaches an accepting state through epsilon edges alone.
pub proof fn lemma_empty_chain_acceptance(v: AutView)
    ensures
        accepts_spec(v, Seq::<char>::empty()) <==> exists|s: nat, q: nat|
            v.initial.contains(s) && #[trigger] eps_reach(v.edges, s, q) && v.accepting.contains(
                q,
            ),
{
    reveal(reaches);
    if accepts_spec(v, Seq::<char>::empty()) {
        let q = choose|q: nat| #[trigger] reaches(v, Seq::<char>::empty(), q)
            && v.accepting.contains(q);
        let s = choose|s: nat| v.initial.contains(s) && #[trigger] eps_reach(v.edges, s, q);
        assert(v.initial.contains(s) && eps_reach(v.edges, s, q) && v.accepting.contains(q));
    }
    if exists|s: nat, q: nat|
        v.initial.contains(s) && #[trigger] eps_reach(v.edges, s, q) && v.accepting.contains(q) {
        let (s, q) = choose|s: nat, q: nat|
            v.initial.contains(s) && #[trigger] eps_reach(v.edges, s, q) && v.accepting.contains(
                q,
            );
        assert(reaches(v, Seq::<char>::empty(), q));
        assert(accepts_spec(v, Seq::<char>::empty()));
    }
}

/// Determinism of the query: the answer is a function of the automaton and
/// the chain alone, so any two queries with identical inputs agree.
pub proof fn lemma_query_deterministic(v: AutView, chain: Seq<char>, r1: bool, r2: bool)
    requires
        r1 == accepts_spec(v, chain_effective(chain)),
        r2 == accepts_spec(v, chain_effective(chain)),
    ensures
        r1 == r2,
{
}

pub proof fn lemma_count_false_set_true(b: Seq<bool>, i: int)
    requires
        0 <= i < b.len(),
        !b[i],
    ensures
        count_false(b.update(i, true)) < count_false(b),
    decreases b.len(),
{
    let b2 = b.update(i, true);
    if i == b.len() - 1 {
        assert(b2.drop_last() =~= b.drop_last());
        assert(!b.last() && b2.last());
    } else {
        assert(b2.drop_last() =~= b.drop_last().update(i, true));
        lemma_count_false_set_true(b.drop_last(), i);
        assert(b2.last() == b.last());
    }
}

pub proof fn lemma_label_index_props(states: Seq<u16>, x: u16)
    requires
        states.contains(x),
    ensures
        label_index(states, x) < states.len(),
        states[label_index(states, x) as int] == x,
    decreases states.len(),
{
    if states.first() != x {
        let k = choose|k: int| 0 <= k < states.len() && states[k] == x;
        assert(states.drop_first()[k - 1] == x);
        assert(states.drop_first().contains(x));
        lemma_label_index_props(states.drop_first(), x);
        assert(states.drop_first()[label_index(states.drop_first(), x) as int] == x);
    }
}

/// A forward scan that stops at the first match computes `label_index`.
pub proof fn lemma_label_index_first(states: Seq<u16>, x: u16, i: int)
    requires
        0 <= i < states.len(),
        states[i] == x,
        forall|j: int| 0 <= j < i ==> states[j] != x,
    ensures
        label_index(states, x) as int == i,
    decreases states.len(),
{
    if i == 0 {
    } else {
        assert(states.first() != x);
        assert(states.drop_first()[i - 1] == x);
        assert forall|j: int| 0 <= j < i - 1 implies states.drop_first()[j] != x by {
            assert(states.drop_first()[j] == states[j + 1]);
        }
        lemma_label_index_first(states.drop_first(), x, i - 1);
    }
}

pub proof fn lemma_selected_indices_bound(states: Seq<u16>, chosen: Seq<u16>)
    ensures
        forall|k: int|
            0 <= k < selected_indices(states, chosen).len()
                ==> #[trigger] selected_indices(states, chosen)[k] < states.len(),
    decreases states.len(),
{
    if states.len() > 0 {
        lemma_selected_indices_bound(states.drop_last(), chosen);
        let rest = selected_indices(states.drop_last(), chosen);
        assert forall|k: int|
            0 <= k < selected_indices(states, chosen).len() implies #[trigger] selected_indices(
            states,
            chosen,
        )[k] < states.len() by {
            if k < rest.len() {
                assert(rest[k] < states.drop_last().len());
            }
        }
    }
}

pub proof fn lemma_edges_of_transitions_index(states: Seq<u16>, ts: Seq<(u16, char, u16)>)
    ensures
        edges_of_transitions(states, ts).len() == ts.len(),
        forall|k: int|
            0 <= k < ts.len() ==> #[trigger] edges_of_transitions(states, ts)[k]
                == edge_of_transition(states, ts[k]),
    decreases ts.len(),
{
    if ts.len() > 0 {
        lemma_edges_of_transitions_index(states, ts.drop_last());
        assert forall|k: int| 0 <= k < ts.len() implies #[trigger] edges_of_transitions(
            states,
            ts,
        )[k] == edge_of_transition(states, ts[k]) by {
            if k < ts.len() - 1 {
                assert(ts.drop_last()[k] == ts[k]);
            }
        }
    }
}

} // verus!
