//! The validated automaton and its two operations: construction from a raw
//! specification, and membership queries over chains.

use vstd::prelude::*;
use vstd::slice::{slice_index_get, slice_to_vec};
use crate::graph::{
    graph_add_edge, graph_add_node, graph_edge_list, graph_edges_from, graph_new,
    graph_node_count, graph_nodes, lemma_out_edges_membership, out_edges,
};
use crate::model::{
    accepts_spec, chain_effective, count_false, edge_in, edge_of_transition,
    edges_of_transitions, eps_reach, eps_reach_from, in_set, lemma_count_false_set_true,
    lemma_edges_of_transitions_index, lemma_eps_reach_from_closed, lemma_eps_reach_from_refl,
    lemma_eps_reach_from_step, lemma_label_index_first, lemma_label_index_props,
    lemma_nat_seq_push, lemma_reaches_bound, lemma_rejects_outside_alphabet,
    lemma_selected_indices_bound, lemma_step_from_intro, nat_seq, reaches, selected_indices,
    step_from, transition_valid, AutView, EPSILON,
};

verus! {

/// The single construction-time error: the first transition that references
/// an undeclared state or an undeclared, non-epsilon symbol, verbatim.
#[derive(Clone, Copy, Debug, PartialEq, Eq)]
pub enum AutomatonError {
    InvalidTransition((u16, char, u16)),
}

/// A validated, immutable automaton over a directed transition multigraph.
pub struct Automaton {
    transitions: petgraph::graph::Graph<u16, char>,
    symbols: Vec<char>,
    initial_states: Vec<usize>,
    accepted_states: Vec<usize>,
}

fn slice_contains_u16(s: &[u16], x: u16) -> (r: bool)
    ensures
        r == s@.contains(x),
{
    let mut i: usize = 0;
    while i < s.len()
        invariant
            i <= s@.len(),
            forall|j: int| 0 <= j < i ==> s@[j] != x,
        decreases s@.len() - i,
    {
        if *slice_index_get(s, i) == x {
            assert(s@.contains(x));
            return true;
        }
        i += 1;
    }
    false
}

fn slice_contains_char(s: &[char], x: char) -> (r: bool)
    ensures
        r == s@.contains(x),
{
    let mut i: usize = 0;
    while i < s.len()
        invariant
            i <= s@.len(),
            forall|j: int| 0 <= j < i ==> s@[j] != x,
        decreases s@.len() - i,
    {
        if *slice_index_get(s, i) == x {
            assert(s@.contains(x));
            return true;
        }
        i += 1;
    }
    false
}

fn vec_contains_char(s: &Vec<char>, x: char) -> (r: bool)
    ensures
        r == s@.contains(x),
{
    let mut i: usize = 0;
    while i < s.len()
        invariant
            i <= s@.len(),
            forall|j: int| 0 <= j < i ==> s@[j] != x,
        decreases s@.len() - i,
    {
        if s[i] == x {
            assert(s@.contains(x));
            return true;
        }
        i += 1;
    }
    false
}

/// The index the builder assigned to the state labeled `x`: the position of
/// the first occurrence of `x` in the declared state list.
fn index_of_label(states: &[u16], x: u16) -> (r: Option<usize>)
    ensures
        match r {
            Some(i) => i < states@.len() && states@[i as int] == x && i as nat
                == crate::model::label_index(states@, x),
            None => !states@.contains(x),
        },
{
    let mut i: usize = 0;
    while i < states.len()
        invariant
            i <= states@.len(),
            forall|j: int| 0 <= j < i ==> states@[j] != x,
        decreases states@.len() - i,
    {
        if *slice_index_get(states, i) == x {
            proof {
                lemma_label_index_first(states@, x, i as int);
            }
            return Some(i);
        }
        i += 1;
    }
    assert(!states@.contains(x));
    None
}

fn make_false_vec(n: usize) -> (r: Vec<bool>)
    ensures
        r@.len() == n as nat,
        forall|j: int| 0 <= j < n ==> !r@[j],
{
    let mut v: Vec<bool> = Vec::new();
    while v.len() < n
        invariant
            v@.len() <= n as nat,
            forall|j: int| 0 <= j < v@.len() ==> !v@[j],
        decreases n - v@.len(),
    {
        v.push(false);
    }
    v
}

impl Automaton {
    pub closed spec fn view(&self) -> AutView {
        AutView {
            state_count: graph_nodes(self.transitions),
            symbols: self.symbols@,
            initial: nat_seq(self.initial_states@),
            accepting: nat_seq(self.accepted_states@),
            edges: graph_edge_list(self.transitions),
        }
    }

    /// The automaton's invariant: its view is well formed.
    pub open spec fn wf(&self) -> bool {
        crate::model::wf_view(self@)
    }

    /// Builds a validated automaton from a raw specification. States are
    /// registered first, in order, each becoming the graph node of its
    /// position; then the transitions are checked and added in input order.
    /// Validation short-circuits: the first invalid transition is returned
    /// verbatim as the error, and nothing after it is examined.
    pub fn new(
        states: &[u16],
        symbols: &[char],
        initial_states: &[u16],
        accepted_states: &[u16],
        transitions: &[(u16, char, u16)],
    ) -> (r: Result<Automaton, AutomatonError>)
        requires
            states@.len() < 0xFFFF_FFFF,
            transitions@.len() < 0xFFFF_FFFF,
        ensures
            r.is_ok() <==> (forall|k: int|
                0 <= k < transitions@.len() ==> transition_valid(
                    states@,
                    symbols@,
                    #[trigger] transitions@[k],
                )),
            r matches Ok(a) ==> a.wf() && a@.state_count == states@.len() && a@.symbols == symbols@
                && a@.initial == selected_indices(states@, initial_states@) && a@.accepting
                == selected_indices(states@, accepted_states@) && a@.edges
                == edges_of_transitions(states@, transitions@),
            forall|k: int|
                0 <= k < transitions@.len() && !transition_valid(
                    states@,
                    symbols@,
                    #[trigger] transitions@[k],
                ) && (forall|j: int|
                    0 <= j < k ==> transition_valid(states@, symbols@, #[trigger] transitions@[j]))
                    ==> r == Err::<Automaton, AutomatonError>(
                    AutomatonError::InvalidTransition(transitions@[k]),
                ),
    {
        let mut g = graph_new();
        let mut initial_idx: Vec<usize> = Vec::new();
        let mut accepted_idx: Vec<usize> = Vec::new();
        let mut i: usize = 0;
        while i < states.len()
            invariant
                i <= states@.len(),
                states@.len() < 0xFFFF_FFFF,
                graph_nodes(g) == i as nat,
                graph_edge_list(g) == Seq::<(nat, char, nat)>::empty(),
                nat_seq(initial_idx@) == selected_indices(
                    states@.take(i as int),
                    initial_states@,
                ),
                nat_seq(accepted_idx@) == selected_indices(
                    states@.take(i as int),
                    accepted_states@,
                ),
            decreases states@.len() - i,
        {
            let label = *slice_index_get(states, i);
            let ix = graph_add_node(&mut g, label);
            let ghost prev_init = initial_idx@;
            let ghost prev_acc = accepted_idx@;
            if slice_contains_u16(initial_states, label) {
                initial_idx.push(ix);
            }
            if slice_contains_u16(accepted_states, label) {
                accepted_idx.push(ix);
            }
            proof {
                let pre = states@.take(i as int + 1);
                assert(pre.drop_last() =~= states@.take(i as int));
                assert(pre.last() == states@[i as int]);
                lemma_nat_seq_push(prev_init, ix);
                lemma_nat_seq_push(prev_acc, ix);
                assert(nat_seq(initial_idx@) =~= selected_indices(pre, initial_states@));
                assert(nat_seq(accepted_idx@) =~= selected_indices(pre, accepted_states@));
            }
            i += 1;
        }
        proof {
            assert(states@.take(states@.len() as int) =~= states@);
        }
        let mut k: usize = 0;
        while k < transitions.len()
            invariant
                k <= transitions@.len(),
                transitions@.len() < 0xFFFF_FFFF,
                states@.len() < 0xFFFF_FFFF,
                graph_nodes(g) == states@.len(),
                graph_edge_list(g) == edges_of_transitions(states@, transitions@.take(k as int)),
                graph_edge_list(g).len() == k as nat,
                forall|j: int|
                    0 <= j < k ==> transition_valid(states@, symbols@, #[trigger] transitions@[j]),
                nat_seq(initial_idx@) == selected_indices(states@, initial_states@),
                nat_seq(accepted_idx@) == selected_indices(states@, accepted_states@),
            decreases transitions@.len() - k,
        {
            let t = *slice_index_get(transitions, k);
            let q0 = index_of_label(states, t.0);
            let q1 = index_of_label(states, t.2);
            let sym_ok = slice_contains_char(symbols, t.1) || t.1 == EPSILON;
            match (q0, q1, sym_ok) {
                (Some(a), Some(b), true) => {
                    graph_add_edge(&mut g, a, b, t.1);
                    proof {
                        let pre = transitions@.take(k as int + 1);
                        assert(pre.drop_last() =~= transitions@.take(k as int));
                        assert(pre.last() == transitions@[k as int]);
                        assert((a as nat, t.1, b as nat) == edge_of_transition(
                            states@,
                            transitions@[k as int],
                        ));
                        assert(graph_edge_list(g) =~= edges_of_transitions(states@, pre));
                        lemma_edges_of_transitions_index(states@, pre);
                    }
                    k += 1;
                },
                _ => {
                    proof {
                        assert(!transition_valid(states@, symbols@, transitions@[k as int]));
                    }
                    return Err(AutomatonError::InvalidTransition(t));
                },
            }
        }
        proof {
            assert(transitions@.take(transitions@.len() as int) =~= transitions@);
        }
        let aut = Automaton {
            transitions: g,
            symbols: slice_to_vec(symbols),
            initial_states: initial_idx,
            accepted_states: accepted_idx,
        };
        proof {
            lemma_edges_of_transitions_index(states@, transitions@);
            assert forall|k2: int| 0 <= k2 < aut@.edges.len() implies (#[trigger] aut@.edges[k2]).0
                < aut@.state_count && aut@.edges[k2].2 < aut@.state_count && (aut@.symbols.contains(
                aut@.edges[k2].1,
            ) || aut@.edges[k2].1 == EPSILON) by {
                let t = transitions@[k2];
                assert(transition_valid(states@, symbols@, t));
                assert(aut@.edges[k2] == edge_of_transition(states@, t));
                lemma_label_index_props(states@, t.0);
                lemma_label_index_props(states@, t.2);
            }
            lemma_selected_indices_bound(states@, initial_states@);
            lemma_selected_indices_bound(states@, accepted_states@);
            assert(aut.wf());
        }
        Ok(aut)
    }

    /// One saturation pass of the epsilon closure: every state reachable by
    /// one epsilon edge from a marked state is marked. Reports whether any
    /// new state was marked; when none was, the marking is closed under
    /// epsilon edges.
    fn eps_pass(&self, cur: Vec<bool>, seed: Ghost<Seq<bool>>) -> (res: (Vec<bool>, bool))
        requires
            self.wf(),
            cur@.len() == self@.state_count,
            forall|t: nat| #[trigger] in_set(cur@, t) ==> eps_reach_from(self@.edges, seed@, t),
        ensures
            res.0@.len() == cur@.len(),
            forall|p: nat| #[trigger] in_set(cur@, p) ==> in_set(res.0@, p),
            forall|t: nat| #[trigger] in_set(res.0@, t) ==> eps_reach_from(self@.edges, seed@, t),
            !res.1 ==> res.0@ == cur@ && (forall|q: nat, t: nat|
                in_set(cur@, q) && #[trigger] edge_in(self@.edges, q, EPSILON, t) ==> in_set(
                    cur@,
                    t,
                )),
            res.1 ==> count_false(res.0@) < count_false(cur@),
            count_false(res.0@) <= count_false(cur@),
    {
        let ghost entry = cur@;
        let ghost edges = self@.edges;
        let n = cur.len();
        let mut cur = cur;
        let mut changed = false;
        let mut q: usize = 0;
        while q < n
            invariant
                self.wf(),
                edges == self@.edges,
                cur@.len() == n as nat,
                entry.len() == n as nat,
                n as nat == self@.state_count,
                q <= n,
                forall|p: nat| #[trigger] in_set(entry, p) ==> in_set(cur@, p),
                forall|t: nat| #[trigger] in_set(cur@, t) ==> eps_reach_from(edges, seed@, t),
                count_false(cur@) <= count_false(entry),
                changed ==> count_false(cur@) < count_false(entry),
                !changed ==> cur@ == entry && (forall|p: nat, t: nat|
                    p < q as nat && in_set(entry, p) && #[trigger] edge_in(edges, p, EPSILON, t)
                        ==> in_set(entry, t)),
            decreases n - q,
        {
            if cur[q] {
                let outs = graph_edges_from(&self.transitions, q);
                let ghost outs_n = outs@.map_values(|p: (char, usize)| (p.0, p.1 as nat));
                let mut j: usize = 0;
                while j < outs.len()
                    invariant
                        self.wf(),
                        edges == self@.edges,
                        cur@.len() == n as nat,
                        entry.len() == n as nat,
                        n as nat == self@.state_count,
                        q < n,
                        j <= outs@.len(),
                        in_set(cur@, q as nat),
                        outs_n == outs@.map_values(|p: (char, usize)| (p.0, p.1 as nat)),
                        outs_n.to_multiset() == out_edges(edges, q as nat),
                        forall|p: nat| #[trigger] in_set(entry, p) ==> in_set(cur@, p),
                        forall|t: nat|
                            #[trigger] in_set(cur@, t) ==> eps_reach_from(edges, seed@, t),
                        count_false(cur@) <= count_false(entry),
                        changed ==> count_false(cur@) < count_false(entry),
                        !changed ==> cur@ == entry && (forall|p: nat, t: nat|
                            p < q as nat && in_set(entry, p) && #[trigger] edge_in(
                                edges,
                                p,
                                EPSILON,
                                t,
                            ) ==> in_set(entry, t)) && (forall|jj: int|
                            0 <= jj < j && (#[trigger] outs@[jj]).0 == EPSILON ==> in_set(
                                entry,
                                outs@[jj].1 as nat,
                            )),
                    decreases outs@.len() - j,
                {
                    let pair = outs[j];
                    let sym = pair.0;
                    let tgt = pair.1;
                    if sym == EPSILON {
                        proof {
                            broadcast use vstd::seq_lib::group_to_multiset_ensures;

                            assert(outs_n[j as int] == (sym, tgt as nat));
                            assert(outs_n.contains((sym, tgt as nat)));
                            assert(outs_n.to_multiset().count((sym, tgt as nat)) > 0);
                            lemma_out_edges_membership(edges, q as nat, sym, tgt as nat);
                            assert(edge_in(edges, q as nat, EPSILON, tgt as nat));
                            let e = (q as nat, EPSILON, tgt as nat);
                            let k = choose|k: int| 0 <= k < edges.len() && edges[k] == e;
                            assert((tgt as nat) < n as nat);
                        }
                        if !cur[tgt] {
                            let ghost before = cur@;
                            cur.set(tgt, true);
                            changed = true;
                            proof {
                                lemma_count_false_set_true(before, tgt as int);
                                lemma_eps_reach_from_step(edges, seed@, q as nat, tgt as nat);
                                assert forall|t: nat| #[trigger] in_set(cur@, t) implies
                                    eps_reach_from(edges, seed@, t) by {
                                    if t != tgt as nat {
                                        assert(in_set(before, t));
                                    }
                                }
                            }
                        }
                    }
                    j += 1;
                }
                proof {
                    if !changed {
                        assert forall|t: nat|
                            in_set(entry, q as nat) && #[trigger] edge_in(
                                edges,
                                q as nat,
                                EPSILON,
                                t,
                            ) implies in_set(entry, t) by {
                            broadcast use vstd::seq_lib::group_to_multiset_ensures;

                            lemma_out_edges_membership(edges, q as nat, EPSILON, t);
                            assert(out_edges(edges, q as nat).count((EPSILON, t)) > 0);
                            assert(outs_n.to_multiset().count((EPSILON, t)) > 0);
                            assert(outs_n.contains((EPSILON, t)));
                            let jj = choose|jj: int|
                                0 <= jj < outs_n.len() && outs_n[jj] == (EPSILON, t);
                            assert(outs@[jj].0 == EPSILON && outs@[jj].1 as nat == t);
                        }
                    }
                }
            }
            q += 1;
        }
        (cur, changed)
    }

    /// The epsilon closure of a state set: saturation passes are repeated
    /// until no pass marks a new state. Termination is by the number of
    /// still-unmarked states, which every continuing pass strictly shrinks.
    fn eps_close(&self, seed: Vec<bool>) -> (r: Vec<bool>)
        requires
            self.wf(),
            seed@.len() == self@.state_count,
        ensures
            r@.len() == self@.state_count,
            forall|t: nat| #[trigger] in_set(r@, t) ==> eps_reach_from(self@.edges, seed@, t),
            forall|t: nat| #[trigger] eps_reach_from(self@.edges, seed@, t) ==> in_set(r@, t),
    {
        let ghost seed_v = seed@;
        let ghost edges = self@.edges;
        let mut cur = seed;
        proof {
            assert forall|t: nat| #[trigger] in_set(cur@, t) implies eps_reach_from(
                edges,
                seed_v,
                t,
            ) by {
                lemma_eps_reach_from_refl(edges, seed_v, t);
            }
        }
        loop
            invariant
                self.wf(),
                edges == self@.edges,
                cur@.len() == self@.state_count,
                seed_v.len() == self@.state_count,
                forall|p: nat| #[trigger] in_set(seed_v, p) ==> in_set(cur@, p),
                forall|t: nat| #[trigger] in_set(cur@, t) ==> eps_reach_from(edges, seed_v, t),
            ensures
                cur@.len() == self@.state_count,
                forall|p: nat| #[trigger] in_set(seed_v, p) ==> in_set(cur@, p),
                forall|t: nat| #[trigger] in_set(cur@, t) ==> eps_reach_from(edges, seed_v, t),
                forall|q: nat, t: nat|
                    in_set(cur@, q) && #[trigger] edge_in(edges, q, EPSILON, t) ==> in_set(
                        cur@,
                        t,
                    ),
            decreases count_false(cur@),
        {
            let res = self.eps_pass(cur, Ghost(seed_v));
            cur = res.0;
            if !res.1 {
                break ;
            }
        }
        proof {
            assert forall|t: nat| #[trigger] eps_reach_from(edges, seed_v, t) implies in_set(
                cur@,
                t,
            ) by {
                lemma_eps_reach_from_closed(edges, seed_v, cur@, t);
            }
        }
        cur
    }

    /// One consuming step: the states an edge labeled `sym` leads to from a
    /// marked state.
    fn step_symbol(&self, cur: &Vec<bool>, sym: char) -> (r: Vec<bool>)
        requires
            self.wf(),
            cur@.len() == self@.state_count,
        ensures
            r@.len() == self@.state_count,
            forall|t: nat| #[trigger] in_set(r@, t) ==> step_from(self@.edges, cur@, sym, t),
            forall|t: nat| #[trigger] step_from(self@.edges, cur@, sym, t) ==> in_set(r@, t),
    {
        let ghost edges = self@.edges;
        let n = cur.len();
        let mut next = make_false_vec(n);
        let mut q: usize = 0;
        while q < n
            invariant
                self.wf(),
                edges == self@.edges,
                cur@.len() == n as nat,
                next@.len() == n as nat,
                n as nat == self@.state_count,
                q <= n,
                forall|t: nat| #[trigger] in_set(next@, t) ==> step_from(edges, cur@, sym, t),
                forall|p: nat, t: nat|
                    p < q as nat && in_set(cur@, p) && #[trigger] edge_in(edges, p, sym, t)
                        ==> in_set(next@, t),
            decreases n - q,
        {
            if cur[q] {
                let outs = graph_edges_from(&self.transitions, q);
                let ghost outs_n = outs@.map_values(|p: (char, usize)| (p.0, p.1 as nat));
                let mut j: usize = 0;
                while j < outs.len()
                    invariant
                        self.wf(),
                        edges == self@.edges,
                        cur@.len() == n as nat,
                        next@.len() == n as nat,
                        n as nat == self@.state_count,
                        q < n,
                        j <= outs@.len(),
                        in_set(cur@, q as nat),
                        outs_n == outs@.map_values(|p: (char, usize)| (p.0, p.1 as nat)),
                        outs_n.to_multiset() == out_edges(edges, q as nat),
                        forall|t: nat|
                            #[trigger] in_set(next@, t) ==> step_from(edges, cur@, sym, t),
                        forall|p: nat, t: nat|
                            p < q as nat && in_set(cur@, p) && #[trigger] edge_in(
                                edges,
                                p,
                                sym,
                                t,
                            ) ==> in_set(next@, t),
                        forall|jj: int|
                            0 <= jj < j && (#[trigger] outs@[jj]).0 == sym ==> in_set(
                                next@,
                                outs@[jj].1 as nat,
                            ),
                    decreases outs@.len() - j,
                {
                    let pair = outs[j];
                    if pair.0 == sym {
                        let tgt = pair.1;
                        proof {
                            broadcast use vstd::seq_lib::group_to_multiset_ensures;

                            assert(outs_n[j as int] == (sym, tgt as nat));
                            assert(outs_n.contains((sym, tgt as nat)));
                            assert(outs_n.to_multiset().count((sym, tgt as nat)) > 0);
                            lemma_out_edges_membership(edges, q as nat, sym, tgt as nat);
                            assert(edge_in(edges, q as nat, sym, tgt as nat));
                            let e = (q as nat, sym, tgt as nat);
                            let k = choose|k: int| 0 <= k < edges.len() && edges[k] == e;
                            assert((tgt as nat) < n as nat);
                        }
                        let ghost before = next@;
                        next.set(tgt, true);
                        proof {
                            lemma_step_from_intro(edges, cur@, q as nat, sym, tgt as nat);
                            assert forall|t: nat| #[trigger] in_set(next@, t) implies step_from(
                                edges,
                                cur@,
                                sym,
                                t,
                            ) by {
                                if t != tgt as nat {
                                    assert(in_set(before, t));
                                }
                            }
                        }
                    }
                    j += 1;
                }
                proof {
                    assert forall|t: nat| #[trigger] edge_in(edges, q as nat, sym, t) implies
                        in_set(next@, t) by {
                        broadcast use vstd::seq_lib::group_to_multiset_ensures;

                        lemma_out_edges_membership(edges, q as nat, sym, t);
                        assert(out_edges(edges, q as nat).count((sym, t)) > 0);
                        assert(outs_n.to_multiset().count((sym, t)) > 0);
                        assert(outs_n.contains((sym, t)));
                        let jj = choose|jj: int| 0 <= jj < outs_n.len() && outs_n[jj] == (sym, t);
                        assert(outs@[jj].0 == sym && outs@[jj].1 as nat == t);
                    }
                }
            }
            q += 1;
        }
        proof {
            assert forall|t: nat| #[trigger] step_from(edges, cur@, sym, t) implies in_set(
                next@,
                t,
            ) by {
                reveal(step_from);
                let p = choose|p: nat| in_set(cur@, p) && #[trigger] edge_in(edges, p, sym, t);
            }
        }
        next
    }

    /// The characteristic vector of the initial-state set.
    fn initial_seed(&self) -> (r: Vec<bool>)
        requires
            self.wf(),
        ensures
            r@.len() == self@.state_count,
            forall|t: nat| #[trigger] in_set(r@, t) <==> self@.initial.contains(t),
    {
        let n = graph_node_count(&self.transitions);
        let mut seed = make_false_vec(n);
        let mut j: usize = 0;
        while j < self.initial_states.len()
            invariant
                self.wf(),
                n as nat == self@.state_count,
                seed@.len() == n as nat,
                j <= self.initial_states@.len(),
                forall|t: nat|
                    #[trigger] in_set(seed@, t) <==> exists|jj: int|
                        0 <= jj < j && (#[trigger] self.initial_states@[jj]) as nat == t,
            decreases self.initial_states@.len() - j,
        {
            let s = self.initial_states[j];
            proof {
                assert(self@.initial[j as int] == (s as nat));
                assert(self@.initial[j as int] < self@.state_count);
            }
            let ghost before = seed@;
            seed.set(s, true);
            proof {
                assert forall|t: nat| #[trigger] in_set(seed@, t) implies exists|jj: int|
                    0 <= jj < j + 1 && (#[trigger] self.initial_states@[jj]) as nat == t by {
                    if t == s as nat {
                        assert(self.initial_states@[j as int] as nat == t);
                    } else {
                        assert(in_set(before, t));
                    }
                }
                assert forall|t: nat|
                    (exists|jj: int|
                        0 <= jj < j + 1 && (#[trigger] self.initial_states@[jj]) as nat
                            == t) implies #[trigger] in_set(seed@, t) by {
                    let jj = choose|jj: int|
                        0 <= jj < j + 1 && (#[trigger] self.initial_states@[jj]) as nat == t;
                    if jj < j {
                        assert(in_set(before, t));
                        assert(in_set(seed@, t));
                    } else {
                        assert(t == s as nat);
                    }
                }
            }
            j += 1;
        }
        proof {
            assert forall|t: nat| #[trigger] in_set(seed@, t) <==> self@.initial.contains(t) by {
                if in_set(seed@, t) {
                    let jj = choose|jj: int|
                        0 <= jj < self.initial_states@.len()
                            && (#[trigger] self.initial_states@[jj]) as nat == t;
                    assert(self@.initial[jj] == t);
                }
                if self@.initial.contains(t) {
                    let jj = choose|jj: int|
                        0 <= jj < self@.initial.len() && self@.initial[jj] == t;
                    assert(self.initial_states@[jj] as nat == t);
                }
            }
        }
        seed
    }

    /// Answers whether `chain` belongs to the automaton's language. Any
    /// occurrence of the epsilon marker forces the chain to be read as the
    /// empty chain; otherwise a chain with an undeclared symbol is rejected
    /// without a search. The search itself advances a set of reachable
    /// states, closed under epsilon edges, across the chain.
    pub fn verify_chain(&self, chain: &[char]) -> (r: bool)
        requires
            self.wf(),
        ensures
            r == accepts_spec(self@, chain_effective(chain@)),
    {
        let ghost eff = chain_effective(chain@);
        let has_marker = slice_contains_char(chain, EPSILON);
        if !has_marker {
            let mut i: usize = 0;
            while i < chain.len()
                invariant
                    self.wf(),
                    !chain@.contains(EPSILON),
                    i <= chain@.len(),
                    forall|j: int| 0 <= j < i ==> self@.symbols.contains(#[trigger] chain@[j]),
                decreases chain@.len() - i,
            {
                if !vec_contains_char(&self.symbols, *slice_index_get(chain, i)) {
                    proof {
                        lemma_rejects_outside_alphabet(self@, chain@, i as int);
                    }
                    return false;
                }
                i += 1;
            }
        }
        let m: usize = if has_marker {
            0
        } else {
            chain.len()
        };
        proof {
            if has_marker {
                assert(eff =~= Seq::<char>::empty());
            } else {
                assert(eff =~= chain@);
            }
        }
        let seed = self.initial_seed();
        let ghost seed_v = seed@;
        let mut cur = self.eps_close(seed);
        proof {
            assert(eff.take(0) =~= Seq::<char>::empty());
            assert forall|t: nat| #[trigger] in_set(cur@, t) <==> reaches(
                self@,
                eff.take(0),
                t,
            ) by {
                reveal(crate::model::reaches);
                reveal(crate::model::eps_reach_from);
                if in_set(cur@, t) {
                    assert(eps_reach_from(self@.edges, seed_v, t));
                    let s = choose|s: nat|
                        in_set(seed_v, s) && #[trigger] eps_reach(self@.edges, s, t);
                    assert(self@.initial.contains(s));
                    assert(reaches(self@, eff.take(0), t));
                }
                if reaches(self@, eff.take(0), t) {
                    let s = choose|s: nat|
                        self@.initial.contains(s) && #[trigger] eps_reach(self@.edges, s, t);
                    assert(in_set(seed_v, s));
                    assert(eps_reach_from(self@.edges, seed_v, t));
                }
            }
        }
        let mut i: usize = 0;
        while i < m
            invariant
                self.wf(),
                cur@.len() == self@.state_count,
                eff == chain_effective(chain@),
                m as nat == eff.len(),
                m as nat <= chain@.len(),
                i <= m,
                m > 0 ==> eff == chain@,
                forall|t: nat|
                    #[trigger] in_set(cur@, t) <==> reaches(self@, eff.take(i as int), t),
            decreases m - i,
        {
            let c = *slice_index_get(chain, i);
            proof {
                assert(c == eff[i as int]);
            }
            let stepped = self.step_symbol(&cur, c);
            let ghost stepped_v = stepped@;
            let closed = self.eps_close(stepped);
            proof {
                let pre = eff.take(i as int + 1);
                assert(pre.drop_last() =~= eff.take(i as int));
                assert(pre.last() == eff[i as int]);
                assert forall|t: nat| #[trigger] in_set(closed@, t) <==> reaches(
                    self@,
                    pre,
                    t,
                ) by {
                    reveal(crate::model::reaches);
                    reveal(crate::model::eps_reach_from);
                    reveal(crate::model::step_from);
                    if in_set(closed@, t) {
                        assert(eps_reach_from(self@.edges, stepped_v, t));
                        let mid = choose|s: nat|
                            in_set(stepped_v, s) && #[trigger] eps_reach(self@.edges, s, t);
                        assert(step_from(self@.edges, cur@, c, mid));
                        let p = choose|p: nat|
                            in_set(cur@, p) && #[trigger] edge_in(self@.edges, p, c, mid);
                        assert(reaches(self@, pre.drop_last(), p));
                        assert(edge_in(self@.edges, p, pre.last(), mid));
                        assert(reaches(self@, pre, t));
                    }
                    if reaches(self@, pre, t) {
                        let (p, mid) = choose|p: nat, mid: nat|
                            reaches(self@, pre.drop_last(), p) && #[trigger] edge_in(
                                self@.edges,
                                p,
                                pre.last(),
                                mid,
                            ) && eps_reach(self@.edges, mid, t);
                        lemma_reaches_bound(self@, pre.drop_last(), p);
                        assert(in_set(cur@, p));
                        assert(step_from(self@.edges, cur@, c, mid));
                        assert(in_set(stepped_v, mid));
                        assert(eps_reach_from(self@.edges, stepped_v, t));
                        assert(in_set(closed@, t));
                    }
                }
            }
            cur = closed;
            i += 1;
        }
        proof {
            assert(eff.take(m as int) =~= eff);
        }
        let mut j: usize = 0;
        while j < self.accepted_states.len()
            invariant
                self.wf(),
                cur@.len() == self@.state_count,
                eff == chain_effective(chain@),
                j <= self.accepted_states@.len(),
                forall|t: nat| #[trigger] in_set(cur@, t) <==> reaches(self@, eff, t),
                forall|jj: int|
                    0 <= jj < j ==> !in_set(cur@, (#[trigger] self.accepted_states@[jj]) as nat),
            decreases self.accepted_states@.len() - j,
        {
            let a = self.accepted_states[j];
            proof {
                assert(self@.accepting[j as int] == (a as nat));
                assert(self@.accepting[j as int] < self@.state_count);
            }
            if cur[a] {
                proof {
                    assert(in_set(cur@, a as nat));
                    assert(reaches(self@, eff, a as nat));
                    assert(self@.accepting.contains(a as nat));
                    assert(accepts_spec(self@, eff));
                }
                return true;
            }
            j += 1;
        }
        proof {
            if accepts_spec(self@, eff) {
                let t = choose|t: nat| #[trigger] reaches(self@, eff, t)
                    && self@.accepting.contains(t);
                lemma_reaches_bound(self@, eff, t);
                assert(in_set(cur@, t));
                let jj = choose|jj: int|
                    0 <= jj < self@.accepting.len() && self@.accepting[jj] == t;
                assert(self.accepted_states@[jj] as nat == t);
            }
        }
        false
    }
}

} // verus!
