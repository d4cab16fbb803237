//! Runs an automaton on a string by tracking the set of states it may be in.
use crate::nfa::{
    get_all_state_references, injective, lemma_numbering, lemma_numbering_len, number_states, numbering,
    rename_nfa_with_map, Nfa, NfaModel, State, EPSILON,
};
use vstd::prelude::*;
use vstd::string::*;

verus! {

/// `path` is a walk of epsilon transitions in `m`.
pub open spec fn is_eps_path(m: NfaModel, path: Seq<State>) -> bool {
    &&& path.len() >= 1
    &&& forall|k: int| 0 <= k < path.len() - 1 ==> m.has_edge(#[trigger] path[k], EPSILON, path[k + 1])
}

/// `q` is reached from `p` by epsilon transitions alone (in zero or more steps).
pub open spec fn eps_reach(m: NfaModel, p: State, q: State) -> bool {
    exists|path: Seq<State>| #[trigger] is_eps_path(m, path) && path[0] == p && path.last() == q
}

/// The states reached by epsilon transitions from a state of `s`.
pub open spec fn closure(m: NfaModel, s: Set<State>) -> Set<State> {
    Set::new(|q: State| exists|p: State| s.contains(p) && #[trigger] eps_reach(m, p, q))
}

/// The states reached from a state of `s` by one transition labelled `c`.
pub open spec fn step(m: NfaModel, s: Set<State>, c: char) -> Set<State> {
    Set::new(|q: State| exists|p: State| s.contains(p) && #[trigger] m.has_edge(p, c, q))
}

/// The states the automaton may be in after reading `w`.
pub open spec fn active(m: NfaModel, w: Seq<char>) -> Set<State>
    decreases w.len(),
{
    if w.len() == 0 {
        closure(m, set![m.init])
    } else {
        closure(m, step(m, active(m, w.drop_last()), w.last()))
    }
}

/// The automaton accepts `w`.
pub open spec fn accepts(m: NfaModel, w: Seq<char>) -> bool {
    active(m, w).contains(m.acc)
}

/// The set of states whose flag is raised.
pub open spec fn flagged(v: Seq<bool>) -> Set<State> {
    Set::new(|q: State| (q as int) < v.len() && v[q as int])
}

/// The number of raised flags.
pub open spec fn count_true(v: Seq<bool>) -> nat
    decreases v.len(),
{
    if v.len() == 0 {
        0
    } else {
        count_true(v.drop_last()) + if v.last() {
            1nat
        } else {
            0nat
        }
    }
}

proof fn lemma_count_true_bound(v: Seq<bool>)
    ensures
        count_true(v) <= v.len(),
    decreases v.len(),
{
    if v.len() > 0 {
        lemma_count_true_bound(v.drop_last());
    }
}

proof fn lemma_count_true_raise(v: Seq<bool>, k: int)
    requires
        0 <= k < v.len(),
        !v[k],
    ensures
        count_true(v.update(k, true)) == count_true(v) + 1,
    decreases v.len(),
{
    let u = v.update(k, true);
    if k < v.len() - 1 {
        assert(u.drop_last() =~= v.drop_last().update(k, true));
        lemma_count_true_raise(v.drop_last(), k);
    } else {
        assert(u.drop_last() =~= v.drop_last());
    }
}

/// A set closed under epsilon transitions holds the end of every epsilon walk
/// that starts in it.
proof fn lemma_closed_holds_walk(m: NfaModel, s: Set<State>, path: Seq<State>)
    requires
        is_eps_path(m, path),
        s.contains(path[0]),
        forall|p: State, q: State| s.contains(p) && #[trigger] m.has_edge(p, EPSILON, q) ==> s.contains(q),
    ensures
        s.contains(path.last()),
    decreases path.len(),
{
    if path.len() > 1 {
        let p = path.drop_last();
        assert(is_eps_path(m, p)) by {
            assert forall|k: int| 0 <= k < p.len() - 1 implies m.has_edge(#[trigger] p[k], EPSILON, p[k + 1]) by {
                assert(path[k] == p[k]);
            }
        }
        lemma_closed_holds_walk(m, s, p);
        assert(m.has_edge(path[path.len() - 2], EPSILON, path[path.len() - 1]));
    }
}

/// Makes `*states` the epsilon closure of the states it flags.
#[verifier::rlimit(60)]
pub fn do_epsilon_closure(states: &mut Vec<bool>, nfa: &Nfa)
    requires
        nfa@.bounded(0, old(states)@.len() as nat),
    ensures
        final(states)@.len() == old(states)@.len(),
        flagged(final(states)@) == closure(nfa@, flagged(old(states)@)),
{
    let ghost m = nfa@;
    let ghost start = flagged(states@);
    let n = states.len();
    let mut states_to_visit: Vec<State> = Vec::new();
    let mut i: usize = 0;
    while i < n
        invariant
            0 <= i <= n,
            states@.len() == n,
            start == flagged(states@),
            states_to_visit@.len() == count_true(states@.take(i as int)),
            forall|k: int| 0 <= k < states_to_visit@.len() ==> (#[trigger] states_to_visit@[k]) < i
                && states@[states_to_visit@[k] as int],
            forall|q: State| q < i && #[trigger] states@[q as int] ==> states_to_visit@.contains(q),
        decreases n - i,
    {
        assert(states@.take(i + 1).drop_last() =~= states@.take(i as int));
        if states[i] {
            let ghost queue_before = states_to_visit@;
            states_to_visit.push(i);
            assert(states_to_visit@[states_to_visit@.len() - 1] == i);
            assert forall|q: State| q < i + 1 && #[trigger] states@[q as int] implies states_to_visit@.contains(q) by {
                if q != i {
                    let k = choose|k: int| 0 <= k < queue_before.len() && queue_before[k] == q;
                    assert(states_to_visit@[k] == q);
                }
            }
        }
        i += 1;
    }
    assert(states@.take(n as int) =~= states@);
    proof {
        assert forall|q: State| start.contains(q) implies #[trigger] eps_reach(m, q, q) by {
            assert(is_eps_path(m, seq![q]));
        }
        assert forall|q: State| (q as int) < n && #[trigger] states@[q as int] implies closure(
            m,
            start,
        ).contains(q) by {
            assert(start.contains(q));
            assert(eps_reach(m, q, q));
        }
    }
    let mut head: usize = 0;
    while head < states_to_visit.len()
        invariant
            nfa@ == m,
            m.bounded(0, n as nat),
            states@.len() == n,
            0 <= head <= states_to_visit@.len(),
            states_to_visit@.len() == count_true(states@),
            forall|q: State| #[trigger] start.contains(q) ==> (q as int) < n && states@[q as int],
            forall|q: State| (q as int) < n && #[trigger] states@[q as int] ==> closure(m, start).contains(q),
            forall|k: int| 0 <= k < states_to_visit@.len() ==> (#[trigger] states_to_visit@[k]) < n
                && states@[states_to_visit@[k] as int],
            forall|q: State| (q as int) < n && #[trigger] states@[q as int] ==> states_to_visit@.contains(q),
            forall|k: int, t: State|
                0 <= k < head && #[trigger] m.has_edge(states_to_visit@[k], EPSILON, t) ==> (t as int) < n && states@[t as int],
        decreases n - head,
    {
        proof {
            lemma_count_true_bound(states@);
        }
        let s = states_to_visit[head];
        let mut e: usize = 0;
        while e < nfa.transitions.len()
            invariant
                nfa@ == m,
                m.bounded(0, n as nat),
                    states@.len() == n,
                0 <= head < states_to_visit@.len(),
                s == states_to_visit@[head as int],
                0 <= e <= nfa.transitions.len(),
                states_to_visit@.len() == count_true(states@),
                forall|q: State| #[trigger] start.contains(q) ==> (q as int) < n && states@[q as int],
                forall|q: State| (q as int) < n && #[trigger] states@[q as int] ==> closure(m, start).contains(q),
                forall|k: int| 0 <= k < states_to_visit@.len() ==> (#[trigger] states_to_visit@[k]) < n
                    && states@[states_to_visit@[k] as int],
                forall|q: State| (q as int) < n && #[trigger] states@[q as int] ==> states_to_visit@.contains(q),
                forall|k: int, t: State|
                    0 <= k < head && #[trigger] m.has_edge(states_to_visit@[k], EPSILON, t) ==> (t as int) < n && states@[t as int],
                forall|a: int, b: int|
                    #![trigger m.trans[a].1[b]]
                    0 <= a < e && 0 <= b < m.trans[a].1.len() && m.trans[a].0 == s && m.trans[a].1[b].0 == EPSILON
                        ==> states@[m.trans[a].1[b].1 as int],
            decreases nfa.transitions.len() - e,
        {
            let entry = &nfa.transitions[e];
            assert(m.trans[e as int] == (entry.0, entry.1@));
            assert(m.trans[e as int].0 == entry.0);
        assert(m.trans[e as int].0 == entry.0);
            if entry.0 == s {
                let mut j: usize = 0;
                while j < entry.1.len()
                    invariant
                        nfa@ == m,
                        m.bounded(0, n as nat),
                                    states@.len() == n,
                        0 <= head < states_to_visit@.len(),
                        s == states_to_visit@[head as int],
                        0 <= e < nfa.transitions.len(),
                        m.trans[e as int] == (entry.0, entry.1@),
                        entry.0 == s,
                        0 <= j <= entry.1.len(),
                        states_to_visit@.len() == count_true(states@),
                        forall|q: State| #[trigger] start.contains(q) ==> (q as int) < n && states@[q as int],
                        forall|q: State| (q as int) < n && #[trigger] states@[q as int] ==> closure(m, start).contains(q),
                        forall|k: int| 0 <= k < states_to_visit@.len() ==> (#[trigger] states_to_visit@[k]) < n
                            && states@[states_to_visit@[k] as int],
                        forall|q: State| (q as int) < n && #[trigger] states@[q as int] ==> states_to_visit@.contains(q),
                        forall|k: int, t: State|
                            0 <= k < head && #[trigger] m.has_edge(states_to_visit@[k], EPSILON, t) ==> (t as int) < n && states@[t as int],
                        forall|a: int, b: int|
                            #![trigger m.trans[a].1[b]]
                            0 <= a < e && 0 <= b < m.trans[a].1.len() && m.trans[a].0 == s && m.trans[a].1[b].0 == EPSILON
                                ==> states@[m.trans[a].1[b].1 as int],
                        forall|b: int|
                            0 <= b < j && (#[trigger] m.trans[e as int].1[b]).0 == EPSILON
                                ==> states@[m.trans[e as int].1[b].1 as int],
                    decreases entry.1.len() - j,
                {
                    let (c, t) = entry.1[j];
                    assert(m.trans[e as int].1[j as int] == (c, t));
                    if c == EPSILON && !states[t] {
                        proof {
                            assert(states@[s as int]);
                            assert(closure(m, start).contains(s));
                            let p = choose|p: State| start.contains(p) && #[trigger] eps_reach(m, p, s);
                            let path = choose|path: Seq<State>|
                                #[trigger] is_eps_path(m, path) && path[0] == p && path.last() == s;
                            let path2 = path.push(t);
                            assert(m.has_edge(s, EPSILON, t));
                            assert forall|k: int| 0 <= k < path2.len() - 1 implies m.has_edge(
                                #[trigger] path2[k],
                                EPSILON,
                                path2[k + 1],
                            ) by {
                                if k < path.len() - 1 {
                                    assert(path2[k] == path[k] && path2[k + 1] == path[k + 1]);
                                }
                            }
                            assert(is_eps_path(m, path2));
                            assert(eps_reach(m, p, t));
                            lemma_count_true_raise(states@, t as int);
                        }
                        let ghost queue_before = states_to_visit@;
                        let ghost states_before = states@;
                        states.set(t, true);
                        states_to_visit.push(t);
                        assert(states_to_visit@[states_to_visit@.len() - 1] == t);
                        assert forall|q: State| (q as int) < n && #[trigger] states@[q as int] implies states_to_visit@.contains(q) by {
                            if q != t {
                                let k = choose|k: int| 0 <= k < queue_before.len() && queue_before[k] == q;
                                assert(states_to_visit@[k] == q);
                            }
                        }
                        assert forall|k: int, t2: State|
                            0 <= k < head && #[trigger] m.has_edge(states_to_visit@[k], EPSILON, t2) implies (t2 as int) < n && states@[t2 as int] by {
                            assert(states_to_visit@[k] == queue_before[k]);
                            assert(states_before[t2 as int]);
                        }
                    }
                    j += 1;
                }
            }
            e += 1;
        }
        proof {
            assert forall|k: int, t: State|
                0 <= k < head + 1 && #[trigger] m.has_edge(states_to_visit@[k], EPSILON, t) implies (t as int) < n && states@[t as int] by {
                if k == head {
                    let (a, b) = choose|a: int, b: int|
                        #![trigger m.trans[a].1[b]]
                        0 <= a < m.trans.len() && 0 <= b < m.trans[a].1.len() && m.trans[a].0 == s
                            && m.trans[a].1[b] == (EPSILON, t);
                }
            }
        }
        head += 1;
    }
    proof {
        let fin = flagged(states@);
        assert forall|p: State, q: State| fin.contains(p) && #[trigger] m.has_edge(p, EPSILON, q) implies fin.contains(q) by {
            let k = choose|k: int| 0 <= k < states_to_visit@.len() && states_to_visit@[k] == p;
            assert(m.has_edge(states_to_visit@[k], EPSILON, q));
            let (a, b) = choose|a: int, b: int|
                #![trigger m.trans[a].1[b]]
                0 <= a < m.trans.len() && 0 <= b < m.trans[a].1.len() && m.trans[a].0 == p
                    && m.trans[a].1[b] == (EPSILON, q);
            assert(q < n);
        }
        assert forall|q: State| closure(m, start).contains(q) implies fin.contains(q) by {
            let p = choose|p: State| start.contains(p) && #[trigger] eps_reach(m, p, q);
            let path = choose|path: Seq<State>| #[trigger] is_eps_path(m, path) && path[0] == p && path.last() == q;
            lemma_closed_holds_walk(m, fin, path);
        }
        assert(fin =~= closure(m, start));
    }
}

/// Replaces `*states` by the states reached from it by one transition
/// labelled `next_char`.
pub fn do_transition(states: &mut Vec<bool>, nfa: &Nfa, next_char: char)
    requires
        nfa@.bounded(0, old(states)@.len() as nat),
    ensures
        final(states)@.len() == old(states)@.len(),
        flagged(final(states)@) == step(nfa@, flagged(old(states)@), next_char),
{
    let ghost m = nfa@;
    let n = states.len();
    let mut new_states: Vec<bool> = Vec::new();
    while new_states.len() < n
        invariant
            new_states@.len() <= n,
            forall|k: int| 0 <= k < new_states@.len() ==> !#[trigger] new_states@[k],
        decreases n - new_states@.len(),
    {
        new_states.push(false);
    }
    let mut e: usize = 0;
    while e < nfa.transitions.len()
        invariant
            nfa@ == m,
            m.bounded(0, n as nat),
            states@.len() == n,
            new_states@.len() == n,
            0 <= e <= nfa.transitions.len(),
            forall|q: State| (q as int) < n && #[trigger] new_states@[q as int]
                ==> step(m, flagged(states@), next_char).contains(q),
            forall|a: int, b: int|
                #![trigger m.trans[a].1[b]]
                0 <= a < e && 0 <= b < m.trans[a].1.len() && states@[m.trans[a].0 as int]
                    && m.trans[a].1[b].0 == next_char ==> new_states@[m.trans[a].1[b].1 as int],
        decreases nfa.transitions.len() - e,
    {
        let entry = &nfa.transitions[e];
        assert(m.trans[e as int] == (entry.0, entry.1@));
        assert(m.trans[e as int].0 == entry.0);
        if states[entry.0] {
            let mut j: usize = 0;
            while j < entry.1.len()
                invariant
                    nfa@ == m,
                    m.bounded(0, n as nat),
                            states@.len() == n,
                    new_states@.len() == n,
                    0 <= e < nfa.transitions.len(),
                    m.trans[e as int] == (entry.0, entry.1@),
                    states@[entry.0 as int],
                    0 <= j <= entry.1.len(),
                    forall|q: State| (q as int) < n && #[trigger] new_states@[q as int]
                        ==> step(m, flagged(states@), next_char).contains(q),
                    forall|a: int, b: int|
                        #![trigger m.trans[a].1[b]]
                        0 <= a < e && 0 <= b < m.trans[a].1.len() && states@[m.trans[a].0 as int]
                            && m.trans[a].1[b].0 == next_char ==> new_states@[m.trans[a].1[b].1 as int],
                    forall|b: int|
                        0 <= b < j && (#[trigger] m.trans[e as int].1[b]).0 == next_char
                            ==> new_states@[m.trans[e as int].1[b].1 as int],
                decreases entry.1.len() - j,
            {
                let (c, t) = entry.1[j];
                assert(m.trans[e as int].1[j as int] == (c, t));
                if c == next_char {
                    proof {
                        assert(m.has_edge(entry.0, next_char, t));
                        assert(flagged(states@).contains(entry.0));
                    }
                    new_states.set(t, true);
                }
                j += 1;
            }
        }
        e += 1;
    }
    proof {
        let goal = step(m, flagged(states@), next_char);
        assert forall|q: State| goal.contains(q) implies flagged(new_states@).contains(q) by {
            let p = choose|p: State| flagged(states@).contains(p) && #[trigger] m.has_edge(p, next_char, q);
            let (a, b) = choose|a: int, b: int|
                #![trigger m.trans[a].1[b]]
                0 <= a < m.trans.len() && 0 <= b < m.trans[a].1.len() && m.trans[a].0 == p
                    && m.trans[a].1[b] == (next_char, q);
        }
        assert(flagged(new_states@) =~= goal);
    }
    *states = new_states;
}

/// Runs an automaton whose states lie in `0..n` on `input_string`.
fn run_bounded(nfa: &Nfa, n: usize, input_string: &str) -> (accepted: bool)
    requires
        nfa@.bounded(0, n as nat),
    ensures
        accepted == accepts(nfa@, input_string@),
{
    let mut curr_states: Vec<bool> = Vec::new();
    let mut q: usize = 0;
    while q < n
        invariant
            q <= n,
            curr_states@.len() == q,
            forall|k: int| 0 <= k < q ==> (#[trigger] curr_states@[k]) == (k == nfa.initial_state),
        decreases n - q,
    {
        curr_states.push(q == nfa.initial_state);
        q += 1;
    }
    assert(flagged(curr_states@) =~= set![nfa.initial_state]);
    do_epsilon_closure(&mut curr_states, nfa);
    let len = input_string.unicode_len();
    let mut i: usize = 0;
    while i < len
        invariant
            nfa@.bounded(0, n as nat),
            len == input_string@.len(),
            0 <= i <= len,
            curr_states@.len() == n,
            flagged(curr_states@) == active(nfa@, input_string@.take(i as int)),
        decreases len - i,
    {
        let c = input_string.get_char(i);
        do_transition(&mut curr_states, nfa, c);
        do_epsilon_closure(&mut curr_states, nfa);
        assert(input_string@.take(i + 1).drop_last() =~= input_string@.take(i as int));
        i += 1;
    }
    assert(input_string@.take(len as int) =~= input_string@);
    curr_states[nfa.accepting_state]
}

/// Runs `nfa` on `input_string`: true iff the automaton accepts it. Any
/// automaton will do: the simulation runs on a copy whose states are
/// numbered densely, which accepts the same strings.
pub fn run_nfa(nfa: &Nfa, input_string: &str) -> (accepted: bool)
    ensures
        accepted == accepts(nfa@, input_string@),
{
    let states = get_all_state_references(nfa);
    let num_refs: usize = states.len();
    proof {
        lemma_numbering_len(states@, 0);
        assert(numbering(states@, 0).1 <= num_refs);
        lemma_numbering(states@, 0);
    }
    let mut n: usize = 0;
    let rename_map = number_states(&states, &mut n);
    let dense = rename_nfa_with_map(nfa, &rename_map);
    proof {
        nfa@.lemma_relabel(rename_map@, 0, n as nat);
        lemma_rename_same_language(nfa@, 0, input_string@);
    }
    run_bounded(&dense, n, input_string)
}

/// The image of a set of states under `f`.
pub open spec fn image(s: Set<State>, f: Map<State, State>) -> Set<State> {
    Set::new(|y: State| exists|x: State| s.contains(x) && #[trigger] f[x] == y)
}

/// Everything the automaton may be in is one of its states.
proof fn lemma_active_states(m: NfaModel, w: Seq<char>)
    ensures
        forall|q: State| #[trigger] active(m, w).contains(q) ==> m.has_state(q),
    decreases w.len(),
{
    m.lemma_refs_cover();
    let s = if w.len() == 0 {
        set![m.init]
    } else {
        lemma_active_states(m, w.drop_last());
        step(m, active(m, w.drop_last()), w.last())
    };
    assert forall|q: State| s.contains(q) implies m.has_state(q) by {
        if w.len() > 0 {
            let p = choose|p: State| active(m, w.drop_last()).contains(p) && #[trigger] m.has_edge(p, w.last(), q);
            let (i, j) = choose|i: int, j: int|
                #![trigger m.trans[i].1[j]]
                0 <= i < m.trans.len() && 0 <= j < m.trans[i].1.len() && m.trans[i].0 == p
                    && m.trans[i].1[j] == (w.last(), q);
            assert(m.has_state(m.trans[i].1[j].1));
        }
    }
    assert forall|q: State| #[trigger] active(m, w).contains(q) implies m.has_state(q) by {
        let p = choose|p: State| s.contains(p) && #[trigger] eps_reach(m, p, q);
        let path = choose|path: Seq<State>| #[trigger] is_eps_path(m, path) && path[0] == p && path.last() == q;
        if path.len() > 1 {
            let k = path.len() - 2;
            assert(m.has_edge(path[k], EPSILON, path[k + 1]));
            let (i, j) = choose|i: int, j: int|
                #![trigger m.trans[i].1[j]]
                0 <= i < m.trans.len() && 0 <= j < m.trans[i].1.len() && m.trans[i].0 == path[k]
                    && m.trans[i].1[j] == (EPSILON, path[k + 1]);
            assert(m.has_state(m.trans[i].1[j].1));
        }
    }
}

/// An epsilon walk of `m` maps to one of the relabelled automaton.
proof fn lemma_relabel_walk(m: NfaModel, f: Map<State, State>, path: Seq<State>)
    requires
        injective(f),
        forall|x: State| m.has_state(x) ==> #[trigger] f.contains_key(x),
        is_eps_path(m, path),
    ensures
        is_eps_path(m.relabel(f), path.map_values(|x: State| f[x])),
{
    m.lemma_relabel_edges(f);
    let r = m.relabel(f);
    let q = path.map_values(|x: State| f[x]);
    assert forall|k: int| 0 <= k < q.len() - 1 implies r.has_edge(#[trigger] q[k], EPSILON, q[k + 1]) by {
        assert(m.has_edge(path[k], EPSILON, path[k + 1]));
    }
}

/// An epsilon walk of the relabelled automaton from `f[p]` comes from one of
/// `m` from `p`.
proof fn lemma_relabel_walk_back(m: NfaModel, f: Map<State, State>, path: Seq<State>, p: State)
    requires
        injective(f),
        forall|x: State| m.has_state(x) ==> #[trigger] f.contains_key(x),
        is_eps_path(m.relabel(f), path),
        m.has_state(p),
        path[0] == f[p],
    ensures
        exists|q: State| m.has_state(q) && f[q] == path.last() && #[trigger] eps_reach(m, p, q),
    decreases path.len(),
{
    let r = m.relabel(f);
    m.lemma_relabel_edges(f);
    m.lemma_refs_cover();
    if path.len() == 1 {
        assert(is_eps_path(m, seq![p]));
        assert(eps_reach(m, p, p));
    } else {
        let sub = path.drop_last();
        assert(is_eps_path(r, sub)) by {
            assert forall|k: int| 0 <= k < sub.len() - 1 implies r.has_edge(#[trigger] sub[k], EPSILON, sub[k + 1]) by {
                assert(sub[k] == path[k] && sub[k + 1] == path[k + 1]);
                assert(r.has_edge(path[k], EPSILON, path[k + 1]));
            }
        }
        lemma_relabel_walk_back(m, f, sub, p);
        let q1 = choose|q: State| m.has_state(q) && f[q] == sub.last() && #[trigger] eps_reach(m, p, q);
        let pp = choose|pp: Seq<State>| #[trigger] is_eps_path(m, pp) && pp[0] == p && pp.last() == q1;
        let k = path.len() - 2;
        assert(r.has_edge(path[k], EPSILON, path[k + 1]));
        let (p0, q0) = choose|p0: State, q0: State|
            #![trigger m.has_edge(p0, EPSILON, q0)]
            f[p0] == path[k] && f[q0] == path[k + 1] && m.has_edge(p0, EPSILON, q0);
        let (i, j) = choose|i: int, j: int|
            #![trigger m.trans[i].1[j]]
            0 <= i < m.trans.len() && 0 <= j < m.trans[i].1.len() && m.trans[i].0 == p0
                && m.trans[i].1[j] == (EPSILON, q0);
        assert(m.has_state(m.trans[i].0));
        assert(m.has_state(m.trans[i].1[j].1));
        assert(p0 == q1);
        let pp2 = pp.push(q0);
        assert forall|t: int| 0 <= t < pp2.len() - 1 implies m.has_edge(#[trigger] pp2[t], EPSILON, pp2[t + 1]) by {
            if t < pp.len() - 1 {
                assert(pp2[t] == pp[t] && pp2[t + 1] == pp[t + 1]);
            }
        }
        assert(is_eps_path(m, pp2));
        assert(eps_reach(m, p, q0));
    }
}

proof fn lemma_closure_relabel(m: NfaModel, f: Map<State, State>, s: Set<State>)
    requires
        injective(f),
        forall|x: State| m.has_state(x) ==> #[trigger] f.contains_key(x),
        forall|x: State| #[trigger] s.contains(x) ==> m.has_state(x),
    ensures
        closure(m.relabel(f), image(s, f)) == image(closure(m, s), f),
{
    let r = m.relabel(f);
    assert forall|y: State| #[trigger] closure(r, image(s, f)).contains(y) implies image(closure(m, s), f).contains(y) by {
        let pr = choose|pr: State| image(s, f).contains(pr) && #[trigger] eps_reach(r, pr, y);
        let p = choose|p: State| s.contains(p) && #[trigger] f[p] == pr;
        let path = choose|path: Seq<State>| #[trigger] is_eps_path(r, path) && path[0] == pr && path.last() == y;
        lemma_relabel_walk_back(m, f, path, p);
        let q = choose|q: State| m.has_state(q) && f[q] == path.last() && #[trigger] eps_reach(m, p, q);
        assert(closure(m, s).contains(q));
    }
    assert forall|y: State| #[trigger] image(closure(m, s), f).contains(y) implies closure(r, image(s, f)).contains(y) by {
        let q = choose|q: State| closure(m, s).contains(q) && #[trigger] f[q] == y;
        let p = choose|p: State| s.contains(p) && #[trigger] eps_reach(m, p, q);
        let path = choose|path: Seq<State>| #[trigger] is_eps_path(m, path) && path[0] == p && path.last() == q;
        lemma_relabel_walk(m, f, path);
        let path2 = path.map_values(|x: State| f[x]);
        assert(path2[0] == f[p] && path2.last() == f[q]);
        assert(eps_reach(r, f[p], y));
        assert(image(s, f).contains(f[p]));
    }
    assert(closure(r, image(s, f)) =~= image(closure(m, s), f));
}

proof fn lemma_step_relabel(m: NfaModel, f: Map<State, State>, s: Set<State>, c: char)
    requires
        injective(f),
        forall|x: State| m.has_state(x) ==> #[trigger] f.contains_key(x),
        forall|x: State| #[trigger] s.contains(x) ==> m.has_state(x),
    ensures
        step(m.relabel(f), image(s, f), c) == image(step(m, s, c), f),
        forall|x: State| #[trigger] step(m, s, c).contains(x) ==> m.has_state(x),
{
    let r = m.relabel(f);
    m.lemma_relabel_edges(f);
    m.lemma_refs_cover();
    assert forall|x: State| #[trigger] step(m, s, c).contains(x) implies m.has_state(x) by {
        let p = choose|p: State| s.contains(p) && #[trigger] m.has_edge(p, c, x);
        let (i, j) = choose|i: int, j: int|
            #![trigger m.trans[i].1[j]]
            0 <= i < m.trans.len() && 0 <= j < m.trans[i].1.len() && m.trans[i].0 == p
                && m.trans[i].1[j] == (c, x);
        assert(m.has_state(m.trans[i].1[j].1));
    }
    assert forall|y: State| #[trigger] step(r, image(s, f), c).contains(y) implies image(step(m, s, c), f).contains(y) by {
        let pr = choose|pr: State| image(s, f).contains(pr) && #[trigger] r.has_edge(pr, c, y);
        let p = choose|p: State| s.contains(p) && #[trigger] f[p] == pr;
        let (p0, q0) = choose|p0: State, q0: State|
            #![trigger m.has_edge(p0, c, q0)]
            f[p0] == pr && f[q0] == y && m.has_edge(p0, c, q0);
        let (i, j) = choose|i: int, j: int|
            #![trigger m.trans[i].1[j]]
            0 <= i < m.trans.len() && 0 <= j < m.trans[i].1.len() && m.trans[i].0 == p0
                && m.trans[i].1[j] == (c, q0);
        assert(m.has_state(m.trans[i].0));
        assert(p0 == p);
        assert(step(m, s, c).contains(q0));
    }
    assert forall|y: State| #[trigger] image(step(m, s, c), f).contains(y) implies step(r, image(s, f), c).contains(y) by {
        let q = choose|q: State| step(m, s, c).contains(q) && #[trigger] f[q] == y;
        let p = choose|p: State| s.contains(p) && #[trigger] m.has_edge(p, c, q);
        assert(r.has_edge(f[p], c, f[q]));
        assert(image(s, f).contains(f[p]));
    }
    assert(step(r, image(s, f), c) =~= image(step(m, s, c), f));
}

proof fn lemma_active_relabel(m: NfaModel, f: Map<State, State>, w: Seq<char>)
    requires
        injective(f),
        forall|x: State| m.has_state(x) ==> #[trigger] f.contains_key(x),
    ensures
        active(m.relabel(f), w) == image(active(m, w), f),
    decreases w.len(),
{
    m.lemma_refs_cover();
    lemma_active_states(m, w);
    if w.len() == 0 {
        assert(image(set![m.init], f) =~= set![f[m.init]]);
        lemma_closure_relabel(m, f, set![m.init]);
    } else {
        let p = w.drop_last();
        lemma_active_relabel(m, f, p);
        lemma_active_states(m, p);
        lemma_step_relabel(m, f, active(m, p), w.last());
        lemma_closure_relabel(m, f, step(m, active(m, p), w.last()));
    }
}

/// Relabelling the states by an injective map that covers them does not
/// change which strings the automaton accepts.
pub proof fn lemma_relabel_same_language(m: NfaModel, f: Map<State, State>, w: Seq<char>)
    requires
        injective(f),
        forall|x: State| m.has_state(x) ==> #[trigger] f.contains_key(x),
    ensures
        accepts(m.relabel(f), w) == accepts(m, w),
{
    m.lemma_refs_cover();
    lemma_active_relabel(m, f, w);
    lemma_active_states(m, w);
    if accepts(m.relabel(f), w) {
        let x = choose|x: State| active(m, w).contains(x) && #[trigger] f[x] == f[m.acc];
        assert(m.has_state(x));
    }
}

/// Renaming, alone (`rename_states`) or in pairs (`rename_nfa_states`), does
/// not change which strings an automaton accepts.
pub proof fn lemma_rename_same_language(m: NfaModel, base: nat, w: Seq<char>)
    requires
        numbering(m.refs(), base).1 <= usize::MAX,
    ensures
        accepts(m.relabel(numbering(m.refs(), base).0), w) == accepts(m, w),
{
    lemma_numbering(m.refs(), base);
    lemma_relabel_same_language(m, numbering(m.refs(), base).0, w);
}

} // verus!
