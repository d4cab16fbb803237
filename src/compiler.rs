//! Compiles an expression tree to an automaton, one fragment per node.
use crate::nfa::{
    lemma_numbering, lemma_numbering_bounded, lemma_numbering_shift, numbering, rename_nfa_states,
    rename_states, table_view, Nfa, NfaModel, State, EPSILON,
};
use crate::matcher::{accepts, active, closure, eps_reach, is_eps_path, step};
use crate::regex::{is_symbol, RegexExpr};
use vstd::prelude::*;

verus! {

/// A fragment as compilation hands it up: well formed, with distinct initial
/// and accepting states, and no transition out of the accepting state.
pub open spec fn fragment_ok(m: NfaModel) -> bool {
    &&& m.wf()
    &&& m.init != m.acc
    &&& !m.is_key(m.acc)
}

/// The automaton for a single character `c`: `0 --c--> 1`.
pub open spec fn single_char_nfa(c: char) -> NfaModel {
    NfaModel { init: 0, acc: 1, trans: seq![(0usize, seq![(c, 1usize)])] }
}

/// `x`, or `to` where `x` is `from`.
pub open spec fn redirect(x: State, from: State, to: State) -> State {
    if x == from {
        to
    } else {
        x
    }
}

/// The list `l` with each destination `from` written `to`.
pub open spec fn redirect_list(l: Seq<(char, State)>, from: State, to: State) -> Seq<(char, State)> {
    l.map_values(|t: (char, State)| (t.0, redirect(t.1, from, to)))
}

/// `Star` around a fragment `r` whose states are `0..n`: new initial state
/// `n` and accepting state `n + 1`, each of the new initial and the old
/// accepting state with epsilon transitions to the old initial and the new
/// accepting state.
pub open spec fn star_of(r: NfaModel, n: State) -> NfaModel {
    let out = seq![(EPSILON, r.init), (EPSILON, (n + 1) as State)];
    NfaModel { init: n, acc: (n + 1) as State, trans: r.trans + seq![(r.acc, out), (n, out)] }
}

/// `Concat` of two fragments with disjoint states: transitions into the
/// accepting state of `r1` go to the initial state of `r2` instead.
pub open spec fn concat_of(r1: NfaModel, r2: NfaModel) -> NfaModel {
    NfaModel {
        init: r1.init,
        acc: r2.acc,
        trans: r1.trans.map_values(
            |e: (State, Seq<(char, State)>)| (e.0, redirect_list(e.1, r1.acc, r2.init)),
        ) + r2.trans,
    }
}

/// Adds entry `e` to table `t`: appended to the list of the entry with the
/// same source, or as a new entry.
pub open spec fn merge_entry(t: Seq<(State, Seq<(char, State)>)>, e: (State, Seq<(char, State)>)) -> Seq<
    (State, Seq<(char, State)>),
> {
    if exists|i: int| 0 <= i < t.len() && t[i].0 == e.0 {
        let i = choose|i: int| 0 <= i < t.len() && t[i].0 == e.0;
        t.update(i, (e.0, t[i].1 + e.1))
    } else {
        t.push(e)
    }
}

/// Adds the entries of `u` to `t` in order.
pub open spec fn merge_tables(t: Seq<(State, Seq<(char, State)>)>, u: Seq<(State, Seq<(char, State)>)>) -> Seq<
    (State, Seq<(char, State)>),
>
    decreases u.len(),
{
    if u.len() == 0 {
        t
    } else {
        merge_entry(merge_tables(t, u.drop_last()), u.last())
    }
}

/// `Or` of two fragments with disjoint states: the initial and accepting
/// states of `r1` become those of `r2`, and lists of a shared source are
/// joined.
pub open spec fn or_of(r1: NfaModel, r2: NfaModel) -> NfaModel {
    NfaModel { init: r2.init, acc: r2.acc, trans: merge_tables(or_left(r1, r2), r2.trans) }
}

/// The table of `r1` with its initial and accepting states written as those
/// of `r2`.
pub open spec fn or_left(r1: NfaModel, r2: NfaModel) -> Seq<(State, Seq<(char, State)>)> {
    r1.trans.map_values(
        |e: (State, Seq<(char, State)>)|
            (redirect(e.0, r1.init, r2.init), redirect_list(e.1, r1.acc, r2.acc)),
    )
}

/// Two automata renamed apart, as `rename_nfa_states` does.
pub open spec fn renamed_apart(a: NfaModel, b: NfaModel) -> (NfaModel, NfaModel) {
    let (f1, n1) = numbering(a.refs(), 0);
    let (f2, _) = numbering(b.refs(), n1);
    (a.relabel(f1), b.relabel(f2))
}

/// The automaton that compilation builds for `e`, node by node.
pub open spec fn compiled(e: RegexExpr) -> NfaModel
    decreases e,
{
    match e {
        RegexExpr::SingleChar(c) => single_char_nfa(c),
        RegexExpr::Star(x) => {
            let m = compiled(*x);
            star_of(m.renamed(), m.state_count() as State).renamed()
        },
        RegexExpr::Concat(x, y) => {
            let (r1, r2) = renamed_apart(compiled(*x), compiled(*y));
            concat_of(r1, r2).renamed()
        },
        RegexExpr::Or(x, y) => {
            let (r1, r2) = renamed_apart(compiled(*x), compiled(*y));
            or_of(r1, r2).renamed()
        },
    }
}

/// The table `t` with each source `src_from` written `src_to`, and each
/// destination `dst_from` written `dst_to`.
fn redirect_table(
    t: &Vec<(State, Vec<(char, State)>)>,
    src_from: State,
    src_to: State,
    dst_from: State,
    dst_to: State,
) -> (r: Vec<(State, Vec<(char, State)>)>)
    ensures
        r@.len() == t@.len(),
        forall|i: int|
            0 <= i < t@.len() ==> (#[trigger] r@[i]).0 == redirect(t@[i].0, src_from, src_to)
                && r@[i].1@ == redirect_list(t@[i].1@, dst_from, dst_to),
{
    let mut r: Vec<(State, Vec<(char, State)>)> = Vec::new();
    let mut i: usize = 0;
    while i < t.len()
        invariant
            0 <= i <= t.len(),
            r@.len() == i,
            forall|k: int|
                0 <= k < i ==> (#[trigger] r@[k]).0 == redirect(t@[k].0, src_from, src_to)
                    && r@[k].1@ == redirect_list(t@[k].1@, dst_from, dst_to),
        decreases t.len() - i,
    {
        let entry = &t[i];
        let mut out: Vec<(char, State)> = Vec::new();
        let mut j: usize = 0;
        while j < entry.1.len()
            invariant
                0 <= j <= entry.1.len(),
                out@ == redirect_list(entry.1@.take(j as int), dst_from, dst_to),
            decreases entry.1.len() - j,
        {
            let (c, q) = entry.1[j];
            out.push((c, if q == dst_from { dst_to } else { q }));
            j += 1;
            assert(out@ =~= redirect_list(entry.1@.take(j as int), dst_from, dst_to));
        }
        assert(entry.1@.take(j as int) =~= entry.1@);
        r.push((if entry.0 == src_from { src_to } else { entry.0 }, out));
        i += 1;
    }
    r
}

/// A copy of `l`.
fn copy_list(l: &Vec<(char, State)>) -> (r: Vec<(char, State)>)
    ensures
        r@ == l@,
{
    let mut r: Vec<(char, State)> = Vec::new();
    let mut j: usize = 0;
    while j < l.len()
        invariant
            0 <= j <= l.len(),
            r@ == l@.take(j as int),
        decreases l.len() - j,
    {
        r.push(l[j]);
        j += 1;
        assert(r@ =~= l@.take(j as int));
    }
    assert(l@.take(j as int) =~= l@);
    r
}

/// The index of the entry of `t` whose source is `key`, if there is one.
fn find_entry(t: &Vec<(State, Vec<(char, State)>)>, key: State) -> (r: Option<usize>)
    ensures
        match r {
            Some(i) => i < t@.len() && t@[i as int].0 == key,
            None => forall|i: int| 0 <= i < t@.len() ==> (#[trigger] t@[i]).0 != key,
        },
{
    let mut i: usize = 0;
    while i < t.len()
        invariant
            0 <= i <= t.len(),
            forall|k: int| 0 <= k < i ==> (#[trigger] t@[k]).0 != key,
        decreases t.len() - i,
    {
        if t[i].0 == key {
            return Some(i);
        }
        i += 1;
    }
    None
}

/// The number of distinct states of an automaton whose states lie below `b`
/// is at most `b`.
proof fn lemma_state_count_bounded(m: NfaModel, b: nat)
    requires
        m.bounded(0, b),
        b <= usize::MAX,
    ensures
        m.state_count() <= b,
{
    let refs = m.refs();
    assert forall|k: int| 0 <= k < refs.len() implies (#[trigger] refs[k]) < b by {
        m.lemma_refs_shape(k);
    }
    lemma_numbering_bounded(refs, 0, b);
}

/// What `rename_nfa_states` gives for two fragments: the first lies in
/// `0..n1`, the second in `n1..n1 + n2`, both keep their shape.
proof fn lemma_disjoint_fragments(a: NfaModel, b: NfaModel)
    requires
        fragment_ok(a),
        fragment_ok(b),
        a.num_states() + b.num_states() <= usize::MAX,
    ensures
        ({
            let (f1, n1) = numbering(a.refs(), 0);
            let (f2, n2) = numbering(b.refs(), n1);
            &&& n1 <= a.num_states()
            &&& n2 <= n1 + b.num_states()
            &&& a.relabel(f1).bounded(0, n1)
            &&& a.relabel(f1).keys_distinct()
            &&& a.relabel(f1).init != a.relabel(f1).acc
            &&& !a.relabel(f1).is_key(a.relabel(f1).acc)
            &&& b.relabel(f2).bounded(n1, n2)
            &&& b.relabel(f2).keys_distinct()
            &&& b.relabel(f2).init != b.relabel(f2).acc
            &&& !b.relabel(f2).is_key(b.relabel(f2).acc)
        }),
{
    lemma_state_count_bounded(a, a.num_states());
    lemma_state_count_bounded(b, b.num_states());
    let (f1, n1) = numbering(a.refs(), 0);
    lemma_numbering_shift(b.refs(), n1);
    lemma_numbering(a.refs(), 0);
    lemma_numbering(b.refs(), n1);
    let (f2, n2) = numbering(b.refs(), n1);
    a.lemma_relabel(f1, 0, n1);
    b.lemma_relabel(f2, n1, n2);
}

/// The fragment for `Star` around the fragment `m`.
fn star_fragment(mut m: Nfa) -> (nfa: Nfa)
    requires
        fragment_ok(m@),
        m@.num_states() + 2 <= usize::MAX,
    ensures
        nfa@ == star_of(m@.renamed(), m@.state_count() as State).renamed(),
        fragment_ok(nfa@),
        nfa@.num_states() <= m@.num_states() + 2,
{
    let ghost m0 = m@;
    let num_states = rename_states(&mut m);
    proof {
        m0.lemma_renamed_wf(m0.num_states());
    }
    let old_acc_state = m.accepting_state;
    let old_init_state = m.initial_state;
    let new_init_state = num_states;
    let new_acc_state = num_states + 1;
    let ghost t0 = m@.trans;
    m.initial_state = new_init_state;
    m.accepting_state = new_acc_state;
    m.transitions.push(
        (old_acc_state, vec![(EPSILON, old_init_state), (EPSILON, new_acc_state)]),
    );
    m.transitions.push(
        (new_init_state, vec![(EPSILON, old_init_state), (EPSILON, new_acc_state)]),
    );
    let ghost m1 = m@;
    proof {
        let n = num_states as nat;
        assert(m1.trans.len() == t0.len() + 2);
        assert forall|i: int| 0 <= i < t0.len() implies #[trigger] m1.trans[i] == t0[i] by {}
        assert(m1.trans[t0.len() as int].0 == old_acc_state);
        assert(m1.trans[t0.len() as int + 1].0 == new_init_state);
        assert(m1.trans[t0.len() as int].1 == seq![(EPSILON, old_init_state), (EPSILON, new_acc_state)]);
        assert(m1.trans[t0.len() as int + 1].1 == seq![(EPSILON, old_init_state), (EPSILON, new_acc_state)]);
        assert forall|i: int| 0 <= i < t0.len() implies #[trigger] t0[i].0 != old_acc_state by {
            assert(!m0.renamed().is_key(old_acc_state));
        }
        assert(m1.keys_distinct());
        assert(m1.bounded(0, n + 2)) by {
            assert forall|i: int, j: int|
                0 <= i < m1.trans.len() && 0 <= j < m1.trans[i].1.len() implies #[trigger] m1.trans[i].1[j].1
                < n + 2 by {
                if i < t0.len() {
                    assert(m1.trans[i] == t0[i]);
                }
            }
        }
        assert(!m1.is_key(m1.acc));
        m1.lemma_renamed_wf(n + 2);
        assert(m1.trans =~= star_of(m0.renamed(), num_states).trans);
        assert(m1 == star_of(m0.renamed(), num_states));
    }
    rename_states(&mut m);
    m
}

/// The fragment for `Concat` of the fragments `m1` and `m2`.
fn concat_fragments(mut m1: Nfa, mut m2: Nfa) -> (nfa: Nfa)
    requires
        fragment_ok(m1@),
        fragment_ok(m2@),
        m1@.num_states() + m2@.num_states() <= usize::MAX,
    ensures
        nfa@ == concat_of(renamed_apart(m1@, m2@).0, renamed_apart(m1@, m2@).1).renamed(),
        fragment_ok(nfa@),
        nfa@.num_states() <= m1@.num_states() + m2@.num_states(),
{
    let ghost a = m1@;
    let ghost b = m2@;
    proof {
        lemma_state_count_bounded(a, a.num_states());
        lemma_state_count_bounded(b, b.num_states());
        lemma_disjoint_fragments(a, b);
    }
    rename_nfa_states(&mut m1, &mut m2);
    let ghost n1 = numbering(a.refs(), 0).1;
    let ghost n2 = numbering(b.refs(), n1).1;
    let ghost r1 = m1@;
    let ghost r2 = m2@;
    let m1_acc_state = m1.accepting_state;
    let m2_init_state = m2.initial_state;
    let mut transitions = redirect_table(
        &m1.transitions,
        m1.initial_state,
        m1.initial_state,
        m1_acc_state,
        m2_init_state,
    );
    let ghost first = transitions@;
    transitions.append(&mut m2.transitions);
    let mut resulting_nfa = Nfa {
        initial_state: m1.initial_state,
        accepting_state: m2.accepting_state,
        transitions,
    };
    let ghost c = resulting_nfa@;
    proof {
        assert forall|i: int| 0 <= i < c.trans.len() implies #[trigger] c.trans[i] == if i
            < first.len() {
            (r1.trans[i].0, redirect_list(r1.trans[i].1, m1_acc_state, m2_init_state))
        } else {
            r2.trans[i - first.len()]
        } by {
            if i < first.len() {
                assert(first[i].0 == redirect(r1.trans[i].0, r1.init, r1.init));
            }
        }
        assert(c.keys_distinct()) by {
            assert forall|i: int, j: int|
                0 <= i < c.trans.len() && 0 <= j < c.trans.len() && i != j implies c.trans[i].0
                != c.trans[j].0 by {
                assert(c.trans[i] == c.trans[i]);
                assert(c.trans[j] == c.trans[j]);
                if i < first.len() {
                    assert(r1.trans[i].0 < n1);
                } else {
                    assert(r2.trans[i - first.len()].0 >= n1);
                }
                if j < first.len() {
                    assert(r1.trans[j].0 < n1);
                } else {
                    assert(r2.trans[j - first.len()].0 >= n1);
                }
            }
        }
        assert(c.bounded(0, n2)) by {
            assert forall|i: int| 0 <= i < c.trans.len() implies 0 <= #[trigger] c.trans[i].0 < n2 by {
                if i < first.len() {
                    assert(r1.trans[i].0 < n1);
                } else {
                    assert(r2.trans[i - first.len()].0 < n2);
                }
            }
            assert forall|i: int, j: int|
                0 <= i < c.trans.len() && 0 <= j < c.trans[i].1.len() implies 0
                <= #[trigger] c.trans[i].1[j].1 < n2 by {
                if i < first.len() {
                    assert(r1.trans[i].1[j].1 < n1);
                } else {
                    assert(r2.trans[i - first.len()].1[j].1 < n2);
                }
            }
        }
        assert(!c.is_key(c.acc)) by {
            if c.is_key(c.acc) {
                let i = choose|i: int| 0 <= i < c.trans.len() && c.trans[i].0 == c.acc;
                if i < first.len() {
                    assert(r1.trans[i].0 < n1);
                } else {
                    assert(r2.trans[i - first.len()].0 == c.acc);
                }
            }
        }
        c.lemma_renamed_wf(n2);
        assert(c.trans =~= concat_of(r1, r2).trans);
        assert(c == concat_of(r1, r2));
        assert((r1, r2) == renamed_apart(a, b));
    }
    rename_states(&mut resulting_nfa);
    resulting_nfa
}

/// The fragment for `Or` of the fragments `m1` and `m2`.
fn or_fragments(mut m1: Nfa, mut m2: Nfa) -> (nfa: Nfa)
    requires
        fragment_ok(m1@),
        fragment_ok(m2@),
        m1@.num_states() + m2@.num_states() <= usize::MAX,
    ensures
        nfa@ == or_of(renamed_apart(m1@, m2@).0, renamed_apart(m1@, m2@).1).renamed(),
        fragment_ok(nfa@),
        nfa@.num_states() <= m1@.num_states() + m2@.num_states(),
{
    let ghost a = m1@;
    let ghost b = m2@;
    proof {
        lemma_state_count_bounded(a, a.num_states());
        lemma_state_count_bounded(b, b.num_states());
        lemma_disjoint_fragments(a, b);
    }
    rename_nfa_states(&mut m1, &mut m2);
    let ghost n1 = numbering(a.refs(), 0).1;
    let ghost n2 = numbering(b.refs(), n1).1;
    let ghost r1 = m1@;
    let ghost r2 = m2@;
    let mut transitions = redirect_table(
        &m1.transitions,
        m1.initial_state,
        m2.initial_state,
        m1.accepting_state,
        m2.accepting_state,
    );
    let ghost first = transitions@;
    proof {
        assert forall|i: int, j: int|
            0 <= i < first.len() && 0 <= j < first.len() && i != j implies first[i].0
            != first[j].0 by {
            assert(first[i] == first[i] && first[j] == first[j]);
            assert(r1.trans[i].0 < n1 && r1.trans[j].0 < n1);
        }
        assert forall|i: int| 0 <= i < first.len() implies (#[trigger] first[i]).0 < n2
            && first[i].0 != r2.acc by {
            assert(r1.trans[i].0 < n1);
        }
        assert forall|i: int, j: int|
            0 <= i < first.len() && 0 <= j < first[i].1@.len() implies #[trigger] first[i].1@[j].1
            < n2 by {
            assert(first[i] == first[i]);
            assert(r1.trans[i].1[j].1 < n1);
        }
        assert(table_view(first) =~= or_left(r1, r2));
        assert(r2.trans.take(0) =~= Seq::<(State, Seq<(char, State)>)>::empty());
    }
    let mut k: usize = 0;
    while k < m2.transitions.len()
        invariant
            0 <= k <= m2.transitions.len(),
            m2@ == r2,
            r2.bounded(n1, n2),
            r2.keys_distinct(),
            !r2.is_key(r2.acc),
            r2.init != r2.acc,
            n1 <= r2.init,
            table_view(transitions@) == merge_tables(or_left(r1, r2), r2.trans.take(k as int)),
            forall|i: int, j: int|
                0 <= i < transitions@.len() && 0 <= j < transitions@.len() && i != j
                    ==> transitions@[i].0 != transitions@[j].0,
            forall|i: int|
                0 <= i < transitions@.len() ==> (#[trigger] transitions@[i]).0 < n2
                    && transitions@[i].0 != r2.acc,
            forall|i: int, j: int|
                0 <= i < transitions@.len() && 0 <= j < transitions@[i].1@.len()
                    ==> #[trigger] transitions@[i].1@[j].1 < n2,
        decreases m2.transitions.len() - k,
    {
        let entry = &m2.transitions[k];
        assert(r2.trans[k as int] == (entry.0, entry.1@));
        assert(r2.trans[k as int].0 == entry.0);
        let mut extra = copy_list(&entry.1);
        let ghost before = transitions@;
        match find_entry(&transitions, entry.0) {
            Some(i) => {
                let mut cur: (State, Vec<(char, State)>) = (0, Vec::new());
                transitions.set_and_swap(i, &mut cur);
                let (key, mut list) = cur;
                let ghost old_list = list@;
                list.append(&mut extra);
                transitions.set(i, (key, list));
                proof {
                    let t = table_view(before);
                    let e = r2.trans[k as int];
                    assert(t[i as int].0 == e.0);
                    let i2 = choose|i2: int| 0 <= i2 < t.len() && t[i2].0 == e.0;
                    assert(before[i2].0 == before[i as int].0);
                    assert(i2 == i);
                    assert(table_view(transitions@) =~= t.update(i as int, (e.0, t[i as int].1 + e.1)));
                    assert(r2.trans.take(k + 1).drop_last() =~= r2.trans.take(k as int));
                    assert(r2.trans.take(k + 1).last() == e);
                    assert forall|x: int, j: int|
                        0 <= x < transitions@.len() && 0 <= j < transitions@[x].1@.len() implies #[trigger] transitions@[x].1@[j].1
                        < n2 by {
                        if x == i {
                            if j < old_list.len() {
                                assert(before[x].1@[j].1 < n2);
                            } else {
                                assert(r2.trans[k as int].1[j - old_list.len()].1 < n2);
                            }
                        } else {
                            assert(before[x] == transitions@[x]);
                        }
                    }
                    assert forall|x: int| 0 <= x < transitions@.len() implies (#[trigger] transitions@[x]).0 < n2
                        && transitions@[x].0 != r2.acc by {
                        assert(before[x].0 == transitions@[x].0);
                    }
                }
            },
            None => {
                transitions.push((entry.0, extra));
                proof {
                    let t = table_view(before);
                    let e = r2.trans[k as int];
                    assert(!exists|i2: int| 0 <= i2 < t.len() && t[i2].0 == e.0);
                    assert(table_view(transitions@) =~= t.push(e));
                    assert(r2.trans.take(k + 1).drop_last() =~= r2.trans.take(k as int));
                    assert(r2.trans.take(k + 1).last() == e);
                    assert forall|x: int, j: int|
                        0 <= x < transitions@.len() && 0 <= j < transitions@[x].1@.len() implies #[trigger] transitions@[x].1@[j].1
                        < n2 by {
                        if x < before.len() {
                            assert(before[x] == transitions@[x]);
                        } else {
                            assert(r2.trans[k as int].1[j].1 < n2);
                        }
                    }
                    assert forall|x: int| 0 <= x < transitions@.len() implies (#[trigger] transitions@[x]).0 < n2
                        && transitions@[x].0 != r2.acc by {
                        if x < before.len() {
                            assert(before[x] == transitions@[x]);
                        }
                    }
                }
            },
        }
        k += 1;
    }
    let mut resulting_nfa = Nfa {
        initial_state: m2.initial_state,
        accepting_state: m2.accepting_state,
        transitions,
    };
    let ghost c = resulting_nfa@;
    proof {
        assert(c.keys_distinct()) by {
            assert forall|i: int, j: int|
                0 <= i < c.trans.len() && 0 <= j < c.trans.len() && i != j implies c.trans[i].0
                != c.trans[j].0 by {
                assert(c.trans[i].0 == resulting_nfa.transitions@[i].0);
                assert(c.trans[j].0 == resulting_nfa.transitions@[j].0);
            }
        }
        assert(c.bounded(0, n2)) by {
            assert forall|i: int| 0 <= i < c.trans.len() implies 0 <= #[trigger] c.trans[i].0 < n2 by {
                assert(c.trans[i].0 == resulting_nfa.transitions@[i].0);
            }
            assert forall|i: int, j: int|
                0 <= i < c.trans.len() && 0 <= j < c.trans[i].1.len() implies 0
                <= #[trigger] c.trans[i].1[j].1 < n2 by {
                assert(c.trans[i].1 == resulting_nfa.transitions@[i].1@);
                assert(resulting_nfa.transitions@[i].1@[j].1 < n2);
            }
        }
        assert(!c.is_key(c.acc)) by {
            if c.is_key(c.acc) {
                let i = choose|i: int| 0 <= i < c.trans.len() && c.trans[i].0 == c.acc;
                assert(c.trans[i].0 == resulting_nfa.transitions@[i].0);
            }
        }
        c.lemma_renamed_wf(n2);
        assert(r2.trans.take(r2.trans.len() as int) =~= r2.trans);
        assert(c == or_of(r1, r2));
        assert((r1, r2) == renamed_apart(a, b));
    }
    rename_states(&mut resulting_nfa);
    resulting_nfa
}

/// Compiles `expression` to an automaton with one initial and one accepting
/// state, its states numbered `0..n` with the accepting state last.
pub fn convert_regex_to_nfa(expression: &RegexExpr) -> (nfa: Nfa)
    requires
        2 * expression.size() <= usize::MAX,
    ensures
        nfa@ == compiled(*expression),
        fragment_ok(nfa@),
        nfa@.num_states() <= 2 * expression.size(),
    decreases expression,
{
    match expression {
        RegexExpr::SingleChar(c) => {
            let mut out: Vec<(char, State)> = Vec::new();
            out.push((*c, 1));
            let mut transitions: Vec<(State, Vec<(char, State)>)> = Vec::new();
            transitions.push((0, out));
            let nfa = Nfa { initial_state: 0, accepting_state: 1, transitions };
            assert(nfa@.trans[0] == (0usize, seq![(*c, 1usize)]));
            assert(nfa@.trans =~= single_char_nfa(*c).trans);
            nfa
        },
        RegexExpr::Star(e) => star_fragment(convert_regex_to_nfa(e)),
        RegexExpr::Concat(e1, e2) => concat_fragments(convert_regex_to_nfa(e1), convert_regex_to_nfa(e2)),
        RegexExpr::Or(e1, e2) => or_fragments(convert_regex_to_nfa(e1), convert_regex_to_nfa(e2)),
    }
}

/// Without epsilon transitions the closure of a set is the set itself.
proof fn lemma_closure_without_eps(m: NfaModel, s: Set<State>)
    requires
        forall|p: State, q: State| !#[trigger] m.has_edge(p, EPSILON, q),
    ensures
        closure(m, s) == s,
{
    assert forall|q: State| closure(m, s).contains(q) implies s.contains(q) by {
        let p = choose|p: State| s.contains(p) && #[trigger] eps_reach(m, p, q);
        let path = choose|path: Seq<State>| #[trigger] is_eps_path(m, path) && path[0] == p && path.last() == q;
        if path.len() > 1 {
            assert(m.has_edge(path[0], EPSILON, path[1]));
        }
    }
    assert forall|q: State| s.contains(q) implies closure(m, s).contains(q) by {
        assert(is_eps_path(m, seq![q]));
        assert(eps_reach(m, q, q));
    }
    assert(closure(m, s) =~= s);
}

/// The automaton compiled from a single letter or digit `c` accepts exactly
/// the one-character string `c`: not the empty string, no other character,
/// and no longer string.
pub proof fn lemma_single_char_language(c: char, w: Seq<char>)
    requires
        is_symbol(c),
    ensures
        accepts(single_char_nfa(c), w) <==> w == seq![c],
    decreases w.len(),
{
    let m = single_char_nfa(c);
    assert forall|p: State, d: char, q: State| #[trigger] m.has_edge(p, d, q) implies p == 0 && d == c && q
        == 1 by {
        let (i, j) = choose|i: int, j: int|
            #![trigger m.trans[i].1[j]]
            0 <= i < m.trans.len() && 0 <= j < m.trans[i].1.len() && m.trans[i].0 == p
                && m.trans[i].1[j] == (d, q);
    }
    assert(m.has_edge(0, c, 1)) by {
        assert(m.trans[0].1[0] == (c, 1usize));
    }
    lemma_single_char_active(c, w);
    if w.len() == 1 && w != seq![c] {
        assert(w =~= seq![w[0]]);
    }
}

proof fn lemma_single_char_active(c: char, w: Seq<char>)
    requires
        is_symbol(c),
        forall|p: State, d: char, q: State| #[trigger] single_char_nfa(c).has_edge(p, d, q) ==> p == 0 && d == c && q
            == 1,
        single_char_nfa(c).has_edge(0, c, 1),
    ensures
        active(single_char_nfa(c), w) == if w.len() == 0 {
            set![0usize]
        } else if w.len() == 1 && w[0] == c {
            set![1usize]
        } else {
            Set::<State>::empty()
        },
    decreases w.len(),
{
    let m = single_char_nfa(c);
    assert forall|p: State, q: State| !#[trigger] m.has_edge(p, EPSILON, q) by {}
    if w.len() == 0 {
        lemma_closure_without_eps(m, set![0usize]);
    } else {
        let p = w.drop_last();
        lemma_single_char_active(c, p);
        let st = step(m, active(m, p), w.last());
        lemma_closure_without_eps(m, st);
        if w.len() == 1 && w[0] == c {
            assert(st =~= set![1usize]) by {
                assert(active(m, p).contains(0usize));
                assert(m.has_edge(0, c, 1));
            }
        } else {
            assert(st =~= Set::<State>::empty());
        }
    }
}

} // verus!
