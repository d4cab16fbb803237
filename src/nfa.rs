//! The automaton: integer states, an initial and an accepting state, and for
//! each source state an ordered list of labelled transitions.
use std::collections::HashMap;
use vstd::prelude::*;

verus! {

broadcast use vstd::std_specs::hash::group_hash_axioms;

pub type State = usize;

/// The label of a transition that is taken without reading input.
pub const EPSILON: char = '\0';

/// An automaton whose states are integers. Each entry of `transitions` holds a
/// source state and the `(label, destination)` pairs that leave it.
#[derive(Debug, Clone)]
pub struct Nfa {
    pub initial_state: State,
    pub accepting_state: State,
    pub transitions: Vec<(State, Vec<(char, State)>)>,
}

/// The mathematical value of an automaton.
pub struct NfaModel {
    pub init: State,
    pub acc: State,
    pub trans: Seq<(State, Seq<(char, State)>)>,
}

/// The mathematical value of a transition table.
pub open spec fn table_view(t: Seq<(State, Vec<(char, State)>)>) -> Seq<(State, Seq<(char, State)>)> {
    t.map_values(|e: (State, Vec<(char, State)>)| (e.0, e.1@))
}

impl View for Nfa {
    type V = NfaModel;

    open spec fn view(&self) -> NfaModel {
        NfaModel {
            init: self.initial_state,
            acc: self.accepting_state,
            trans: table_view(self.transitions@),
        }
    }
}

/// The destinations of `l` that differ from `acc`, in order.
pub open spec fn targets_except(l: Seq<(char, State)>, acc: State) -> Seq<State>
    decreases l.len(),
{
    if l.len() == 0 {
        Seq::empty()
    } else {
        let r = targets_except(l.drop_last(), acc);
        if l.last().1 != acc {
            r.push(l.last().1)
        } else {
            r
        }
    }
}

/// The states named by a transition table, in order of appearance: each
/// source, followed by those of its destinations that differ from `acc`.
pub open spec fn trans_refs(t: Seq<(State, Seq<(char, State)>)>, acc: State) -> Seq<State>
    decreases t.len(),
{
    if t.len() == 0 {
        Seq::empty()
    } else {
        trans_refs(t.drop_last(), acc) + seq![t.last().0] + targets_except(t.last().1, acc)
    }
}

/// Gives each new element of `s`, in order of first appearance, the next
/// number counting up from `base`; returns the numbering and the next number.
pub open spec fn numbering(s: Seq<State>, base: nat) -> (Map<State, State>, nat)
    decreases s.len(),
{
    if s.len() == 0 {
        (Map::empty(), base)
    } else {
        let (f, next) = numbering(s.drop_last(), base);
        if f.contains_key(s.last()) {
            (f, next)
        } else {
            (f.insert(s.last(), next as State), next + 1)
        }
    }
}

/// `f` maps distinct keys to distinct values.
pub open spec fn injective(f: Map<State, State>) -> bool {
    forall|x: State, y: State|
        #![trigger f[x], f[y]]
        f.contains_key(x) && f.contains_key(y) && x != y ==> f[x] != f[y]
}

/// Some key of `f` is mapped to `v`.
pub open spec fn is_value(f: Map<State, State>, v: nat) -> bool {
    exists|x: State| f.contains_key(x) && f[x] == v
}

/// The list `l` with each destination `q` written `f[q]`.
pub open spec fn relabel_list(l: Seq<(char, State)>, f: Map<State, State>) -> Seq<(char, State)> {
    l.map_values(|t: (char, State)| (t.0, f[t.1]))
}

impl NfaModel {
    /// Every state the automaton names, in order of first encounter: the
    /// initial state, the table, then the accepting state.
    pub open spec fn refs(self) -> Seq<State> {
        seq![self.init] + trans_refs(self.trans, self.acc) + seq![self.acc]
    }

    /// `q` is named somewhere in the automaton.
    pub open spec fn has_state(self, q: State) -> bool {
        self.refs().contains(q)
    }

    /// There is a transition `p --c--> q`.
    pub open spec fn has_edge(self, p: State, c: char, q: State) -> bool {
        exists|i: int, j: int|
            #![trigger self.trans[i].1[j]]
            0 <= i < self.trans.len() && 0 <= j < self.trans[i].1.len() && self.trans[i].0 == p
                && self.trans[i].1[j] == (c, q)
    }

    /// No source state has two entries.
    pub open spec fn keys_distinct(self) -> bool {
        forall|i: int, j: int|
            0 <= i < self.trans.len() && 0 <= j < self.trans.len() && i != j ==> self.trans[i].0
                != self.trans[j].0
    }

    /// `q` has an entry of outgoing transitions.
    pub open spec fn is_key(self, q: State) -> bool {
        exists|i: int| 0 <= i < self.trans.len() && self.trans[i].0 == q
    }

    /// Every state named lies in `lo..hi`.
    pub open spec fn bounded(self, lo: nat, hi: nat) -> bool {
        &&& lo <= self.init < hi
        &&& lo <= self.acc < hi
        &&& forall|i: int| 0 <= i < self.trans.len() ==> lo <= #[trigger] self.trans[i].0 < hi
        &&& forall|i: int, j: int|
            0 <= i < self.trans.len() && 0 <= j < self.trans[i].1.len() ==> lo
                <= #[trigger] self.trans[i].1[j].1 < hi
    }

    /// Distinct sources, and the accepting state is the largest state: the
    /// states lie in `0..acc + 1`.
    pub open spec fn wf(self) -> bool {
        &&& self.keys_distinct()
        &&& self.acc < usize::MAX
        &&& self.bounded(0, (self.acc + 1) as nat)
    }

    /// The number of states of a well-formed automaton.
    pub open spec fn num_states(self) -> nat {
        (self.acc + 1) as nat
    }

    /// The same automaton with every state `q` written `f[q]`.
    pub open spec fn relabel(self, f: Map<State, State>) -> NfaModel {
        NfaModel {
            init: f[self.init],
            acc: f[self.acc],
            trans: self.trans.map_values(
                |e: (State, Seq<(char, State)>)| (f[e.0], relabel_list(e.1, f)),
            ),
        }
    }

    /// The numbering of the states in order of first encounter.
    pub open spec fn dense_numbering(self) -> Map<State, State> {
        numbering(self.refs(), 0).0
    }

    /// The number of distinct states.
    pub open spec fn state_count(self) -> nat {
        numbering(self.refs(), 0).1
    }

    /// The automaton with its states numbered `0..n` in order of first encounter.
    pub open spec fn renamed(self) -> NfaModel {
        self.relabel(self.dense_numbering())
    }
}

/// Facts on `numbering`: its domain is the elements of `s`, it is injective,
/// and its values are exactly `base..next`.
pub proof fn lemma_numbering(s: Seq<State>, base: nat)
    requires
        numbering(s, base).1 <= usize::MAX + 1,
    ensures
        ({
            let (f, next) = numbering(s, base);
            &&& base <= next <= base + s.len()
            &&& f.dom().finite()
            &&& f.dom().len() == next - base
            &&& forall|x: State| #[trigger] f.contains_key(x) <==> s.contains(x)
            &&& forall|x: State| #[trigger] f.contains_key(x) ==> base <= f[x] < next
            &&& injective(f)
            &&& forall|v: nat| base <= v < next ==> #[trigger] is_value(f, v)
        }),
    decreases s.len(),
{
    if s.len() > 0 {
        let p = s.drop_last();
        lemma_numbering(p, base);
        let (f0, n0) = numbering(p, base);
        if !f0.contains_key(s.last()) {
            assert(f0.insert(s.last(), n0 as State).dom() == f0.dom().insert(s.last()));
        }
        let (f, next) = numbering(p, base);
        assert forall|x: State| s.contains(x) <==> (p.contains(x) || x == s.last()) by {
            if s.contains(x) {
                let k = choose|k: int| 0 <= k < s.len() && s[k] == x;
                if k < s.len() - 1 {
                    assert(p[k] == x);
                }
            }
            if p.contains(x) {
                let k = choose|k: int| 0 <= k < p.len() && p[k] == x;
                assert(s[k] == x);
            }
            if x == s.last() {
                assert(s[s.len() - 1] == x);
            }
        }
        if !f.contains_key(s.last()) {
            let g = f.insert(s.last(), next as State);
            assert forall|v: nat| base <= v < next + 1 implies #[trigger] is_value(g, v) by {
                if v < next {
                    assert(is_value(f, v));
                    let x = choose|x: State| f.contains_key(x) && f[x] == v;
                    assert(g.contains_key(x) && g[x] == v);
                } else {
                    assert(g.contains_key(s.last()) && g[s.last()] == v);
                }
            }
        }
    }
}

/// A destination that differs from `acc` is listed by `targets_except`.
proof fn lemma_targets_except_has(l: Seq<(char, State)>, acc: State, j: int)
    requires
        0 <= j < l.len(),
        l[j].1 != acc,
    ensures
        targets_except(l, acc).contains(l[j].1),
    decreases l.len(),
{
    let r = targets_except(l.drop_last(), acc);
    if j == l.len() - 1 {
        assert(targets_except(l, acc).last() == l[j].1);
    } else {
        lemma_targets_except_has(l.drop_last(), acc, j);
        let k = choose|k: int| 0 <= k < r.len() && r[k] == l[j].1;
        assert(targets_except(l, acc)[k] == l[j].1);
    }
}

/// Each source, and each destination that differs from `acc`, is listed by
/// `trans_refs`.
proof fn lemma_trans_refs_has(t: Seq<(State, Seq<(char, State)>)>, acc: State, i: int)
    requires
        0 <= i < t.len(),
    ensures
        trans_refs(t, acc).contains(t[i].0),
        forall|j: int|
            0 <= j < t[i].1.len() && t[i].1[j].1 != acc ==> trans_refs(t, acc).contains(
                #[trigger] t[i].1[j].1,
            ),
    decreases t.len(),
{
    let p = trans_refs(t.drop_last(), acc);
    let e = targets_except(t.last().1, acc);
    let r = trans_refs(t, acc);
    assert(r == p + seq![t.last().0] + e);
    if i == t.len() - 1 {
        assert(r[p.len() as int] == t[i].0);
        assert forall|j: int| 0 <= j < t[i].1.len() && t[i].1[j].1 != acc implies r.contains(
            #[trigger] t[i].1[j].1,
        ) by {
            lemma_targets_except_has(t[i].1, acc, j);
            let k = choose|k: int| 0 <= k < e.len() && e[k] == t[i].1[j].1;
            assert(r[p.len() + 1 + k] == e[k]);
        }
    } else {
        lemma_trans_refs_has(t.drop_last(), acc, i);
        let k0 = choose|k: int| 0 <= k < p.len() && p[k] == t[i].0;
        assert(r[k0] == p[k0]);
        assert forall|j: int| 0 <= j < t[i].1.len() && t[i].1[j].1 != acc implies r.contains(
            #[trigger] t[i].1[j].1,
        ) by {
            assert(t.drop_last()[i].1[j].1 == t[i].1[j].1);
            let k = choose|k: int| 0 <= k < p.len() && p[k] == t[i].1[j].1;
            assert(r[k] == p[k]);
        }
    }
}

/// `numbering` gives at most one number per element.
pub proof fn lemma_numbering_len(s: Seq<State>, base: nat)
    ensures
        base <= numbering(s, base).1 <= base + s.len(),
    decreases s.len(),
{
    if s.len() > 0 {
        lemma_numbering_len(s.drop_last(), base);
    }
}

/// The count of a prefix is at most that of the whole.
pub proof fn lemma_numbering_prefix(s: Seq<State>, base: nat, i: int)
    requires
        0 <= i <= s.len(),
    ensures
        numbering(s.take(i), base).1 <= numbering(s, base).1,
    decreases s.len(),
{
    if i == s.len() {
        assert(s.take(i) =~= s);
    } else {
        assert(s.drop_last().take(i) =~= s.take(i));
        lemma_numbering_prefix(s.drop_last(), base, i);
    }
}

/// The keys and the count of `numbering` do not depend on where it starts.
pub proof fn lemma_numbering_shift(s: Seq<State>, base: nat)
    ensures
        numbering(s, base).1 == base + numbering(s, 0).1,
        numbering(s, base).0.dom() == numbering(s, 0).0.dom(),
    decreases s.len(),
{
    if s.len() > 0 {
        lemma_numbering_shift(s.drop_last(), base);
        let (f, _) = numbering(s.drop_last(), base);
        let (g, _) = numbering(s.drop_last(), 0);
        assert(f.contains_key(s.last()) == g.contains_key(s.last()));
    }
}

/// Numbering elements that all lie below `b` gives at most `b` numbers.
pub proof fn lemma_numbering_bounded(s: Seq<State>, base: nat, b: nat)
    requires
        forall|k: int| 0 <= k < s.len() ==> (#[trigger] s[k]) < b,
        b <= usize::MAX,
    ensures
        numbering(s, base).1 <= base + b,
{
    lemma_numbering_shift(s, base);
    lemma_numbering_len(s, 0);
    lemma_numbering_bounded_from_zero(s, b);
}

proof fn lemma_numbering_bounded_from_zero(s: Seq<State>, b: nat)
    requires
        forall|k: int| 0 <= k < s.len() ==> (#[trigger] s[k]) < b,
        b <= usize::MAX,
    ensures
        numbering(s, 0).1 <= b,
    decreases s.len(),
{
    if s.len() > 0 {
        let p = s.drop_last();
        assert forall|k: int| 0 <= k < p.len() implies (#[trigger] p[k]) < b by {
            assert(p[k] == s[k]);
        }
        lemma_numbering_bounded_from_zero(p, b);
    }
    let (f, next) = numbering(s, 0);
    lemma_numbering(s, 0);
    let range = vstd::set_lib::set_int_range(0, b as int);
    vstd::set_lib::lemma_int_range(0, b as int);
    let small = range.map(|i: int| i as State);
    vstd::set_lib::lemma_map_size_bound(range, small, |i: int| i as State);
    assert forall|x: State| f.dom().contains(x) implies small.contains(x) by {
        let k = choose|k: int| 0 <= k < s.len() && s[k] == x;
        assert(range.contains(x as int));
        assert((x as int) as State == x);
    }
    vstd::set_lib::lemma_len_subset(f.dom(), small);
}

/// Every element of `trans_refs` is a source, or a destination that differs
/// from `acc`.
proof fn lemma_trans_refs_shape(t: Seq<(State, Seq<(char, State)>)>, acc: State, k: int)
    requires
        0 <= k < trans_refs(t, acc).len(),
    ensures
        (exists|i: int| 0 <= i < t.len() && t[i].0 == trans_refs(t, acc)[k]) || (trans_refs(t, acc)[k]
            != acc && exists|i: int, j: int|
            0 <= i < t.len() && 0 <= j < t[i].1.len() && t[i].1[j].1 == trans_refs(t, acc)[k]),
    decreases t.len(),
{
    let p = trans_refs(t.drop_last(), acc);
    let e = targets_except(t.last().1, acc);
    let x = trans_refs(t, acc)[k];
    if k < p.len() {
        lemma_trans_refs_shape(t.drop_last(), acc, k);
        assert(p[k] == x);
        if exists|i: int| 0 <= i < t.drop_last().len() && t.drop_last()[i].0 == x {
            let i = choose|i: int| 0 <= i < t.drop_last().len() && t.drop_last()[i].0 == x;
            assert(t[i].0 == x);
        } else {
            let (i, j) = choose|i: int, j: int|
                0 <= i < t.drop_last().len() && 0 <= j < t.drop_last()[i].1.len()
                    && t.drop_last()[i].1[j].1 == x;
            assert(t[i].1[j].1 == x);
        }
    } else if k == p.len() {
        assert(t[t.len() - 1].0 == x);
    } else {
        lemma_targets_except_shape(t.last().1, acc, k - p.len() - 1);
        let j = choose|j: int| 0 <= j < t.last().1.len() && t.last().1[j].1 == e[k - p.len() - 1];
        assert(t[t.len() - 1].1[j].1 == x);
    }
}

proof fn lemma_targets_except_shape(l: Seq<(char, State)>, acc: State, k: int)
    requires
        0 <= k < targets_except(l, acc).len(),
    ensures
        targets_except(l, acc)[k] != acc,
        exists|j: int| 0 <= j < l.len() && l[j].1 == targets_except(l, acc)[k],
    decreases l.len(),
{
    let p = targets_except(l.drop_last(), acc);
    if k < p.len() {
        lemma_targets_except_shape(l.drop_last(), acc, k);
        let j = choose|j: int| 0 <= j < l.drop_last().len() && l.drop_last()[j].1 == p[k];
        assert(l[j].1 == p[k]);
    } else {
        assert(l[l.len() - 1].1 == targets_except(l, acc)[k]);
    }
}

impl NfaModel {
    /// Every state that appears anywhere in the automaton is in `refs`.
    pub proof fn lemma_refs_cover(self)
        ensures
            self.has_state(self.init),
            self.has_state(self.acc),
            forall|i: int| 0 <= i < self.trans.len() ==> self.has_state(#[trigger] self.trans[i].0),
            forall|i: int, j: int|
                0 <= i < self.trans.len() && 0 <= j < self.trans[i].1.len() ==> self.has_state(
                    #[trigger] self.trans[i].1[j].1,
                ),
    {
        let r = self.refs();
        let t = trans_refs(self.trans, self.acc);
        assert(r[0] == self.init);
        assert(r[r.len() - 1] == self.acc);
        assert forall|i: int| 0 <= i < self.trans.len() implies self.has_state(
            #[trigger] self.trans[i].0,
        ) by {
            lemma_trans_refs_has(self.trans, self.acc, i);
            let k = choose|k: int| 0 <= k < t.len() && t[k] == self.trans[i].0;
            assert(r[k + 1] == t[k]);
        }
        assert forall|i: int, j: int|
            0 <= i < self.trans.len() && 0 <= j < self.trans[i].1.len() implies self.has_state(
            #[trigger] self.trans[i].1[j].1,
        ) by {
            if self.trans[i].1[j].1 == self.acc {
                assert(r[r.len() - 1] == self.acc);
            } else {
                lemma_trans_refs_has(self.trans, self.acc, i);
                let k = choose|k: int| 0 <= k < t.len() && t[k] == self.trans[i].1[j].1;
                assert(r[k + 1] == t[k]);
            }
        }
    }
}

/// Lists the states of `m` in order of first encounter, with repeats: the
/// initial state, each source followed by its destinations other than the
/// accepting state, and last the accepting state.
pub fn get_all_state_references(m: &Nfa) -> (states: Vec<State>)
    ensures
        states@ == m@.refs(),
{
    let ghost acc = m.accepting_state;
    let mut states: Vec<State> = Vec::new();
    states.push(m.initial_state);
    let mut i: usize = 0;
    while i < m.transitions.len()
        invariant
            0 <= i <= m.transitions.len(),
            acc == m.accepting_state,
            states@ == seq![m.initial_state] + trans_refs(m@.trans.take(i as int), acc),
        decreases m.transitions.len() - i,
    {
        let entry = &m.transitions[i];
        let ghost before = states@;
        states.push(entry.0);
        let mut j: usize = 0;
        while j < entry.1.len()
            invariant
                0 <= j <= entry.1.len(),
                acc == m.accepting_state,
                states@ == before + seq![entry.0] + targets_except(entry.1@.take(j as int), acc),
            decreases entry.1.len() - j,
        {
            let t = entry.1[j].1;
            assert(entry.1@.take(j + 1).drop_last() =~= entry.1@.take(j as int));
            if t != m.accepting_state {
                states.push(t);
            }
            j += 1;
        }
        assert(entry.1@.take(j as int) =~= entry.1@);
        assert(m@.trans.take(i + 1).drop_last() =~= m@.trans.take(i as int));
        assert(m@.trans[i as int] == (entry.0, entry.1@));
        assert(states@ =~= seq![m.initial_state] + trans_refs(m@.trans.take(i + 1), acc));
        i += 1;
    }
    assert(m@.trans.take(i as int) =~= m@.trans);
    states.push(m.accepting_state);
    assert(states@ =~= m@.refs());
    states
}

/// Builds the map that numbers the elements of `states`, in order of first
/// appearance, counting up from `*next_state`; advances `*next_state` past the
/// numbers given.
pub(crate) fn number_states(states: &Vec<State>, next_state: &mut State) -> (map: HashMap<State, State>)
    requires
        numbering(states@, *old(next_state) as nat).1 <= usize::MAX,
    ensures
        (map@, *final(next_state) as nat) == numbering(states@, *old(next_state) as nat),
{
    let ghost base = *next_state as nat;
    let mut map: HashMap<State, State> = HashMap::new();
    let mut i: usize = 0;
    while i < states.len()
        invariant
            0 <= i <= states.len(),
            numbering(states@, base).1 <= usize::MAX,
            (map@, *next_state as nat) == numbering(states@.take(i as int), base),
        decreases states.len() - i,
    {
        proof {
            lemma_numbering_prefix(states@, base, i + 1);
            lemma_numbering_prefix(states@, base, i as int);
            lemma_numbering(states@.take(i as int), base);
        }
        let s = states[i];
        assert(states@.take(i + 1).drop_last() =~= states@.take(i as int));
        if !map.contains_key(&s) {
            map.insert(s, *next_state);
            *next_state = *next_state + 1;
        }
        i += 1;
    }
    assert(states@.take(i as int) =~= states@);
    map
}

/// Returns `m` with every state `q` written `rename_map[q]`; the map must
/// name every state of `m`.
pub fn rename_nfa_with_map(m: &Nfa, rename_map: &HashMap<State, State>) -> (r: Nfa)
    requires
        forall|q: State| m@.has_state(q) ==> rename_map@.contains_key(q),
    ensures
        r@ == m@.relabel(rename_map@),
{
    proof {
        m@.lemma_refs_cover();
    }
    let f = Ghost(rename_map@);
    let new_init_state = *rename_map.get(&m.initial_state).unwrap();
    let new_acc_state = *rename_map.get(&m.accepting_state).unwrap();
    let mut transitions: Vec<(State, Vec<(char, State)>)> = Vec::new();
    let mut i: usize = 0;
    while i < m.transitions.len()
        invariant
            0 <= i <= m.transitions.len(),
            f@ == rename_map@,
            forall|q: State| m@.has_state(q) ==> rename_map@.contains_key(q),
            forall|i: int| 0 <= i < m@.trans.len() ==> m@.has_state(#[trigger] m@.trans[i].0),
            forall|i: int, j: int|
                0 <= i < m@.trans.len() && 0 <= j < m@.trans[i].1.len() ==> m@.has_state(
                    #[trigger] m@.trans[i].1[j].1,
                ),
            transitions@.len() == i,
            forall|k: int|
                0 <= k < i ==> (#[trigger] transitions@[k]).0 == f@[m@.trans[k].0]
                    && transitions@[k].1@ == relabel_list(m@.trans[k].1, f@),
        decreases m.transitions.len() - i,
    {
        let entry = &m.transitions[i];
        assert(m@.trans[i as int] == (entry.0, entry.1@));
        assert(m@.has_state(m@.trans[i as int].0));
        let new_state = *rename_map.get(&entry.0).unwrap();
        let mut out: Vec<(char, State)> = Vec::new();
        let mut j: usize = 0;
        while j < entry.1.len()
            invariant
                0 <= j <= entry.1.len(),
                0 <= i < m@.trans.len(),
                m@.trans[i as int] == (entry.0, entry.1@),
                f@ == rename_map@,
                forall|q: State| m@.has_state(q) ==> rename_map@.contains_key(q),
                forall|i: int, j: int|
                    0 <= i < m@.trans.len() && 0 <= j < m@.trans[i].1.len() ==> m@.has_state(
                        #[trigger] m@.trans[i].1[j].1,
                    ),
                out@ == relabel_list(entry.1@.take(j as int), f@),
            decreases entry.1.len() - j,
        {
            let (c, q) = entry.1[j];
            assert(m@.trans[i as int].1[j as int].1 == q);
            let nq = *rename_map.get(&q).unwrap();
            out.push((c, nq));
            j += 1;
            assert(out@ =~= relabel_list(entry.1@.take(j as int), f@));
        }
        assert(entry.1@.take(j as int) =~= entry.1@);
        transitions.push((new_state, out));
        i += 1;
    }
    let r = Nfa { initial_state: new_init_state, accepting_state: new_acc_state, transitions };
    assert(r@.trans =~= m@.relabel(f@).trans);
    r
}

/// Numbers the states of `m` as `0..n` in order of first encounter (see
/// `get_all_state_references`) and returns `n`, the number of distinct states.
pub fn rename_states(m: &mut Nfa) -> (num_total_states: usize)
    ensures
        final(m)@ == old(m)@.renamed(),
        num_total_states == old(m)@.state_count(),
{
    let states = get_all_state_references(m);
    let num_refs: usize = states.len();
    proof {
        lemma_numbering_len(states@, 0);
        assert(numbering(states@, 0).1 <= num_refs);
    }
    let mut next_state: State = 0;
    let rename_map = number_states(&states, &mut next_state);
    proof {
        lemma_numbering(states@, 0);
    }
    *m = rename_nfa_with_map(m, &rename_map);
    next_state
}

/// Numbers the states of `m1` as `0..n1` and those of `m2` as `n1..n1 + n2`,
/// each in order of first encounter, so that the two share no state.
pub fn rename_nfa_states(m1: &mut Nfa, m2: &mut Nfa)
    requires
        old(m1)@.state_count() + old(m2)@.state_count() <= usize::MAX,
    ensures
        ({
            let (f1, n1) = numbering(old(m1)@.refs(), 0);
            let (f2, n2) = numbering(old(m2)@.refs(), n1);
            &&& final(m1)@ == old(m1)@.relabel(f1)
            &&& final(m2)@ == old(m2)@.relabel(f2)
        }),
{
    let states1 = get_all_state_references(m1);
    let states2 = get_all_state_references(m2);
    proof {
        lemma_numbering_shift(states2@, numbering(states1@, 0).1);
    }
    let mut next_state: State = 0;
    let map1 = number_states(&states1, &mut next_state);
    proof {
        lemma_numbering(states1@, 0);
    }
    let map2 = number_states(&states2, &mut next_state);
    proof {
        lemma_numbering(states2@, numbering(states1@, 0).1);
    }
    *m1 = rename_nfa_with_map(m1, &map1);
    *m2 = rename_nfa_with_map(m2, &map2);
}

impl NfaModel {
    /// Every element of `refs` is the initial, the accepting, a source or a
    /// destination state.
    pub proof fn lemma_refs_shape(self, k: int)
        requires
            0 <= k < self.refs().len(),
        ensures
            ({
                let x = self.refs()[k];
                ||| x == self.init
                ||| x == self.acc
                ||| exists|i: int| 0 <= i < self.trans.len() && self.trans[i].0 == x
                ||| exists|i: int, j: int|
                    0 <= i < self.trans.len() && 0 <= j < self.trans[i].1.len()
                        && self.trans[i].1[j].1 == x
            }),
    {
        let t = trans_refs(self.trans, self.acc);
        if 0 < k < self.refs().len() - 1 {
            assert(self.refs()[k] == t[k - 1]);
            lemma_trans_refs_shape(self.trans, self.acc, k - 1);
        }
    }

    /// Relabelling by an injective map keeps the shape of the automaton.
    pub proof fn lemma_relabel(self, f: Map<State, State>, lo: nat, hi: nat)
        requires
            forall|x: State| self.has_state(x) ==> #[trigger] f.contains_key(x) && lo <= f[x] < hi,
            injective(f),
        ensures
            self.relabel(f).bounded(lo, hi),
            self.keys_distinct() ==> self.relabel(f).keys_distinct(),
            self.init != self.acc ==> self.relabel(f).init != self.relabel(f).acc,
            !self.is_key(self.acc) ==> !self.relabel(f).is_key(self.relabel(f).acc),
            forall|p: State, c: char, q: State|
                #[trigger] self.has_edge(p, c, q) ==> self.relabel(f).has_edge(f[p], c, f[q]),
            forall|p: State, c: char, q: State|
                #[trigger] self.relabel(f).has_edge(p, c, q) ==> exists|p0: State, q0: State|
                    #![trigger self.has_edge(p0, c, q0)]
                    f[p0] == p && f[q0] == q && self.has_edge(p0, c, q0),
    {
        self.lemma_relabel_edges(f);
        self.lemma_refs_cover();
        assert(f.contains_key(self.init) && f.contains_key(self.acc));
        let r = self.relabel(f);
        assert forall|i: int| 0 <= i < r.trans.len() implies lo <= #[trigger] r.trans[i].0 < hi by {
            assert(self.has_state(self.trans[i].0));
            assert(f.contains_key(self.trans[i].0));
        }
        assert forall|i: int, j: int| 0 <= i < r.trans.len() && 0 <= j < r.trans[i].1.len() implies lo
            <= #[trigger] r.trans[i].1[j].1 < hi by {
            assert(self.has_state(self.trans[i].1[j].1));
            assert(f.contains_key(self.trans[i].1[j].1));
            assert(r.trans[i].1 == relabel_list(self.trans[i].1, f));
            assert(r.trans[i].1[j].1 == f[self.trans[i].1[j].1]);
        }
        if self.keys_distinct() {
            assert forall|i: int, j: int|
                0 <= i < r.trans.len() && 0 <= j < r.trans.len() && i != j implies r.trans[i].0
                != r.trans[j].0 by {
                assert(self.has_state(self.trans[i].0));
                assert(self.has_state(self.trans[j].0));
            }
        }
        if !self.is_key(self.acc) {
            if r.is_key(r.acc) {
                let i = choose|i: int| 0 <= i < r.trans.len() && r.trans[i].0 == r.acc;
                assert(self.has_state(self.trans[i].0));
                assert(self.trans[i].0 == self.acc);
            }
        }
    }

    /// Relabelling by an injective map keeps the edges: `p --c--> q` becomes
    /// `f[p] --c--> f[q]`, and every edge afterwards comes from one before.
    pub proof fn lemma_relabel_edges(self, f: Map<State, State>)
        requires
            forall|x: State| self.has_state(x) ==> #[trigger] f.contains_key(x),
            injective(f),
        ensures
            forall|p: State, c: char, q: State|
                #[trigger] self.has_edge(p, c, q) ==> self.relabel(f).has_edge(f[p], c, f[q]),
            forall|p: State, c: char, q: State|
                #[trigger] self.relabel(f).has_edge(p, c, q) ==> exists|p0: State, q0: State|
                    #![trigger self.has_edge(p0, c, q0)]
                    f[p0] == p && f[q0] == q && self.has_edge(p0, c, q0),
    {
        let r = self.relabel(f);
        assert forall|p: State, c: char, q: State| #[trigger] self.has_edge(p, c, q) implies r.has_edge(
            f[p],
            c,
            f[q],
        ) by {
            let (i, j) = choose|i: int, j: int|
                #![trigger self.trans[i].1[j]]
                0 <= i < self.trans.len() && 0 <= j < self.trans[i].1.len() && self.trans[i].0 == p
                    && self.trans[i].1[j] == (c, q);
            assert(r.trans[i].1[j] == (c, f[q]));
        }
        assert forall|p: State, c: char, q: State| #[trigger] r.has_edge(p, c, q) implies exists|
            p0: State,
            q0: State,
        |
            #![trigger self.has_edge(p0, c, q0)]
            f[p0] == p && f[q0] == q && self.has_edge(p0, c, q0) by {
            let (i, j) = choose|i: int, j: int|
                #![trigger r.trans[i].1[j]]
                0 <= i < r.trans.len() && 0 <= j < r.trans[i].1.len() && r.trans[i].0 == p
                    && r.trans[i].1[j] == (c, q);
            let p0 = self.trans[i].0;
            let q0 = self.trans[i].1[j].1;
            assert(r.trans[i].1[j] == (self.trans[i].1[j].0, f[q0]));
            assert(self.trans[i].1[j] == (c, q0));
            assert(self.has_edge(p0, c, q0));
        }
    }

    /// Renaming an automaton whose accepting state has no outgoing
    /// transitions and differs from the initial state gives a well-formed
    /// automaton whose accepting state is the last of `0..n`.
    pub proof fn lemma_renamed_wf(self, b: nat)
        requires
            self.keys_distinct(),
            self.init != self.acc,
            !self.is_key(self.acc),
            self.bounded(0, b),
            b <= usize::MAX,
        ensures
            self.renamed().wf(),
            self.renamed().init != self.renamed().acc,
            !self.renamed().is_key(self.renamed().acc),
            self.renamed().num_states() == self.state_count(),
            self.state_count() <= b,
    {
        let refs = self.refs();
        assert forall|k: int| 0 <= k < refs.len() implies (#[trigger] refs[k]) < b by {
            self.lemma_refs_shape(k);
        }
        lemma_numbering_bounded(refs, 0, b);
        lemma_numbering(refs, 0);
        let (f, n) = numbering(refs, 0);
        let p = refs.drop_last();
        assert(!p.contains(self.acc)) by {
            if p.contains(self.acc) {
                let k = choose|k: int| 0 <= k < p.len() && p[k] == self.acc;
                assert(refs[k] == self.acc);
                self.lemma_refs_shape(k);
                if k > 0 {
                    lemma_trans_refs_shape(self.trans, self.acc, k - 1);
                    assert(trans_refs(self.trans, self.acc)[k - 1] == self.acc);
                }
            }
        }
        lemma_numbering(p, 0);
        assert(refs.last() == self.acc);
        assert(f[self.acc] == n - 1);
        self.lemma_relabel(f, 0, n);
    }
}

impl NfaModel {
    /// The states of an automaton whose states lie in `lo..hi` lie there.
    pub proof fn lemma_bounded_states(self, lo: nat, hi: nat)
        requires
            self.bounded(lo, hi),
        ensures
            forall|q: State| #[trigger] self.has_state(q) ==> lo <= q < hi,
    {
        assert forall|q: State| #[trigger] self.has_state(q) implies lo <= q < hi by {
            let k = choose|k: int| 0 <= k < self.refs().len() && self.refs()[k] == q;
            self.lemma_refs_shape(k);
        }
    }
}

/// Renaming two automata apart, as `rename_nfa_states` does, leaves them
/// with no state in common, and each keeps its transitions: an edge
/// `p --c--> q` becomes `f[p] --c--> f[q]` under an injective `f`, and every
/// edge after renaming comes from one before.
pub proof fn lemma_rename_pair_disjoint(m1: NfaModel, m2: NfaModel)
    requires
        m1.state_count() + m2.state_count() <= usize::MAX,
    ensures
        ({
            let (f1, n1) = numbering(m1.refs(), 0);
            let (f2, n2) = numbering(m2.refs(), n1);
            let r1 = m1.relabel(f1);
            let r2 = m2.relabel(f2);
            &&& forall|q: State| !(r1.has_state(q) && #[trigger] r2.has_state(q))
            &&& injective(f1) && injective(f2)
            &&& forall|p: State, c: char, q: State|
                #[trigger] m1.has_edge(p, c, q) ==> r1.has_edge(f1[p], c, f1[q])
            &&& forall|p: State, c: char, q: State|
                #[trigger] m2.has_edge(p, c, q) ==> r2.has_edge(f2[p], c, f2[q])
            &&& forall|p: State, c: char, q: State|
                #[trigger] r1.has_edge(p, c, q) ==> exists|p0: State, q0: State|
                    #![trigger m1.has_edge(p0, c, q0)]
                    f1[p0] == p && f1[q0] == q && m1.has_edge(p0, c, q0)
            &&& forall|p: State, c: char, q: State|
                #[trigger] r2.has_edge(p, c, q) ==> exists|p0: State, q0: State|
                    #![trigger m2.has_edge(p0, c, q0)]
                    f2[p0] == p && f2[q0] == q && m2.has_edge(p0, c, q0)
        }),
{
    let (f1, n1) = numbering(m1.refs(), 0);
    lemma_numbering_shift(m2.refs(), n1);
    lemma_numbering(m1.refs(), 0);
    lemma_numbering(m2.refs(), n1);
    let (f2, n2) = numbering(m2.refs(), n1);
    m1.lemma_relabel(f1, 0, n1);
    m2.lemma_relabel(f2, n1, n2);
    m1.relabel(f1).lemma_bounded_states(0, n1);
    m2.relabel(f2).lemma_bounded_states(n1, n2);
}

/// The identity on `0..n`.
pub open spec fn id_below(n: nat) -> Map<State, State> {
    Map::new(|y: State| (y as nat) < n, |y: State| y)
}

proof fn lemma_targets_except_relabel(l: Seq<(char, State)>, acc: State, f: Map<State, State>)
    requires
        injective(f),
        f.contains_key(acc),
        forall|j: int| 0 <= j < l.len() ==> f.contains_key(#[trigger] l[j].1),
    ensures
        targets_except(relabel_list(l, f), f[acc]) == targets_except(l, acc).map_values(
            |x: State| f[x],
        ),
    decreases l.len(),
{
    if l.len() > 0 {
        let p = l.drop_last();
        assert(relabel_list(l, f).drop_last() =~= relabel_list(p, f));
        assert forall|j: int| 0 <= j < p.len() implies f.contains_key(#[trigger] p[j].1) by {
            assert(p[j] == l[j]);
        }
        lemma_targets_except_relabel(p, acc, f);
        assert(f.contains_key(l[l.len() - 1].1));
        assert(relabel_list(l, f).last() == (l.last().0, f[l.last().1]));
        assert(targets_except(relabel_list(l, f), f[acc]) =~= targets_except(l, acc).map_values(
            |x: State| f[x],
        ));
    } else {
        assert(targets_except(relabel_list(l, f), f[acc]) =~= targets_except(l, acc).map_values(
            |x: State| f[x],
        ));
    }
}

proof fn lemma_trans_refs_relabel(m: NfaModel, f: Map<State, State>)
    requires
        injective(f),
        f.contains_key(m.acc),
        forall|i: int| 0 <= i < m.trans.len() ==> f.contains_key(#[trigger] m.trans[i].0),
        forall|i: int, j: int|
            0 <= i < m.trans.len() && 0 <= j < m.trans[i].1.len() ==> f.contains_key(
                #[trigger] m.trans[i].1[j].1,
            ),
    ensures
        trans_refs(m.relabel(f).trans, f[m.acc]) == trans_refs(m.trans, m.acc).map_values(
            |x: State| f[x],
        ),
    decreases m.trans.len(),
{
    if m.trans.len() > 0 {
        let p = NfaModel { init: m.init, acc: m.acc, trans: m.trans.drop_last() };
        assert(m.relabel(f).trans.drop_last() =~= p.relabel(f).trans);
        assert forall|i: int| 0 <= i < p.trans.len() implies f.contains_key(#[trigger] p.trans[i].0) by {
            assert(p.trans[i] == m.trans[i]);
        }
        assert forall|i: int, j: int|
            0 <= i < p.trans.len() && 0 <= j < p.trans[i].1.len() implies f.contains_key(
            #[trigger] p.trans[i].1[j].1,
        ) by {
            assert(p.trans[i] == m.trans[i]);
        }
        lemma_trans_refs_relabel(p, f);
        let last = m.trans.last();
        assert(last == m.trans[m.trans.len() - 1]);
        assert(f.contains_key(last.0));
        assert forall|j: int| 0 <= j < last.1.len() implies f.contains_key(#[trigger] last.1[j].1) by {
            assert(m.trans[m.trans.len() - 1].1[j] == last.1[j]);
        }
        lemma_targets_except_relabel(last.1, m.acc, f);
        assert(m.relabel(f).trans.last() == (f[last.0], relabel_list(last.1, f)));
        assert(trans_refs(m.relabel(f).trans, f[m.acc]) =~= trans_refs(m.trans, m.acc).map_values(
            |x: State| f[x],
        ));
    } else {
        assert(trans_refs(m.relabel(f).trans, f[m.acc]) =~= trans_refs(m.trans, m.acc).map_values(
            |x: State| f[x],
        ));
    }
}

/// Numbering the numbers that `numbering` gave, in the same order, gives
/// each its own value back.
proof fn lemma_numbering_of_numbers(s: Seq<State>, g: Map<State, State>)
    requires
        numbering(s, 0).1 <= usize::MAX + 1,
        forall|k: int|
            0 <= k < s.len() ==> g.contains_key(#[trigger] s[k]) && g[s[k]] == numbering(s, 0).0[s[k]],
    ensures
        numbering(s.map_values(|x: State| g[x]), 0) == (id_below(numbering(s, 0).1), numbering(s, 0).1),
    decreases s.len(),
{
    let t = s.map_values(|x: State| g[x]);
    if s.len() == 0 {
        assert(id_below(0) =~= Map::empty());
    } else {
        let p = s.drop_last();
        let x = s.last();
        let (fp, np) = numbering(p, 0);
        lemma_numbering(p, 0);
        lemma_numbering(s, 0);
        assert forall|k: int| 0 <= k < p.len() implies g.contains_key(#[trigger] p[k]) && g[p[k]]
            == numbering(p, 0).0[p[k]] by {
            assert(s[k] == p[k]);
            assert(p.contains(p[k]));
        }
        lemma_numbering_of_numbers(p, g);
        assert(t.drop_last() =~= p.map_values(|x: State| g[x]));
        assert(s[s.len() - 1] == x);
        if p.contains(x) {
            assert(fp.contains_key(x));
            assert(g[x] < np);
        } else {
            assert(!fp.contains_key(x));
            assert(g[x] == np);
            assert(id_below(np).insert(np as State, np as State) =~= id_below(np + 1));
        }
    }
}

/// Renaming is idempotent: an automaton whose states are already numbered
/// `0..n` in order of first encounter is left exactly as it is.
pub proof fn lemma_rename_idempotent(m: NfaModel)
    requires
        m.state_count() <= usize::MAX,
    ensures
        m.renamed().renamed() == m.renamed(),
        m.renamed().state_count() == m.state_count(),
{
    let (f, n) = numbering(m.refs(), 0);
    lemma_numbering(m.refs(), 0);
    m.lemma_refs_cover();
    let r = m.relabel(f);
    lemma_trans_refs_relabel(m, f);
    assert(r.refs() =~= m.refs().map_values(|x: State| f[x]));
    assert forall|k: int| 0 <= k < m.refs().len() implies f.contains_key(#[trigger] m.refs()[k]) && f[m.refs()[k]]
        == numbering(m.refs(), 0).0[m.refs()[k]] by {
        assert(m.refs().contains(m.refs()[k]));
    }
    lemma_numbering_of_numbers(m.refs(), f);
    assert(r.dense_numbering() == id_below(n));
    m.lemma_relabel(f, 0, n);
    let id = id_below(n);
    let r2 = r.relabel(id);
    assert forall|i: int| 0 <= i < r.trans.len() implies #[trigger] r2.trans[i] == r.trans[i] by {
        assert(relabel_list(r.trans[i].1, id) =~= r.trans[i].1);
    }
    assert(r2.trans =~= r.trans);
}

} // verus!
