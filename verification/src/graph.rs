//! Extraction of an explicit state graph from the backend automaton.
//!
//! Starting from the automaton's start state, every reachable state is
//! classified once: accepting (`Match`), rejecting sink (`Dead`), or a set
//! of outgoing transitions grouping the 256 byte values by target state.
//! The resulting graph is closed: every target named by a transition is
//! itself classified in the graph.

use vstd::prelude::*;
use vstd::set_lib::lemma_int_range;
use vstd::set_lib::lemma_len_subset;
use vstd::set_lib::set_int_range;
use crate::engine::RegexDfa;
use crate::engine::dfa_is_dead;
use crate::engine::dfa_is_match;
use crate::engine::dfa_next;
use crate::engine::dfa_run;
use crate::engine::dfa_start;
use crate::engine::dfa_state_count;
use crate::engine::is_dead_state;
use crate::engine::is_match_state;
use crate::engine::next_state;
use crate::engine::start_state;
use crate::ranges::strictly_ascending;

verus! {

/// One transition group of a state: every byte value in `bytes` (kept
/// strictly ascending) moves the automaton to `target`.
pub struct Arm {
    pub target: usize,
    pub bytes: Vec<u8>,
}

/// The classification of one automaton state.
pub enum State {
    Match,
    Dead,
    Transitions(Vec<Arm>),
}

/// A classified state, keyed by its automaton state identifier.
pub struct StateEntry {
    pub id: usize,
    pub state: State,
}

/// The extracted state graph: every reachable state of the automaton,
/// classified, rooted at `start`.
pub struct Dfa {
    pub start: usize,
    pub states: Vec<StateEntry>,
}

/// `arm` faithfully describes outgoing transitions of state `id`: it is a
/// non-empty, strictly ascending set of bytes, each of which moves the
/// automaton from `id` to `arm.target`.
pub open spec fn arm_ok(d: RegexDfa, id: usize, arm: Arm) -> bool {
    &&& arm.bytes@.len() > 0
    &&& strictly_ascending(arm.bytes@)
    &&& (arm.target as int) < dfa_state_count(d)
    &&& forall|k: int| 0 <= k < arm.bytes@.len() ==> dfa_next(d, id, #[trigger] arm.bytes@[k]) == arm.target
}

/// Some arm of `arms` claims byte `b`.
pub open spec fn arms_cover(arms: Seq<Arm>, b: u8) -> bool {
    exists|j: int| 0 <= j < arms.len() && (#[trigger] arms[j]).bytes@.contains(b)
}

/// No two arms share a target state.
pub open spec fn arms_distinct_targets(arms: Seq<Arm>) -> bool {
    forall|j: int, k: int| 0 <= j < k < arms.len() ==> arms[j].target != arms[k].target
}

/// The transition arms of state `id` are a total, deterministic account of
/// the automaton's byte transitions out of `id`: targets are distinct,
/// every arm is faithful, and every byte value is claimed by some arm (and
/// then, by distinctness, by exactly one).
pub open spec fn trans_ok(d: RegexDfa, id: usize, arms: Seq<Arm>) -> bool {
    &&& arms_distinct_targets(arms)
    &&& forall|j: int| 0 <= j < arms.len() ==> arm_ok(d, id, #[trigger] arms[j])
    &&& forall|b: u8| arms_cover(arms, b)
}

/// The classification `s` says of state `id` exactly what the automaton
/// says: `Match` for accepting states, `Dead` for the rejecting sink, and
/// otherwise a total account of the byte transitions.
pub open spec fn state_ok(d: RegexDfa, id: usize, s: State) -> bool {
    if dfa_is_match(d, id) {
        s == State::Match
    } else if dfa_is_dead(d, id) {
        s == State::Dead
    } else {
        match s {
            State::Transitions(arms) => trans_ok(d, id, arms@),
            _ => false,
        }
    }
}

/// Some entry of the graph classifies state `id`.
pub open spec fn has_state(states: Seq<StateEntry>, id: usize) -> bool {
    exists|i: int| 0 <= i < states.len() && (#[trigger] states[i]).id == id
}

/// The classification the graph holds for `id` (meaningful when the graph
/// has distinct entry identifiers and `has_state(states, id)`).
pub open spec fn state_of(states: Seq<StateEntry>, id: usize) -> State {
    states[choose|i: int| 0 <= i < states.len() && (#[trigger] states[i]).id == id].state
}

/// No two entries classify the same state identifier.
pub open spec fn distinct_ids(states: Seq<StateEntry>) -> bool {
    forall|i: int, j: int| 0 <= i < j < states.len() ==> states[i].id != states[j].id
}

/// One extraction step of the automaton: `from` is non-terminal and some
/// byte moves the automaton from it to `to`. The extractor never walks
/// through terminal states, so reachability is over these steps.
pub open spec fn dfa_step(d: RegexDfa, from: usize, to: usize) -> bool {
    &&& !dfa_is_match(d, from)
    &&& !dfa_is_dead(d, from)
    &&& exists|b: u8| dfa_next(d, from, b) == to
}

/// `to` can be reached from `from` in at most `n` extraction steps.
pub open spec fn reaches_in(d: RegexDfa, from: usize, to: usize, n: nat) -> bool
    decreases n,
{
    if from == to {
        true
    } else if n == 0 {
        false
    } else {
        exists|m: usize| reaches_in(d, from, m, (n - 1) as nat) && dfa_step(d, m, to)
    }
}

/// `id` is reachable from the automaton's start state by extraction steps.
pub open spec fn reachable(d: RegexDfa, id: usize) -> bool {
    exists|n: nat| reaches_in(d, dfa_start(d), id, n)
}

/// Every target named by the transition arms of entry `i` is classified in
/// the graph.
pub open spec fn entry_targets_present(states: Seq<StateEntry>, i: int) -> bool {
    match states[i].state {
        State::Transitions(arms) => forall|j: int|
            0 <= j < arms@.len() ==> has_state(states, (#[trigger] arms@[j]).target),
        _ => true,
    }
}

/// The extracted graph is well formed for automaton `d`: rooted at the
/// automaton's start state, closed under transition targets, free of
/// duplicate entries, and every entry classifies its state exactly as the
/// automaton does.
pub open spec fn graph_ok(d: RegexDfa, g: Dfa) -> bool {
    &&& g.start == dfa_start(d)
    &&& has_state(g.states@, g.start)
    &&& distinct_ids(g.states@)
    &&& forall|i: int| 0 <= i < g.states@.len()
        ==> state_ok(d, (#[trigger] g.states@[i]).id, g.states@[i].state)
    &&& forall|i: int| 0 <= i < g.states@.len() ==> entry_targets_present(g.states@, i)
    &&& forall|i: int| 0 <= i < g.states@.len() ==> ((#[trigger] g.states@[i]).id as int) < dfa_state_count(d)
    &&& forall|i: int| 0 <= i < g.states@.len() ==> reachable(d, (#[trigger] g.states@[i]).id)
}

/// The state an arm set sends byte `b` to (meaningful when some arm covers
/// `b`; by distinctness of targets it does not matter which covering arm
/// is picked).
pub open spec fn arm_step(arms: Seq<Arm>, b: u8) -> usize {
    arms[choose|j: int| 0 <= j < arms.len() && (#[trigger] arms[j]).bytes@.contains(b)].target
}

/// Byte-by-byte interpretation of the extracted graph from state `id`,
/// mirroring `dfa_run` on the automaton itself.
pub open spec fn graph_run(states: Seq<StateEntry>, id: usize, input: Seq<u8>) -> bool
    decreases input.len(),
{
    if !has_state(states, id) {
        false
    } else {
        match state_of(states, id) {
            State::Match => true,
            State::Dead => false,
            State::Transitions(arms) => if input.len() == 0 {
                false
            } else {
                graph_run(states, arm_step(arms@, input[0]), input.skip(1))
            },
        }
    }
}

/// A sequence of distinct identifiers all below `n` has at most `n`
/// elements.
proof fn lemma_distinct_ids_bounded(states: Seq<StateEntry>, n: int)
    requires
        distinct_ids(states),
        forall|i: int| 0 <= i < states.len() ==> ((#[trigger] states[i]).id as int) < n,
        n >= 0,
    ensures
        states.len() <= n,
{
    let ids = Seq::new(states.len(), |i: int| states[i].id as int);
    assert(ids.no_duplicates());
    ids.unique_seq_to_set();
    lemma_int_range(0, n);
    assert forall|x: int| ids.to_set().contains(x) implies set_int_range(0, n).contains(x) by {
        let i = choose|i: int| 0 <= i < ids.len() && ids[i] == x;
        assert(0 <= ids[i] < n);
    }
    lemma_len_subset(ids.to_set(), set_int_range(0, n));
}

/// In a graph with distinct identifiers, the classification looked up for
/// the identifier of entry `i` is entry `i`'s.
pub proof fn lemma_state_of_entry(states: Seq<StateEntry>, i: int)
    requires
        distinct_ids(states),
        0 <= i < states.len(),
    ensures
        has_state(states, states[i].id),
        state_of(states, states[i].id) == states[i].state,
{
    let id = states[i].id;
    assert(has_state(states, id));
    let w = choose|w: int| 0 <= w < states.len() && (#[trigger] states[w]).id == id;
    if w != i {
        assert(false);
    }
}

/// On a well-formed graph, running the graph from any classified state
/// agrees with running the automaton itself from that state, on every
/// input.
pub proof fn lemma_graph_models(d: RegexDfa, g: Dfa, id: usize, input: Seq<u8>)
    requires
        graph_ok(d, g),
        has_state(g.states@, id),
    ensures
        graph_run(g.states@, id, input) == dfa_run(d, id, input),
    decreases input.len(),
{
    let states = g.states@;
    let i = choose|i: int| 0 <= i < states.len() && (#[trigger] states[i]).id == id;
    lemma_state_of_entry(states, i);
    assert(state_ok(d, id, states[i].state));
    match states[i].state {
        State::Match => {},
        State::Dead => {},
        State::Transitions(arms) => {
            assert(!dfa_is_match(d, id) && !dfa_is_dead(d, id));
            if input.len() > 0 {
                let b = input[0];
                assert(arms_cover(arms@, b));
                let j = choose|j: int| 0 <= j < arms@.len() && (#[trigger] arms@[j]).bytes@.contains(b);
                assert(arm_ok(d, id, arms@[j]));
                let k = choose|k: int| 0 <= k < arms@[j].bytes@.len() && arms@[j].bytes@[k] == b;
                assert(dfa_next(d, id, arms@[j].bytes@[k]) == arms@[j].target);
                assert(arm_step(arms@, b) == dfa_next(d, id, b));
                assert(entry_targets_present(states, i));
                assert(has_state(states, arms@[j].target));
                lemma_graph_models(d, g, dfa_next(d, id, b), input.skip(1));
            }
        },
    }
}

impl State {
    /// Classify state `id` of the automaton: accepting, rejecting sink, or
    /// the grouping of all 256 byte values by their target state.
    pub fn from_regex(d: &RegexDfa, id: usize) -> (s: State)
        requires
            (id as int) < dfa_state_count(*d),
        ensures
            state_ok(*d, id, s),
    {
        if is_match_state(d, id) {
            State::Match
        } else if is_dead_state(d, id) {
            State::Dead
        } else {
            let mut arms: Vec<Arm> = Vec::new();
            let mut b: usize = 0;
            while b < 256
                invariant
                    b <= 256,
                    (id as int) < dfa_state_count(*d),
                    arms_distinct_targets(arms@),
                    forall|j: int| 0 <= j < arms@.len() ==> arm_ok(*d, id, #[trigger] arms@[j]),
                    forall|j: int, k: int|
                        #![trigger arms@[j].bytes@[k]]
                        0 <= j < arms@.len() && 0 <= k < arms@[j].bytes@.len()
                            ==> (arms@[j].bytes@[k] as int) < b,
                    forall|b2: u8| (b2 as int) < b ==> arms_cover(arms@, b2),
                decreases 256 - b,
            {
                let t = next_state(d, id, b as u8);
                let mut j: usize = 0;
                while j < arms.len() && arms[j].target != t
                    invariant
                        j <= arms@.len(),
                        forall|k: int| 0 <= k < j ==> (#[trigger] arms@[k]).target != t,
                    decreases arms@.len() - j,
                {
                    j += 1;
                }
                let ghost pre = arms@;
                if j < arms.len() {
                    let mut arm = arms.remove(j);
                    arm.bytes.push(b as u8);
                    let ghost arm2 = arm;
                    arms.insert(j, arm);
                    proof {
                        assert(arms@ =~= pre.update(j as int, arm2));
                        assert(arms@[j as int] == arm2);
                        assert(arm2.bytes@ == pre[j as int].bytes@.push(b as u8));
                        assert(arm2.target == t);
                        assert forall|b2: u8| (b2 as int) < b + 1 implies arms_cover(arms@, b2) by {
                            if (b2 as int) < b {
                                assert(arms_cover(pre, b2));
                                let w = choose|w: int| 0 <= w < pre.len() && (#[trigger] pre[w]).bytes@.contains(b2);
                                if w == j {
                                    assert(pre[w].bytes@.contains(b2));
                                    let k = choose|k: int|
                                        0 <= k < pre[j as int].bytes@.len() && pre[j as int].bytes@[k] == b2;
                                    assert(0 <= k < pre[j as int].bytes@.len());
                                    assert(pre[j as int].bytes@[k] == b2);
                                    assert(arms@[j as int].bytes@[k] == pre[j as int].bytes@[k]);
                                    assert(arms@[j as int].bytes@[k] == b2);
                                    assert(arms@[j as int].bytes@.contains(b2));
                                } else {
                                    assert(arms@[w].bytes@.contains(b2));
                                }
                            } else {
                                assert(arms@[j as int].bytes@[arms@[j as int].bytes@.len() - 1] == b2);
                                assert(arms@[j as int].bytes@.contains(b2));
                            }
                        }
                    }
                } else {
                    let mut nb: Vec<u8> = Vec::new();
                    nb.push(b as u8);
                    arms.push(Arm { target: t, bytes: nb });
                    proof {
                        assert forall|b2: u8| (b2 as int) < b + 1 implies arms_cover(arms@, b2) by {
                            if (b2 as int) < b {
                                assert(arms_cover(pre, b2));
                                let w = choose|w: int| 0 <= w < pre.len() && (#[trigger] pre[w]).bytes@.contains(b2);
                                assert(arms@[w].bytes@.contains(b2));
                            } else {
                                assert(arms@[arms@.len() - 1].bytes@[0] == b2);
                                assert(arms@[arms@.len() - 1].bytes@.contains(b2));
                            }
                        }
                    }
                }
                b += 1;
            }
            State::Transitions(arms)
        }
    }
}

/// Whether the graph built so far already classifies state `id`.
fn contains_state(states: &Vec<StateEntry>, id: usize) -> (r: bool)
    ensures
        r == has_state(states@, id),
{
    let mut i: usize = 0;
    while i < states.len()
        invariant
            i <= states@.len(),
            forall|k: int| 0 <= k < i ==> (#[trigger] states@[k]).id != id,
        decreases states@.len() - i,
    {
        if states[i].id == id {
            return true;
        }
        i += 1;
    }
    false
}

impl Dfa {
    /// Extract the complete reachable state graph of the automaton,
    /// classifying every state reachable from the start state exactly
    /// once.
    pub fn from_regex(d: &RegexDfa) -> (g: Dfa)
        ensures
            graph_ok(*d, g),
    {
        let start = start_state(d);
        let mut states: Vec<StateEntry> = Vec::new();
        let mut work: Vec<usize> = Vec::new();
        work.push(start);
        proof {
            assert(work@[0] == start);
            assert(work@.contains(start));
            assert(reaches_in(*d, dfa_start(*d), start, 0));
            assert(reachable(*d, start));
        }
        while work.len() > 0
            invariant
                forall|k: int| 0 <= k < work@.len() ==> ((#[trigger] work@[k]) as int) < dfa_state_count(*d),
                forall|k: int| 0 <= k < work@.len() ==> reachable(*d, #[trigger] work@[k]),
                forall|i: int| 0 <= i < states@.len() ==> reachable(*d, (#[trigger] states@[i]).id),
                distinct_ids(states@),
                forall|i: int| 0 <= i < states@.len()
                    ==> state_ok(*d, (#[trigger] states@[i]).id, states@[i].state),
                forall|i: int| 0 <= i < states@.len() ==> ((#[trigger] states@[i]).id as int) < dfa_state_count(*d),
                forall|i: int| 0 <= i < states@.len() ==> entry_targets_tracked(states@, work@, i),
                has_state(states@, start) || work@.contains(start),
            decreases dfa_state_count(*d) - states@.len(), work@.len(),
        {
            proof {
                lemma_distinct_ids_bounded(states@, dfa_state_count(*d));
            }
            let ghost work0 = work@;
            let id = match work.pop() {
                Some(id) => id,
                None => vstd::pervasive::unreached(),
            };
            assert(id == work0[work0.len() - 1]);
            assert(work@ =~= work0.drop_last());
            if !contains_state(&states, id) {
                let s = State::from_regex(d, id);
                let ghost pre_work = work@;
                if let State::Transitions(arms) = &s {
                    proof {
                        assert(!dfa_is_match(*d, id) && !dfa_is_dead(*d, id));
                    }
                    let mut j: usize = 0;
                    while j < arms.len()
                        invariant
                            j <= arms@.len(),
                            !dfa_is_match(*d, id) && !dfa_is_dead(*d, id),
                            reachable(*d, id),
                            forall|k: int| 0 <= k < work@.len()
                                ==> ((#[trigger] work@[k]) as int) < dfa_state_count(*d),
                            forall|k: int| 0 <= k < work@.len() ==> reachable(*d, #[trigger] work@[k]),
                            forall|k: int| 0 <= k < j ==> work@.contains((#[trigger] arms@[k]).target),
                            forall|k: int| 0 <= k < pre_work.len() ==> work@.contains(#[trigger] pre_work[k]),
                            forall|j2: int| 0 <= j2 < arms@.len() ==> arm_ok(*d, id, #[trigger] arms@[j2]),
                        decreases arms@.len() - j,
                    {
                        let t = arms[j].target;
                        let ghost w0 = work@;
                        work.push(t);
                        proof {
                            assert(arm_ok(*d, id, arms@[j as int]));
                            assert(arms@[j as int].bytes@.len() > 0);
                            assert(dfa_next(*d, id, arms@[j as int].bytes@[0]) == t);
                            assert(dfa_step(*d, id, t));
                            let n = choose|n: nat| reaches_in(*d, dfa_start(*d), id, n);
                            assert(reaches_in(*d, dfa_start(*d), t, n + 1));
                            assert(reachable(*d, t));
                            assert forall|k: int| 0 <= k < j + 1
                                implies work@.contains((#[trigger] arms@[k]).target) by {
                                if k < j {
                                    let w = choose|w: int| 0 <= w < w0.len() && w0[w] == arms@[k].target;
                                    assert(work@[w] == arms@[k].target);
                                } else {
                                    assert(work@[work@.len() - 1] == t);
                                }
                            }
                            assert forall|k: int| 0 <= k < pre_work.len()
                                implies work@.contains(#[trigger] pre_work[k]) by {
                                let w = choose|w: int| 0 <= w < w0.len() && w0[w] == pre_work[k];
                                assert(work@[w] == pre_work[k]);
                            }
                        }
                        j += 1;
                    }
                }
                let ghost states0 = states@;
                states.push(StateEntry { id, state: s });
                proof {
                    assert forall|i: int| 0 <= i < states@.len()
                        implies entry_targets_tracked(states@, work@, i) by {
                        lemma_targets_tracked_after_push(states0, states@, work0, pre_work, work@, id, i);
                    }
                    if has_state(states0, start) {
                        let w = choose|w: int| 0 <= w < states0.len() && (#[trigger] states0[w]).id == start;
                        assert(states@[w].id == start);
                    } else if start == id {
                        assert(states@[states@.len() - 1].id == start);
                    } else {
                        let w = choose|w: int| 0 <= w < work0.len() && work0[w] == start;
                        assert(w < work0.len() - 1);
                        assert(pre_work[w] == start);
                        assert(pre_work.contains(start));
                    }
                    lemma_distinct_ids_bounded(states@, dfa_state_count(*d));
                }
            } else {
                proof {
                    assert forall|i: int| 0 <= i < states@.len()
                        implies entry_targets_tracked(states@, work@, i) by {
                        lemma_targets_tracked_after_pop(states@, work0, work@, id, i);
                    }
                    if !has_state(states@, start) {
                        let w = choose|w: int| 0 <= w < work0.len() && work0[w] == start;
                        if w < work0.len() - 1 {
                            assert(work@[w] == start);
                        }
                    }
                }
            }
        }
        proof {
            assert(!work@.contains(start)) by {
                if work@.contains(start) {
                    let w = choose|w: int| 0 <= w < work@.len() && work@[w] == start;
                }
            }
            assert forall|i: int| 0 <= i < states@.len()
                implies entry_targets_present(states@, i) by {
                assert(entry_targets_tracked(states@, work@, i));
                match states@[i].state {
                    State::Transitions(arms) => {
                        assert forall|j: int| 0 <= j < arms@.len()
                            implies has_state(states@, (#[trigger] arms@[j]).target) by {
                            if work@.contains(arms@[j].target) {
                                let w = choose|w: int|
                                    0 <= w < work@.len() && work@[w] == arms@[j].target;
                            }
                        }
                    },
                    _ => {},
                }
            }
        }
        Dfa { start, states }
    }
}

/// Every target named by the transition arms of entry `i` is either
/// already classified or still queued for classification.
pub open spec fn entry_targets_tracked(states: Seq<StateEntry>, work: Seq<usize>, i: int) -> bool {
    match states[i].state {
        State::Transitions(arms) => forall|j: int|
            0 <= j < arms@.len()
                ==> has_state(states, (#[trigger] arms@[j]).target) || work.contains(arms@[j].target),
        _ => true,
    }
}

proof fn lemma_targets_tracked_after_pop(
    states: Seq<StateEntry>,
    work0: Seq<usize>,
    work1: Seq<usize>,
    id: usize,
    i: int,
)
    requires
        0 <= i < states.len(),
        work0.len() > 0,
        work1 =~= work0.drop_last(),
        work0[work0.len() - 1] == id,
        has_state(states, id),
        entry_targets_tracked(states, work0, i),
    ensures
        entry_targets_tracked(states, work1, i),
{
    match states[i].state {
        State::Transitions(arms) => {
            assert forall|j: int| 0 <= j < arms@.len()
                implies has_state(states, (#[trigger] arms@[j]).target) || work1.contains(arms@[j].target) by {
                let t = arms@[j].target;
                if !has_state(states, t) {
                    let w = choose|w: int| 0 <= w < work0.len() && work0[w] == t;
                    if w < work0.len() - 1 {
                        assert(work1[w] == t);
                    }
                }
            }
        },
        _ => {},
    }
}

proof fn lemma_targets_tracked_after_push(
    states0: Seq<StateEntry>,
    states1: Seq<StateEntry>,
    work0: Seq<usize>,
    pre_work: Seq<usize>,
    work1: Seq<usize>,
    id: usize,
    i: int,
)
    requires
        0 <= i < states1.len(),
        states1 =~= states0.push(states1[states1.len() - 1]),
        states1[states1.len() - 1].id == id,
        work0.len() > 0,
        pre_work =~= work0.drop_last(),
        work0[work0.len() - 1] == id,
        forall|k: int| 0 <= k < pre_work.len() ==> work1.contains(#[trigger] pre_work[k]),
        forall|i0: int| 0 <= i0 < states0.len() ==> entry_targets_tracked(states0, work0, i0),
        (match states1[states1.len() - 1].state {
            State::Transitions(arms) => forall|k: int|
                0 <= k < arms@.len() ==> work1.contains((#[trigger] arms@[k]).target),
            _ => true,
        }),
    ensures
        entry_targets_tracked(states1, work1, i),
{
    if i == states1.len() - 1 {
        match states1[i].state {
            State::Transitions(arms) => {
                assert forall|j: int| 0 <= j < arms@.len()
                    implies has_state(states1, (#[trigger] arms@[j]).target)
                        || work1.contains(arms@[j].target) by {
                    assert(work1.contains(arms@[j].target));
                }
            },
            _ => {},
        }
    } else {
        assert(states1[i] == states0[i]);
        match states1[i].state {
            State::Transitions(arms) => {
                assert forall|j: int| 0 <= j < arms@.len()
                    implies has_state(states1, (#[trigger] arms@[j]).target)
                        || work1.contains(arms@[j].target) by {
                    let t = arms@[j].target;
                    assert(entry_targets_tracked(states0, work0, i));
                    if has_state(states0, t) {
                        let w = choose|w: int| 0 <= w < states0.len() && (#[trigger] states0[w]).id == t;
                        assert(states1[w].id == t);
                    } else if work0.contains(t) {
                        let w = choose|w: int| 0 <= w < work0.len() && work0[w] == t;
                        if w == work0.len() - 1 {
                            assert(t == id);
                            assert(states1[states1.len() - 1].id == t);
                        } else {
                            assert(pre_work[w] == t);
                            assert(pre_work.contains(t));
                            assert(work1.contains(t));
                        }
                    }
                }
            },
            _ => {},
        }
    }
}

/// Law: for a non-terminal state's transition account, every byte value
/// is claimed by exactly one arm — the arms partition the byte alphabet.
pub proof fn lemma_byte_in_exactly_one_arm(d: RegexDfa, id: usize, arms: Seq<Arm>, b: u8)
    requires
        trans_ok(d, id, arms),
    ensures
        arms_cover(arms, b),
        forall|j: int, k: int|
            #![trigger arms[j].bytes@.contains(b), arms[k].bytes@.contains(b)]
            0 <= j < arms.len() && 0 <= k < arms.len()
                && arms[j].bytes@.contains(b) && arms[k].bytes@.contains(b) ==> j == k,
{
    assert forall|j: int, k: int|
        #![trigger arms[j].bytes@.contains(b), arms[k].bytes@.contains(b)]
        0 <= j < arms.len() && 0 <= k < arms.len()
            && arms[j].bytes@.contains(b) && arms[k].bytes@.contains(b) implies j == k by {
        if j != k {
            assert(arm_ok(d, id, arms[j]));
            assert(arm_ok(d, id, arms[k]));
            let x = choose|x: int| 0 <= x < arms[j].bytes@.len() && arms[j].bytes@[x] == b;
            let y = choose|y: int| 0 <= y < arms[k].bytes@.len() && arms[k].bytes@[y] == b;
            assert(dfa_next(d, id, arms[j].bytes@[x]) == arms[j].target);
            assert(dfa_next(d, id, arms[k].bytes@[y]) == arms[k].target);
            assert(false);
        }
    }
}


proof fn lemma_reaches_in_classified(d: RegexDfa, g: Dfa, id: usize, n: nat)
    requires
        graph_ok(d, g),
        reaches_in(d, dfa_start(d), id, n),
    ensures
        has_state(g.states@, id),
    decreases n,
{
    let states = g.states@;
    if id == dfa_start(d) {
    } else {
        let m = choose|m: usize|
            reaches_in(d, dfa_start(d), m, (n - 1) as nat) && dfa_step(d, m, id);
        lemma_reaches_in_classified(d, g, m, (n - 1) as nat);
        let i = choose|i: int| 0 <= i < states.len() && (#[trigger] states[i]).id == m;
        assert(state_ok(d, m, states[i].state));
        let b = choose|b: u8| dfa_next(d, m, b) == id;
        match states[i].state {
            State::Transitions(arms) => {
                assert(trans_ok(d, m, arms@));
                assert(arms_cover(arms@, b));
                let w = choose|w: int| 0 <= w < arms@.len() && (#[trigger] arms@[w]).bytes@.contains(b);
                assert(arm_ok(d, m, arms@[w]));
                let k = choose|k: int| 0 <= k < arms@[w].bytes@.len() && arms@[w].bytes@[k] == b;
                assert(dfa_next(d, m, arms@[w].bytes@[k]) == arms@[w].target);
                assert(arms@[w].target == id);
                assert(entry_targets_present(states, i));
                assert(has_state(states, arms@[w].target));
            },
            _ => {
                assert(false);
            },
        }
    }
}

/// Law: a well-formed graph classifies exactly the states reachable from
/// the start: together with the reachability of every entry (part of
/// `graph_ok`), every state reachable from the start state is classified
/// in the graph — no reachable state is missing.
pub proof fn lemma_reachable_is_classified(d: RegexDfa, g: Dfa, id: usize)
    requires
        graph_ok(d, g),
        reachable(d, id),
    ensures
        has_state(g.states@, id),
{
    let n = choose|n: nat| reaches_in(d, dfa_start(d), id, n);
    lemma_reaches_in_classified(d, g, id, n);
}


} // verus!
