//! Rendering of the state graph as a structured matcher program.
//!
//! The matcher is code as data: a loop over the input bytes with a current
//! state, one branch per graph state, and per-branch dispatch arms whose
//! conditions are coalesced byte ranges. Transitions whose target is
//! terminal are inlined as immediate accept / reject outcomes; all other
//! transitions continue at the target state. A separate renderer can print
//! this structure as source text; the verified interpreter here gives it
//! its meaning.

use vstd::prelude::*;
use crate::engine::RegexDfa;
use crate::engine::dfa_is_match;
use crate::engine::dfa_next;
use crate::engine::dfa_run;
use crate::engine::dfa_start;
use crate::graph::Arm;
use crate::graph::Dfa;
use crate::graph::State;
use crate::graph::StateEntry;
use crate::graph::arms_cover;
use crate::graph::distinct_ids;
use crate::graph::entry_targets_present;
use crate::graph::has_state;
use crate::graph::state_of;
use crate::graph::lemma_state_of_entry;
use crate::graph::lemma_graph_models;
use crate::graph::graph_ok;
use crate::graph::graph_run;
use crate::graph::state_ok;
use crate::graph::trans_ok;
use crate::graph::arm_ok;
use crate::ranges::ByteRange;
use crate::ranges::coalesce;
use crate::ranges::ranges_cover;
use crate::ranges::ranges_wf;
use crate::ranges::strictly_ascending;

verus! {

/// What one dispatch arm does when its byte ranges match: accept the input
/// outright, reject it outright, or continue at a state.
#[derive(Clone, Copy, Debug, PartialEq, Eq)]
pub enum Outcome {
    Accept,
    Reject,
    Continue(usize),
}

/// One dispatch arm of a state branch: if the current byte falls in one of
/// `ranges`, the arm's outcome applies.
#[derive(Clone, Debug, PartialEq, Eq)]
pub struct MatchArm {
    pub ranges: Vec<ByteRange>,
    pub outcome: Outcome,
}

/// The body of one state branch: immediately accept, immediately reject,
/// or dispatch on the current byte.
#[derive(Clone, Debug, PartialEq, Eq)]
pub enum BranchBody {
    Accept,
    Reject,
    Dispatch(Vec<MatchArm>),
}

/// One branch of the matcher's state dispatch.
#[derive(Clone, Debug, PartialEq, Eq)]
pub struct Branch {
    pub id: usize,
    pub body: BranchBody,
}

/// The complete matcher program: a start state and one branch per state.
#[derive(Clone, Debug, PartialEq, Eq)]
pub struct Matcher {
    pub start: usize,
    pub branches: Vec<Branch>,
}

/// Byte `b` falls in one of the arm's ranges.
pub open spec fn arm_hit(arm: MatchArm, b: u8) -> bool {
    ranges_cover(arm.ranges@, b)
}

/// Index of the first arm at or after `j` whose ranges contain `b`, or the
/// arm count when none does — the arm a match statement would take.
pub open spec fn first_hit_from(arms: Seq<MatchArm>, b: u8, j: int) -> int
    decreases arms.len() - j,
{
    if j < 0 || j >= arms.len() {
        arms.len() as int
    } else if arm_hit(arms[j], b) {
        j
    } else {
        first_hit_from(arms, b, j + 1)
    }
}

/// Some branch of the matcher handles state `id`.
pub open spec fn has_branch(branches: Seq<Branch>, id: usize) -> bool {
    exists|i: int| 0 <= i < branches.len() && (#[trigger] branches[i]).id == id
}

/// The body the matcher holds for state `id` (meaningful when branch
/// identifiers are distinct and `has_branch(branches, id)`).
pub open spec fn branch_of(branches: Seq<Branch>, id: usize) -> BranchBody {
    branches[choose|i: int| 0 <= i < branches.len() && (#[trigger] branches[i]).id == id].body
}

/// No two branches handle the same state identifier.
pub open spec fn distinct_branch_ids(branches: Seq<Branch>) -> bool {
    forall|i: int, j: int| 0 <= i < j < branches.len() ==> branches[i].id != branches[j].id
}

/// A continue outcome only names states the matcher has a branch for.
pub open spec fn arm_target_tracked(branches: Seq<Branch>, arm: MatchArm) -> bool {
    match arm.outcome {
        Outcome::Continue(t) => has_branch(branches, t),
        _ => true,
    }
}

/// A dispatch branch is total over the byte alphabet and only continues at
/// states the matcher knows.
pub open spec fn branch_wf(branches: Seq<Branch>, br: Branch) -> bool {
    match br.body {
        BranchBody::Dispatch(arms) => {
            &&& forall|b: u8| first_hit_from(arms@, b, 0) < arms@.len()
            &&& forall|j: int| 0 <= j < arms@.len() ==> arm_target_tracked(branches, #[trigger] arms@[j])
        },
        _ => true,
    }
}

/// The matcher program is well formed: branch identifiers are distinct,
/// the start state has a branch, and every dispatch is total and closed.
pub open spec fn matcher_wf(m: Matcher) -> bool {
    &&& distinct_branch_ids(m.branches@)
    &&& has_branch(m.branches@, m.start)
    &&& forall|i: int| 0 <= i < m.branches@.len() ==> branch_wf(m.branches@, #[trigger] m.branches@[i])
}

/// The meaning of the matcher program from state `id`: while input
/// remains, read one byte and take the branch of the current state; an
/// accept body or arm returns true, a reject body or arm returns false, a
/// continue arm moves to the target state; exhausted input means no match.
pub open spec fn matcher_run_from(m: Matcher, id: usize, input: Seq<u8>) -> bool
    decreases input.len(),
{
    if input.len() == 0 {
        false
    } else if !has_branch(m.branches@, id) {
        false
    } else {
        match branch_of(m.branches@, id) {
            BranchBody::Accept => true,
            BranchBody::Reject => false,
            BranchBody::Dispatch(arms) => {
                let j = first_hit_from(arms@, input[0], 0);
                if j >= arms@.len() {
                    false
                } else {
                    match arms@[j].outcome {
                        Outcome::Accept => true,
                        Outcome::Reject => false,
                        Outcome::Continue(t) => matcher_run_from(m, t, input.skip(1)),
                    }
                }
            },
        }
    }
}

/// The meaning of the whole matcher program on an input.
pub open spec fn matcher_run(m: Matcher, input: Seq<u8>) -> bool {
    matcher_run_from(m, m.start, input)
}

/// The outcome emitted for a transition to graph state `t`: terminal
/// targets are inlined as immediate accept / reject, any other target is
/// continued at.
pub open spec fn outcome_for(states: Seq<StateEntry>, t: usize) -> Outcome {
    if has_state(states, t) {
        match state_of(states, t) {
            State::Match => Outcome::Accept,
            State::Dead => Outcome::Reject,
            State::Transitions(_) => Outcome::Continue(t),
        }
    } else {
        Outcome::Continue(t)
    }
}

/// The matcher arm renders the graph arm: its ranges are the coalesced
/// form of the arm's byte set — sorted, disjoint and maximal, covering
/// exactly that set — and its outcome is the inlined outcome of the
/// target.
pub open spec fn arm_matches(states: Seq<StateEntry>, ga: Arm, ma: MatchArm) -> bool {
    &&& ranges_wf(ma.ranges@)
    &&& forall|b: u8|
        #![trigger ranges_cover(ma.ranges@, b)]
        #![trigger ga.bytes@.contains(b)]
        ranges_cover(ma.ranges@, b) <==> ga.bytes@.contains(b)
    &&& ma.outcome == outcome_for(states, ga.target)
}

/// The branch body renders the state classification.
pub open spec fn body_matches(states: Seq<StateEntry>, s: State, body: BranchBody) -> bool {
    match s {
        State::Match => body == BranchBody::Accept,
        State::Dead => body == BranchBody::Reject,
        State::Transitions(gas) => match body {
            BranchBody::Dispatch(mas) => {
                &&& gas@.len() == mas@.len()
                &&& forall|j: int| 0 <= j < gas@.len()
                    ==> arm_matches(states, gas@[j], #[trigger] mas@[j])
            },
            _ => false,
        },
    }
}

/// The matcher renders the graph: same start, one branch per graph entry
/// in the same order, each body rendering its entry's classification.
pub open spec fn matcher_matches_graph(g: Dfa, m: Matcher) -> bool {
    &&& m.start == g.start
    &&& m.branches@.len() == g.states@.len()
    &&& forall|i: int| 0 <= i < g.states@.len() ==> (#[trigger] m.branches@[i]).id == g.states@[i].id
    &&& forall|i: int| 0 <= i < g.states@.len()
        ==> body_matches(g.states@, g.states@[i].state, (#[trigger] m.branches@[i]).body)
}

/// Characterization of `first_hit_from`: it yields the least hitting index
/// at or after `j`, or the arm count when no arm at or after `j` hits.
pub proof fn lemma_first_hit(arms: Seq<MatchArm>, b: u8, j: int)
    requires
        0 <= j <= arms.len(),
    ensures
        j <= first_hit_from(arms, b, j) <= arms.len(),
        first_hit_from(arms, b, j) < arms.len() ==> arm_hit(arms[first_hit_from(arms, b, j)], b),
        forall|k: int| j <= k < first_hit_from(arms, b, j) ==> !arm_hit(arms[k], b),
    decreases arms.len() - j,
{
    if j < arms.len() && !arm_hit(arms[j], b) {
        lemma_first_hit(arms, b, j + 1);
    }
}

/// If any arm at or after `j` hits `b`, `first_hit_from` finds one.
pub proof fn lemma_first_hit_finds(arms: Seq<MatchArm>, b: u8, j: int, w: int)
    requires
        0 <= j <= w < arms.len(),
        arm_hit(arms[w], b),
    ensures
        first_hit_from(arms, b, j) < arms.len(),
    decreases arms.len() - j,
{
    if j < w && !arm_hit(arms[j], b) {
        lemma_first_hit_finds(arms, b, j + 1, w);
    }
}

/// In a matcher with distinct branch identifiers, the body looked up for
/// the identifier of branch `i` is branch `i`'s.
pub proof fn lemma_branch_of_entry(branches: Seq<Branch>, i: int)
    requires
        distinct_branch_ids(branches),
        0 <= i < branches.len(),
    ensures
        has_branch(branches, branches[i].id),
        branch_of(branches, branches[i].id) == branches[i].body,
{
    let id = branches[i].id;
    assert(has_branch(branches, id));
    let w = choose|w: int| 0 <= w < branches.len() && (#[trigger] branches[w]).id == id;
    if w != i {
        assert(false);
    }
}

impl State {
    /// Render this classification as a branch body: terminal states return
    /// their verdict; a transition set becomes one dispatch arm per target,
    /// its byte set coalesced into ranges and terminal targets inlined.
    pub fn handle(&self, g: &Dfa) -> (body: BranchBody)
        requires
            distinct_ids(g.states@),
            match *self {
                State::Transitions(arms) => forall|j: int|
                    0 <= j < arms@.len() ==> ((#[trigger] arms@[j]).bytes@.len() > 0
                        && strictly_ascending(arms@[j].bytes@)
                        && has_state(g.states@, arms@[j].target)),
                _ => true,
            },
        ensures
            body_matches(g.states@, *self, body),
    {
        match self {
            State::Match => BranchBody::Accept,
            State::Dead => BranchBody::Reject,
            State::Transitions(gas) => {
                let mut mas: Vec<MatchArm> = Vec::new();
                let mut j: usize = 0;
                while j < gas.len()
                    invariant
                        j == mas@.len(),
                        j <= gas@.len(),
                        distinct_ids(g.states@),
                        forall|k: int| 0 <= k < gas@.len() ==> ((#[trigger] gas@[k]).bytes@.len() > 0
                            && strictly_ascending(gas@[k].bytes@)
                            && has_state(g.states@, gas@[k].target)),
                        forall|k: int| 0 <= k < j
                            ==> arm_matches(g.states@, gas@[k], #[trigger] mas@[k]),
                    decreases gas@.len() - j,
                {
                    let ranges = coalesce(&gas[j].bytes);
                    let target = gas[j].target;
                    let ti = match find_state_index(&g.states, target) {
                        Some(ti) => ti,
                        None => vstd::pervasive::unreached(),
                    };
                    proof {
                        lemma_state_of_entry(g.states@, ti as int);
                    }
                    let outcome = match &g.states[ti].state {
                        State::Match => Outcome::Accept,
                        State::Dead => Outcome::Reject,
                        State::Transitions(_) => Outcome::Continue(target),
                    };
                    mas.push(MatchArm { ranges, outcome });
                    j += 1;
                }
                BranchBody::Dispatch(mas)
            },
        }
    }
}

/// Index of the graph entry classifying `id`, if any.
fn find_state_index(states: &Vec<StateEntry>, id: usize) -> (r: Option<usize>)
    ensures
        match r {
            Some(i) => (i as int) < states@.len() && states@[i as int].id == id,
            None => !has_state(states@, id),
        },
{
    let mut i: usize = 0;
    while i < states.len()
        invariant
            i <= states@.len(),
            forall|k: int| 0 <= k < i ==> (#[trigger] states@[k]).id != id,
        decreases states@.len() - i,
    {
        if states[i].id == id {
            return Some(i);
        }
        i += 1;
    }
    None
}

/// Index of the matcher branch handling `id`, if any.
fn find_branch_index(branches: &Vec<Branch>, id: usize) -> (r: Option<usize>)
    ensures
        match r {
            Some(i) => (i as int) < branches@.len() && branches@[i as int].id == id,
            None => !has_branch(branches@, id),
        },
{
    let mut i: usize = 0;
    while i < branches.len()
        invariant
            i <= branches@.len(),
            forall|k: int| 0 <= k < i ==> (#[trigger] branches@[k]).id != id,
        decreases branches@.len() - i,
    {
        if branches[i].id == id {
            return Some(i);
        }
        i += 1;
    }
    None
}

/// Whether byte `b` falls in one of the ranges.
fn ranges_contain(ranges: &Vec<ByteRange>, b: u8) -> (r: bool)
    ensures
        r == ranges_cover(ranges@, b),
{
    let mut k: usize = 0;
    while k < ranges.len()
        invariant
            k <= ranges@.len(),
            forall|w: int| 0 <= w < k ==> !(((#[trigger] ranges@[w]).lo <= b) && (b <= ranges@[w].hi)),
        decreases ranges@.len() - k,
    {
        if ranges[k].lo <= b && b <= ranges[k].hi {
            return true;
        }
        k += 1;
    }
    proof {
        if ranges_cover(ranges@, b) {
            let w = choose|w: int| 0 <= w < ranges@.len()
                && crate::ranges::in_range(#[trigger] ranges@[w], b);
        }
    }
    false
}

/// Index of the first dispatch arm whose ranges contain `b`, or the arm
/// count when none does.
fn find_first_arm(arms: &Vec<MatchArm>, b: u8) -> (r: usize)
    ensures
        r == first_hit_from(arms@, b, 0),
{
    let mut j: usize = 0;
    while j < arms.len()
        invariant
            j <= arms@.len(),
            first_hit_from(arms@, b, 0) == first_hit_from(arms@, b, j as int),
        decreases arms@.len() - j,
    {
        if ranges_contain(&arms[j].ranges, b) {
            return j;
        }
        j += 1;
    }
    arms.len()
}

/// The byte sets of distinct arms are disjoint: no byte value is claimed
/// by two different arms.
pub open spec fn arms_disjoint(arms: Seq<Arm>) -> bool {
    forall|j: int, k: int, b: u8|
        #![trigger arms[j].bytes@.contains(b), arms[k].bytes@.contains(b)]
        0 <= j < arms.len() && 0 <= k < arms.len() && j != k && arms[j].bytes@.contains(b)
            ==> !arms[k].bytes@.contains(b)
}

/// The shape of entry `i` that emission relies on: transition byte sets
/// are non-empty, strictly ascending, total over the byte alphabet and
/// pairwise disjoint.
pub open spec fn entry_shape_ok(states: Seq<StateEntry>, i: int) -> bool {
    match states[i].state {
        State::Transitions(arms) => {
            &&& forall|j: int| 0 <= j < arms@.len()
                ==> ((#[trigger] arms@[j]).bytes@.len() > 0 && strictly_ascending(arms@[j].bytes@))
            &&& forall|b: u8| arms_cover(arms@, b)
            &&& arms_disjoint(arms@)
        },
        _ => true,
    }
}

/// What emission needs of a state graph, independent of the automaton it
/// came from: a classified start state, no duplicate entries, closure
/// under transition targets, and well-shaped transition sets.
pub open spec fn graph_wf(g: Dfa) -> bool {
    &&& has_state(g.states@, g.start)
    &&& distinct_ids(g.states@)
    &&& forall|i: int| 0 <= i < g.states@.len() ==> entry_targets_present(g.states@, i)
    &&& forall|i: int| 0 <= i < g.states@.len() ==> entry_shape_ok(g.states@, i)
}

/// A graph extracted from an automaton is well shaped for emission.
pub proof fn lemma_graph_ok_wf(d: RegexDfa, g: Dfa)
    requires
        graph_ok(d, g),
    ensures
        graph_wf(g),
{
    assert forall|i: int| 0 <= i < g.states@.len() implies entry_shape_ok(g.states@, i) by {
        let states = g.states@;
        assert(state_ok(d, states[i].id, states[i].state));
        match states[i].state {
            State::Transitions(arms) => {
                assert(trans_ok(d, states[i].id, arms@));
                assert forall|j: int, k: int, b: u8|
                    #![trigger arms@[j].bytes@.contains(b), arms@[k].bytes@.contains(b)]
                    0 <= j < arms@.len() && 0 <= k < arms@.len() && j != k
                        && arms@[j].bytes@.contains(b)
                    implies !arms@[k].bytes@.contains(b) by {
                    if arms@[k].bytes@.contains(b) {
                        assert(arm_ok(d, states[i].id, arms@[j]));
                        assert(arm_ok(d, states[i].id, arms@[k]));
                        let x = choose|x: int| 0 <= x < arms@[j].bytes@.len() && arms@[j].bytes@[x] == b;
                        let y = choose|y: int| 0 <= y < arms@[k].bytes@.len() && arms@[k].bytes@[y] == b;
                        assert(dfa_next(d, states[i].id, arms@[j].bytes@[x]) == arms@[j].target);
                        assert(dfa_next(d, states[i].id, arms@[k].bytes@[y]) == arms@[k].target);
                        assert(arms@[j].target == arms@[k].target);
                        assert(false);
                    }
                }
            },
            _ => {},
        }
    }
}

/// Aligned branch identifiers inherit distinctness from the graph.
proof fn lemma_aligned_branch_ids(g: Dfa, m: Matcher)
    requires
        matcher_matches_graph(g, m),
        distinct_ids(g.states@),
    ensures
        distinct_branch_ids(m.branches@),
{
    assert forall|i: int, j: int| 0 <= i < j < m.branches@.len()
        implies m.branches@[i].id != m.branches@[j].id by {
        assert(m.branches@[i].id == g.states@[i].id);
        assert(m.branches@[j].id == g.states@[j].id);
    }
}

impl Dfa {
    /// Render the whole state graph as a matcher program: one branch per
    /// classified state, in graph order, rooted at the graph's start.
    pub fn handle(&self) -> (m: Matcher)
        requires
            graph_wf(*self),
        ensures
            matcher_matches_graph(*self, m),
            matcher_wf(m),
    {
        let mut branches: Vec<Branch> = Vec::new();
        let mut i: usize = 0;
        while i < self.states.len()
            invariant
                graph_wf(*self),
                i == branches@.len(),
                i <= self.states@.len(),
                forall|k: int| 0 <= k < i ==> (#[trigger] branches@[k]).id == self.states@[k].id,
                forall|k: int| 0 <= k < i
                    ==> body_matches(self.states@, self.states@[k].state, (#[trigger] branches@[k]).body),
            decreases self.states@.len() - i,
        {
            proof {
                assert(entry_shape_ok(self.states@, i as int));
                assert(entry_targets_present(self.states@, i as int));
            }
            let body = self.states[i].state.handle(self);
            branches.push(Branch { id: self.states[i].id, body });
            i += 1;
        }
        let m = Matcher { start: self.start, branches };
        proof {
            assert(matcher_matches_graph(*self, m));
            lemma_aligned_branch_ids(*self, m);
            let w0 = choose|w: int| 0 <= w < self.states@.len() && (#[trigger] self.states@[w]).id == self.start;
            assert(m.branches@[w0].id == self.start);
            assert(has_branch(m.branches@, self.start));
            assert forall|bi: int| 0 <= bi < m.branches@.len()
                implies branch_wf(m.branches@, #[trigger] m.branches@[bi]) by {
                let states = self.states@;
                assert(body_matches(states, states[bi].state, m.branches@[bi].body));
                match m.branches@[bi].body {
                    BranchBody::Dispatch(mas) => {
                        match states[bi].state {
                            State::Transitions(gas) => {
                                assert(entry_shape_ok(states, bi));
                                assert(entry_targets_present(states, bi));
                                assert forall|b: u8|
                                    first_hit_from(mas@, b, 0) < mas@.len() by {
                                    assert(arms_cover(gas@, b));
                                    let w = choose|w: int| 0 <= w < gas@.len()
                                        && (#[trigger] gas@[w]).bytes@.contains(b);
                                    assert(arm_matches(states, gas@[w], mas@[w]));
                                    assert(ranges_cover(mas@[w].ranges@, b));
                                    lemma_first_hit_finds(mas@, b, 0, w);
                                }
                                assert forall|j: int| 0 <= j < mas@.len()
                                    implies arm_target_tracked(m.branches@, #[trigger] mas@[j]) by {
                                    assert(arm_matches(states, gas@[j], mas@[j]));
                                    let t = gas@[j].target;
                                    assert(has_state(states, t));
                                    match mas@[j].outcome {
                                        Outcome::Continue(t2) => {
                                            assert(t2 == t);
                                            let w = choose|w: int| 0 <= w < states.len()
                                                && (#[trigger] states[w]).id == t;
                                            assert(m.branches@[w].id == t);
                                            assert(has_branch(m.branches@, t));
                                        },
                                        _ => {},
                                    }
                                }
                            },
                            _ => {
                                assert(false);
                            },
                        }
                    },
                    _ => {},
                }
            }
        }
        m
    }
}

impl Matcher {
    /// Execute the matcher program on an input: loop over the bytes with a
    /// current state, dispatching each byte through the current state's
    /// branch; falling off the end of the input means no match. The
    /// unreachable dispatch paths are marked as such and proved dead.
    pub fn run(&self, input: &[u8]) -> (r: bool)
        requires
            matcher_wf(*self),
        ensures
            r == matcher_run(*self, input@),
    {
        let mut i: usize = 0;
        let mut state: usize = self.start;
        proof {
            assert(input@.skip(0) =~= input@);
        }
        while i < input.len()
            invariant
                matcher_wf(*self),
                i <= input@.len(),
                has_branch(self.branches@, state),
                matcher_run(*self, input@) == matcher_run_from(*self, state, input@.skip(i as int)),
            decreases input@.len() - i,
        {
            let b = input[i];
            let bi = match find_branch_index(&self.branches, state) {
                Some(bi) => bi,
                None => vstd::pervasive::unreached(),
            };
            proof {
                lemma_branch_of_entry(self.branches@, bi as int);
                assert(input@.skip(i as int).len() > 0);
                assert(input@.skip(i as int)[0] == b);
                assert(input@.skip(i as int).skip(1) =~= input@.skip(i as int + 1));
                assert(branch_wf(self.branches@, self.branches@[bi as int]));
            }
            match &self.branches[bi].body {
                BranchBody::Accept => {
                    return true;
                },
                BranchBody::Reject => {
                    return false;
                },
                BranchBody::Dispatch(arms) => {
                    let j = find_first_arm(arms, b);
                    if j < arms.len() {
                        proof {
                            lemma_first_hit(arms@, b, 0);
                            assert(arm_target_tracked(self.branches@, arms@[j as int]));
                        }
                        match arms[j].outcome {
                            Outcome::Accept => {
                                return true;
                            },
                            Outcome::Reject => {
                                return false;
                            },
                            Outcome::Continue(t) => {
                                state = t;
                            },
                        }
                    } else {
                        proof {
                            assert(first_hit_from(arms@, b, 0) < arms@.len());
                            assert(false);
                        }
                        return vstd::pervasive::unreached();
                    }
                },
            }
            i += 1;
        }
        proof {
            assert(input@.skip(i as int).len() == 0);
        }
        false
    }
}

/// Law: a matcher rendered from a well-shaped graph behaves, from any
/// classified state, exactly as the graph itself — except that the matcher
/// reads a byte before consulting the state, so an accepting start state
/// with no input left is excluded.
#[verifier::rlimit(50)]
pub proof fn lemma_matcher_follows_graph(g: Dfa, m: Matcher, id: usize, input: Seq<u8>)
    requires
        graph_wf(g),
        matcher_matches_graph(g, m),
        has_state(g.states@, id),
        input.len() > 0 || !(state_of(g.states@, id) is Match),
    ensures
        matcher_run_from(m, id, input) == graph_run(g.states@, id, input),
    decreases input.len(),
{
    let states = g.states@;
    lemma_aligned_branch_ids(g, m);
    let i = choose|i: int| 0 <= i < states.len() && (#[trigger] states[i]).id == id;
    lemma_state_of_entry(states, i);
    lemma_branch_of_entry(m.branches@, i);
    assert(body_matches(states, states[i].state, m.branches@[i].body));
    if input.len() == 0 {
    } else {
        let b = input[0];
        match states[i].state {
            State::Match => {},
            State::Dead => {},
            State::Transitions(gas) => {
                match m.branches@[i].body {
                    BranchBody::Dispatch(mas) => {
                        assert(entry_shape_ok(states, i));
                        assert(entry_targets_present(states, i));
                        assert(arms_cover(gas@, b));
                        let w = choose|w: int| 0 <= w < gas@.len()
                            && (#[trigger] gas@[w]).bytes@.contains(b);
                        assert(arm_matches(states, gas@[w], mas@[w]));
                        assert(ranges_cover(mas@[w].ranges@, b));
                        lemma_first_hit_finds(mas@, b, 0, w);
                        lemma_first_hit(mas@, b, 0);
                        let j = first_hit_from(mas@, b, 0);
                        assert(arm_hit(mas@[j], b));
                        assert(arm_matches(states, gas@[j], mas@[j]));
                        assert(gas@[j].bytes@.contains(b));
                        let ws = choose|ws: int| 0 <= ws < gas@.len()
                            && (#[trigger] gas@[ws]).bytes@.contains(b);
                        assert(crate::graph::arm_step(gas@, b) == gas@[ws].target);
                        if ws != j {
                            assert(false);
                        }
                        let t = gas@[j].target;
                        assert(has_state(states, t));
                        let ti = choose|ti: int| 0 <= ti < states.len() && (#[trigger] states[ti]).id == t;
                        lemma_state_of_entry(states, ti);
                        assert(mas@[j].outcome == outcome_for(states, t));
                        match state_of(states, t) {
                            State::Match => {
                                assert(matcher_run_from(m, id, input));
                                assert(graph_run(states, t, input.skip(1)));
                            },
                            State::Dead => {
                                assert(!matcher_run_from(m, id, input));
                                assert(!graph_run(states, t, input.skip(1)));
                            },
                            State::Transitions(_) => {
                                lemma_matcher_follows_graph(g, m, t, input.skip(1));
                            },
                        }
                    },
                    _ => {
                        assert(false);
                    },
                }
            },
        }
    }
}

/// Law: on every input with at least one byte — and on empty input too,
/// unless the automaton accepts at its start state — the rendered matcher
/// answers exactly as the automaton itself does.
pub proof fn lemma_matcher_equals_automaton(d: RegexDfa, g: Dfa, m: Matcher, input: Seq<u8>)
    requires
        graph_ok(d, g),
        matcher_matches_graph(g, m),
        input.len() > 0 || !dfa_is_match(d, dfa_start(d)),
    ensures
        matcher_run(m, input) == dfa_run(d, dfa_start(d), input),
{
    lemma_graph_ok_wf(d, g);
    let states = g.states@;
    let i = choose|i: int| 0 <= i < states.len() && (#[trigger] states[i]).id == g.start;
    lemma_state_of_entry(states, i);
    assert(state_ok(d, g.start, states[i].state));
    lemma_matcher_follows_graph(g, m, g.start, input);
    lemma_graph_models(d, g, g.start, input);
}

/// Law: two matchers rendered from two graph extractions of one automaton
/// agree on every input, whatever order the extractions visited states in.
pub proof fn lemma_compile_deterministic(
    d: RegexDfa,
    g1: Dfa,
    m1: Matcher,
    g2: Dfa,
    m2: Matcher,
    input: Seq<u8>,
)
    requires
        graph_ok(d, g1),
        matcher_matches_graph(g1, m1),
        graph_ok(d, g2),
        matcher_matches_graph(g2, m2),
    ensures
        matcher_run(m1, input) == matcher_run(m2, input),
{
    if input.len() == 0 {
        assert(!matcher_run(m1, input));
        assert(!matcher_run(m2, input));
    } else {
        lemma_matcher_equals_automaton(d, g1, m1, input);
        lemma_matcher_equals_automaton(d, g2, m2, input);
    }
}


/// Law: in a matcher rendered from a well-shaped graph, every byte value
/// is matched by exactly one arm of each dispatch branch — the branch's
/// arms have no gap and no overlap over the byte alphabet.
pub proof fn lemma_dispatch_exactly_once(g: Dfa, m: Matcher, i: int, b: u8)
    requires
        graph_wf(g),
        matcher_matches_graph(g, m),
        0 <= i < m.branches@.len(),
    ensures
        match m.branches@[i].body {
            BranchBody::Dispatch(mas) => {
                &&& exists|j: int| 0 <= j < mas@.len() && arm_hit(#[trigger] mas@[j], b)
                &&& forall|j: int, k: int|
                    #![trigger arm_hit(mas@[j], b), arm_hit(mas@[k], b)]
                    0 <= j < mas@.len() && 0 <= k < mas@.len()
                        && arm_hit(mas@[j], b) && arm_hit(mas@[k], b) ==> j == k
            },
            _ => true,
        },
{
    let states = g.states@;
    assert(body_matches(states, states[i].state, m.branches@[i].body));
    match m.branches@[i].body {
        BranchBody::Dispatch(mas) => {
            match states[i].state {
                State::Transitions(gas) => {
                    assert(entry_shape_ok(states, i));
                    assert(arms_cover(gas@, b));
                    let w = choose|w: int| 0 <= w < gas@.len()
                        && (#[trigger] gas@[w]).bytes@.contains(b);
                    assert(arm_matches(states, gas@[w], mas@[w]));
                    assert(ranges_cover(mas@[w].ranges@, b));
                    assert(arm_hit(mas@[w], b));
                    assert forall|j: int, k: int|
                        #![trigger arm_hit(mas@[j], b), arm_hit(mas@[k], b)]
                        0 <= j < mas@.len() && 0 <= k < mas@.len()
                            && arm_hit(mas@[j], b) && arm_hit(mas@[k], b) implies j == k by {
                        if j != k {
                            assert(arm_matches(states, gas@[j], mas@[j]));
                            assert(arm_matches(states, gas@[k], mas@[k]));
                            assert(gas@[j].bytes@.contains(b));
                            assert(gas@[k].bytes@.contains(b));
                            assert(false);
                        }
                    }
                },
                _ => {
                    assert(false);
                },
            }
        },
        _ => {},
    }
}


} // verus!
