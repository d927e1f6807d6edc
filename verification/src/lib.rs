//! Compile a regular expression, fixed ahead of time, into an explicit
//! deterministic finite automaton and from it build a self-contained
//! byte-level matcher: a state graph extracted from the automaton, byte
//! ranges coalesced per transition, and a structured matcher program that a
//! separate renderer can print as source text for environments without a
//! regex engine.
//!
//! A pattern may begin with `^`; the marker is stripped and the backend is
//! put into anchored mode, so the match must start at the first input byte.
//! Without it the automaton itself encodes matching anywhere in the input.

use vstd::prelude::*;

pub mod emit;
pub mod engine;
pub mod graph;
pub mod ranges;

pub use ranges::ByteRange;
pub use ranges::coalesce;

use emit::Matcher;
use emit::matcher_matches_graph;
use emit::matcher_run;
use emit::matcher_wf;
use emit::lemma_graph_ok_wf;
use engine::BuildOutcome;
use engine::RegexDfa;
use engine::backend_search;
use engine::build_backend;
use engine::dfa_is_match;
use engine::dfa_run;
use engine::dfa_start;
use engine::pattern_compiles;
use engine::pattern_language;
use engine::strip_caret;
use graph::Dfa;
use graph::graph_ok;

verus! {

/// Why a pattern could not be compiled: the backend rejected the pattern
/// itself, or it handed back a table representation this pipeline does not
/// accept (which the fixed build options should make impossible).
pub enum CompileError {
    Pattern(regex_automata::Error),
    UnsupportedRepresentation,
}

/// The pattern asks for an anchored match: it begins with the `^` marker.
pub open spec fn spec_anchored(pattern: Seq<char>) -> bool {
    pattern.len() > 0 && pattern[0] == '^'
}

/// The pattern text handed to the backend: the `^` marker, when present,
/// is stripped; the rest is passed through unchanged.
pub open spec fn spec_pattern_body(pattern: Seq<char>) -> Seq<char> {
    if spec_anchored(pattern) {
        pattern.skip(1)
    } else {
        pattern
    }
}

/// Build the backend automaton for `pattern`. A leading `^` is stripped
/// and turns on the backend's anchored mode; the automaton is minimized,
/// with no byte classes and no premultiplied state identifiers. The build
/// succeeds exactly when the backend accepts the stripped pattern, and a
/// successful automaton recognizes exactly that pattern's language in the
/// chosen mode; a rejected pattern surfaces the backend's own error,
/// unchanged.
pub fn build_dfa(pattern: &str) -> (r: Result<RegexDfa, CompileError>)
    ensures
        match r {
            Ok(d) => pattern_compiles(spec_pattern_body(pattern@), spec_anchored(pattern@))
                && forall|input: Seq<u8>|
                    dfa_run(d, dfa_start(d), input) == pattern_language(
                        spec_pattern_body(pattern@),
                        spec_anchored(pattern@),
                        input,
                    ),
            Err(e) => !pattern_compiles(spec_pattern_body(pattern@), spec_anchored(pattern@))
                && e is Pattern,
        },
{
    let (rest, anchored) = match strip_caret(pattern) {
        Some(rest) => (rest, true),
        None => (pattern, false),
    };
    match build_backend(rest, anchored) {
        BuildOutcome::Automaton(d) => Ok(d),
        BuildOutcome::UnsupportedRepr => Err(CompileError::UnsupportedRepresentation),
        BuildOutcome::BadPattern(e) => Err(CompileError::Pattern(e)),
    }
}

/// Everything one pattern compilation produces: the backend automaton, the
/// state graph extracted from it, and the matcher program rendered from
/// the graph — with the proved relations between the three.
pub struct Compiled {
    pub automaton: RegexDfa,
    pub dfa: Dfa,
    pub matcher: Matcher,
}

/// Everything `compile_matcher` promises of a successful compilation of
/// `pattern`: the graph faithfully mirrors the automaton, the matcher
/// faithfully renders the graph, the matcher is well formed, and the
/// automaton recognizes exactly the pattern's language in its anchoring
/// mode.
pub open spec fn compiled_ok(pattern: Seq<char>, c: Compiled) -> bool {
    &&& graph_ok(c.automaton, c.dfa)
    &&& matcher_matches_graph(c.dfa, c.matcher)
    &&& matcher_wf(c.matcher)
    &&& forall|input: Seq<u8>|
        dfa_run(c.automaton, dfa_start(c.automaton), input) == pattern_language(
            spec_pattern_body(pattern),
            spec_anchored(pattern),
            input,
        )
}

/// The full pipeline for one pattern: build the automaton, extract its
/// reachable state graph, and render the graph as a matcher program.
/// Compilation succeeds exactly when the backend accepts the (caret
/// stripped) pattern; a rejected pattern comes back as a pattern error.
pub fn compile_matcher(pattern: &str) -> (r: Result<Compiled, CompileError>)
    ensures
        r is Ok <==> pattern_compiles(spec_pattern_body(pattern@), spec_anchored(pattern@)),
        match r {
            Ok(c) => compiled_ok(pattern@, c),
            Err(e) => e is Pattern,
        },
{
    let automaton = match build_dfa(pattern) {
        Ok(d) => d,
        Err(e) => {
            return Err(e);
        },
    };
    let dfa = Dfa::from_regex(&automaton);
    proof {
        lemma_graph_ok_wf(automaton, dfa);
    }
    let matcher = dfa.handle();
    Ok(Compiled { automaton, dfa, matcher })
}

impl Compiled {
    /// Run the emitted matcher program on an input.
    pub fn matches(&self, input: &[u8]) -> (r: bool)
        requires
            matcher_wf(self.matcher),
        ensures
            r == matcher_run(self.matcher, input@),
    {
        self.matcher.run(input)
    }

    /// Ask the backend engine directly for its verdict on an input — the
    /// reference the emitted matcher is proved against.
    pub fn engine_matches(&self, input: &[u8]) -> (r: bool)
        ensures
            r == dfa_run(self.automaton, dfa_start(self.automaton), input@),
    {
        backend_search(&self.automaton, input)
    }

    /// Law: on every input with at least one byte — and on empty input
    /// too, unless the automaton accepts at its start state — the emitted
    /// matcher program answers exactly as the backend engine does. The one
    /// excluded case is a pattern that matches the empty string, run on
    /// empty input: the matcher's loop never reads a byte and answers
    /// false, while the engine accepts immediately.
    pub proof fn lemma_matches_engine(self, input: Seq<u8>)
        requires
            graph_ok(self.automaton, self.dfa),
            matcher_matches_graph(self.dfa, self.matcher),
            input.len() > 0 || !dfa_is_match(self.automaton, dfa_start(self.automaton)),
        ensures
            matcher_run(self.matcher, input) == dfa_run(
                self.automaton,
                dfa_start(self.automaton),
                input,
            ),
    {
        emit::lemma_matcher_equals_automaton(self.automaton, self.dfa, self.matcher, input);
    }
}

/// Law: two successful compilations of the same pattern — in separate
/// invocations, whatever automata the backend produced each time — yield
/// matchers that agree on every input.
pub proof fn lemma_same_pattern_matchers_agree(
    pattern: Seq<char>,
    c1: Compiled,
    c2: Compiled,
    input: Seq<u8>,
)
    requires
        compiled_ok(pattern, c1),
        compiled_ok(pattern, c2),
    ensures
        matcher_run(c1.matcher, input) == matcher_run(c2.matcher, input),
{
    if input.len() == 0 {
        assert(!matcher_run(c1.matcher, input));
        assert(!matcher_run(c2.matcher, input));
    } else {
        c1.lemma_matches_engine(input);
        c2.lemma_matches_engine(input);
        let body = spec_pattern_body(pattern);
        let anchored = spec_anchored(pattern);
        assert(dfa_run(c1.automaton, dfa_start(c1.automaton), input)
            == pattern_language(body, anchored, input));
        assert(dfa_run(c2.automaton, dfa_start(c2.automaton), input)
            == pattern_language(body, anchored, input));
    }
}

} // verus!
