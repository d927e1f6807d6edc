//! Trusted boundary to the automaton backend.
//!
//! The backend turns a pattern into a byte-level deterministic finite
//! automaton. This module declares the backend's types to the verifier,
//! names the four observations the pipeline makes of an automaton (start
//! state, match classification, dead classification, byte transition), and
//! wraps the calls that make them. Everything downstream is verified
//! against these names alone.

use vstd::prelude::*;
use regex_automata::DFA;

verus! {

/// The dense, standard-table automaton this pipeline accepts from the
/// backend: a byte-keyed transition table with no premultiplication and no
/// byte classes, so state identifiers are plain table indices. The table
/// itself is opaque to the verifier; the spec functions below name what
/// the pipeline observes of it.
#[verifier::external_body]
pub struct RegexDfa {
    inner: regex_automata::dense::Standard<Vec<usize>, usize>,
}

#[verifier::external_type_specification]
#[verifier::external_body]
pub struct ExRegexError(regex_automata::Error);

/// Number of states in the automaton's transition table. Every state
/// identifier handed out by the backend for this automaton lies below it.
pub uninterp spec fn dfa_state_count(d: RegexDfa) -> int;

/// The automaton's start state.
pub uninterp spec fn dfa_start(d: RegexDfa) -> usize;

/// Whether `id` is an accepting state of the automaton.
pub uninterp spec fn dfa_is_match(d: RegexDfa, id: usize) -> bool;

/// Whether `id` is the rejecting sink state of the automaton.
pub uninterp spec fn dfa_is_dead(d: RegexDfa, id: usize) -> bool;

/// The state the automaton moves to from `id` on input byte `b`.
pub uninterp spec fn dfa_next(d: RegexDfa, id: usize, b: u8) -> usize;

/// Byte-by-byte interpretation of the automaton from state `id`: accept as
/// soon as a match state is reached, reject on the dead state, reject when
/// the input runs out first.
pub open spec fn dfa_run(d: RegexDfa, id: usize, input: Seq<u8>) -> bool
    decreases input.len(),
{
    if dfa_is_match(d, id) {
        true
    } else if dfa_is_dead(d, id) {
        false
    } else if input.len() == 0 {
        false
    } else {
        dfa_run(d, dfa_next(d, id, input[0]), input.skip(1))
    }
}

/// Whether the backend accepts `pattern` (in the given anchoring mode) as
/// a valid expression of its regex dialect. Acceptance is decided by
/// parsing and compiling the pattern text alone, so it is a function of
/// the pattern and the mode.
pub uninterp spec fn pattern_compiles(pattern: Seq<char>, anchored: bool) -> bool;

/// The language of `pattern` in the given anchoring mode: whether `input`
/// matches it. The backend documents that a built automaton matches
/// exactly the given pattern — anchored at the start, or anywhere via an
/// implicit leading `.*?` — so the verdict is a function of the pattern,
/// the mode and the input, whatever automaton a particular build produced.
pub uninterp spec fn pattern_language(pattern: Seq<char>, anchored: bool, input: Seq<u8>) -> bool;

/// What the backend hands back for a pattern: the accepted dense standard
/// table, some other table representation, or a pattern error.
pub enum BuildOutcome {
    Automaton(RegexDfa),
    UnsupportedRepr,
    BadPattern(regex_automata::Error),
}

/// Relies on `regex_automata::dense::Builder`: with byte classes and
/// premultiplication switched off and minimization on, a successful build
/// always yields the dense standard-table representation, and the built
/// automaton recognizes exactly the given pattern's language in the given
/// anchoring mode; an invalid pattern comes back as the backend's own
/// error. The arms only pass the backend's outcome through.
#[verifier::external_body]
pub(crate) fn build_backend(pattern: &str, anchored: bool) -> (r: BuildOutcome)
    ensures
        match r {
            BuildOutcome::Automaton(d) => pattern_compiles(pattern@, anchored)
                && forall|input: Seq<u8>|
                    dfa_run(d, dfa_start(d), input) == pattern_language(pattern@, anchored, input),
            BuildOutcome::UnsupportedRepr => false,
            BuildOutcome::BadPattern(_) => !pattern_compiles(pattern@, anchored),
        },
{
    let built = regex_automata::dense::Builder::new()
        .byte_classes(false)
        .premultiply(false)
        .minimize(true)
        .anchored(anchored)
        .build(pattern);
    match built {
        Ok(regex_automata::DenseDFA::Standard(d)) => BuildOutcome::Automaton(RegexDfa { inner: d }),
        Ok(_) => BuildOutcome::UnsupportedRepr,
        Err(e) => BuildOutcome::BadPattern(e),
    }
}

/// Relies on `regex_automata`'s `DFA::start_state` for the dense standard
/// table: the start state is an index into the table.
#[verifier::external_body]
pub(crate) fn start_state(d: &RegexDfa) -> (r: usize)
    ensures
        r == dfa_start(*d),
        r < dfa_state_count(*d),
{
    d.inner.start_state()
}

/// Relies on `regex_automata`'s `DFA::is_match_state` for the dense
/// standard table.
#[verifier::external_body]
pub(crate) fn is_match_state(d: &RegexDfa, id: usize) -> (r: bool)
    ensures
        r == dfa_is_match(*d, id),
{
    d.inner.is_match_state(id)
}

/// Relies on `regex_automata`'s `DFA::is_dead_state` for the dense
/// standard table.
#[verifier::external_body]
pub(crate) fn is_dead_state(d: &RegexDfa, id: usize) -> (r: bool)
    ensures
        r == dfa_is_dead(*d, id),
{
    d.inner.is_dead_state(id)
}

/// Relies on `regex_automata`'s `DFA::next_state` for the dense standard
/// table: for a state index inside the table it reads the table entry for
/// `(id, b)`, which is again a state index inside the table.
#[verifier::external_body]
pub(crate) fn next_state(d: &RegexDfa, id: usize, b: u8) -> (r: usize)
    requires
        id < dfa_state_count(*d),
    ensures
        r == dfa_next(*d, id, b),
        r < dfa_state_count(*d),
{
    d.inner.next_state(id, b)
}

/// Relies on `regex_automata`'s `DFA::is_match`: it scans from the start
/// state one byte at a time, answers true as soon as a match state is
/// entered, false on the dead state or when the input is exhausted.
#[verifier::external_body]
pub(crate) fn backend_search(d: &RegexDfa, bytes: &[u8]) -> (r: bool)
    ensures
        r == dfa_run(*d, dfa_start(*d), bytes@),
{
    d.inner.is_match(bytes)
}

/// Relies on `str::strip_prefix` with a `'^'` pattern: `Some` holds the
/// suffix after a leading caret, `None` means the string has no leading
/// caret.
#[verifier::external_body]
pub(crate) fn strip_caret(s: &str) -> (r: Option<&str>)
    ensures
        match r {
            Some(rest) => s@.len() > 0 && s@[0] == '^' && rest@ == s@.skip(1),
            None => !(s@.len() > 0 && s@[0] == '^'),
        },
{
    s.strip_prefix('^')
}

} // verus!
