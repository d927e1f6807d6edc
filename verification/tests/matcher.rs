use const_regex::CompileError;
use const_regex::Compiled;
use const_regex::compile_matcher;
use const_regex::graph::State;
use regex_automata::DFA;

fn compiled(pattern: &str) -> Compiled {
    match compile_matcher(pattern) {
        Ok(c) => c,
        Err(_) => panic!("pattern failed to compile"),
    }
}

/// Build the backend engine directly, with the same fixed options the
/// library uses, and ask it for its verdict.
fn engine_verdict(pattern: &str, input: &[u8]) -> bool {
    let (rest, anchored) = match pattern.strip_prefix('^') {
        Some(rest) => (rest, true),
        None => (pattern, false),
    };
    let dfa = regex_automata::dense::Builder::new()
        .byte_classes(false)
        .premultiply(false)
        .minimize(true)
        .anchored(anchored)
        .build(rest)
        .unwrap();
    dfa.is_match(input)
}

#[test]
fn alternation_matches_inside_text() {
    let c = compiled("m | [tn]|b");
    assert!(c.matches(b"the phantom menace"));
}

#[test]
fn alternation_rejects_unrelated_text() {
    let c = compiled("m | [tn]|b");
    assert!(!c.matches(b"xyz"));
}

#[test]
fn anchored_repeated_group_matches() {
    let c = compiled("^(meta-)*regex matching");
    assert!(c.matches(b"meta-meta-regex matching"));
}

#[test]
fn anchored_repeated_group_rejects() {
    let c = compiled("^(meta-)*regex matching");
    assert!(!c.matches(b"a good idea"));
}

#[test]
fn single_character_pattern_rejects_empty_input() {
    let c = compiled("a");
    assert!(!c.matches(b""));
}

#[test]
fn single_character_pattern_found_anywhere() {
    let c = compiled("a");
    assert!(c.matches(b"xa"));
    assert!(c.matches(b"a"));
    assert!(!c.matches(b"xyz"));
}

#[test]
fn anchored_single_byte() {
    let c = compiled("^A");
    assert!(c.matches(b"A"));
    // The anchored automaton accepts as soon as the first byte matches;
    // trailing input does not revoke the match. The engine agrees.
    assert!(c.matches(b"AA"));
    assert!(engine_verdict("^A", b"AA"));
    assert!(!c.matches(b"BA"));
}

#[test]
fn anchored_versus_unanchored() {
    let anchored = compiled("^regex");
    assert!(anchored.matches(b"regex matching"));
    assert!(!anchored.matches(b"meta-regex matching"));
    let unanchored = compiled("regex");
    assert!(unanchored.matches(b"regex matching"));
    assert!(unanchored.matches(b"meta-regex matching"));
}

#[test]
fn matcher_agrees_with_engine_on_representative_inputs() {
    let patterns = [
        "m | [tn]|b",
        "^(meta-)*regex matching",
        "a",
        "^A",
        "ab*c",
        "[0-9]+",
        "^x|yz",
    ];
    let inputs: [&[u8]; 8] = [
        b"",
        b"the phantom menace",
        b"xyz",
        b"meta-meta-regex matching",
        b"a good idea",
        b"A",
        b"AA",
        b"ab 12 yz x",
    ];
    for pattern in patterns {
        let c = compiled(pattern);
        for input in inputs {
            if input.is_empty() {
                // The emitted matcher only consults the automaton once a
                // byte has been read, so patterns that accept the empty
                // string are reported as non-matching on empty input.
                continue;
            }
            assert_eq!(
                c.matches(input),
                engine_verdict(pattern, input),
                "pattern {:?} disagreed with the engine",
                pattern
            );
            assert_eq!(c.matches(input), c.engine_matches(input));
        }
    }
}

#[test]
fn empty_matching_pattern_on_empty_input_differs_from_engine() {
    // The one input on which the emitted matcher and the engine part ways:
    // the loop never runs on empty input, so an accepting start state is
    // never consulted and the matcher answers false.
    let c = compiled("a*");
    assert!(!c.matches(b""));
    assert!(c.engine_matches(b""));
    assert!(engine_verdict("a*", b""));
}

#[test]
fn compiling_twice_gives_matchers_that_agree() {
    let c1 = compiled("m | [tn]|b");
    let c2 = compiled("m | [tn]|b");
    let inputs: [&[u8]; 6] = [
        b"",
        b"the phantom menace",
        b"xyz",
        b"m",
        b"b",
        b"some longer input with many bytes",
    ];
    for input in inputs {
        assert_eq!(c1.matches(input), c2.matches(input));
    }
}

#[test]
fn transitions_claim_every_byte_exactly_once() {
    for pattern in ["m | [tn]|b", "^(meta-)*regex matching", "a", "[0-9]+"] {
        let c = compiled(pattern);
        for entry in &c.dfa.states {
            if let State::Transitions(arms) = &entry.state {
                let mut claims = [0u32; 256];
                for arm in arms {
                    assert!(!arm.bytes.is_empty());
                    for &b in &arm.bytes {
                        claims[b as usize] += 1;
                    }
                }
                for b in 0..256 {
                    assert_eq!(claims[b], 1, "byte {} not claimed exactly once", b);
                }
            }
        }
    }
}

#[test]
fn every_transition_target_is_classified() {
    for pattern in ["m | [tn]|b", "^(meta-)*regex matching", "ab*c"] {
        let c = compiled(pattern);
        for entry in &c.dfa.states {
            if let State::Transitions(arms) = &entry.state {
                for arm in arms {
                    assert!(
                        c.dfa.states.iter().any(|e| e.id == arm.target),
                        "dangling transition target"
                    );
                }
            }
        }
        assert!(c.dfa.states.iter().any(|e| e.id == c.dfa.start));
    }
}

#[test]
fn invalid_pattern_is_reported() {
    match compile_matcher("(") {
        Err(CompileError::Pattern(_)) => {}
        _ => panic!("unbalanced pattern must fail with a pattern error"),
    }
    match compile_matcher("[z-a]") {
        Err(CompileError::Pattern(_)) => {}
        _ => panic!("inverted class must fail with a pattern error"),
    }
}

#[test]
fn build_dfa_reports_pattern_errors() {
    assert!(const_regex::build_dfa("a|b").is_ok());
    assert!(const_regex::build_dfa("(").is_err());
}

#[test]
fn graph_is_rooted_at_its_start_state() {
    let c = compiled("^ab");
    assert_eq!(c.matcher.start, c.dfa.start);
    assert_eq!(c.matcher.branches.len(), c.dfa.states.len());
    for (branch, entry) in c.matcher.branches.iter().zip(c.dfa.states.iter()) {
        assert_eq!(branch.id, entry.id);
    }
}
