//! Behavioural tests for the subset-construction converter and the
//! membership test.

use nfa_to_dfa::{Node, NFA};

/// Builds an NFA from plain parts.
fn build_nfa(start: usize, alph: &[char], edges: &[(usize, char, usize)], finals: &[usize]) -> NFA {
    let mut nfa = NFA::new(Node(start), alph.to_vec());
    for &(f, c, t) in edges {
        nfa.add(Node(f), c, Node(t));
    }
    for &n in finals {
        nfa.add_final(Node(n));
    }
    nfa
}

/// Direct set-based simulation of the NFA: tracks every state reachable by
/// nondeterministic execution and accepts iff the final set is met.
fn nfa_sim_accepts(
    start: usize,
    edges: &[(usize, char, usize)],
    finals: &[usize],
    text: &str,
) -> bool {
    let mut cur: Vec<usize> = vec![start];
    for c in text.chars() {
        let mut next: Vec<usize> = Vec::new();
        for &(f, s, t) in edges {
            if s == c && cur.contains(&f) && !next.contains(&t) {
                next.push(t);
            }
        }
        cur = next;
    }
    cur.iter().any(|n| finals.contains(n))
}

/// Every string over `alph` of length at most `max_len`, the empty string
/// included.
fn all_strings(alph: &[char], max_len: usize) -> Vec<String> {
    let mut out = vec![String::new()];
    let mut last: Vec<String> = vec![String::new()];
    for _ in 0..max_len {
        let mut next: Vec<String> = Vec::new();
        for s in &last {
            for &c in alph {
                let mut t = s.clone();
                t.push(c);
                next.push(t);
            }
        }
        out.extend(next.iter().cloned());
        last = next;
    }
    out
}

#[test]
fn scenario_over_binary_alphabet() {
    let nfa = build_nfa(0, &['0', '1'], &[(0, '0', 1), (0, '1', 1), (0, '1', 0)], &[1]);
    let dfa = nfa.to_dfa();
    assert!(dfa.is_accepted("1110"));
    assert!(dfa.is_accepted("1111"));
    assert!(!dfa.is_accepted("1011"));
}

#[test]
fn agrees_with_direct_simulation_bounded() {
    let edges = [(0, '0', 1), (0, '1', 1), (0, '1', 0)];
    let finals = [1];
    let nfa = build_nfa(0, &['0', '1'], &edges, &finals);
    let dfa = nfa.to_dfa();
    for s in all_strings(&['0', '1'], 6) {
        assert_eq!(
            dfa.is_accepted(&s),
            nfa_sim_accepts(0, &edges, &finals, &s),
            "disagreement on {:?}",
            s
        );
    }
}

#[test]
fn agrees_with_direct_simulation_three_states() {
    // A chain with a loop: 0 -a-> 1 -b-> 2, 2 -a-> 0, plus 0 -a-> 0.
    let edges = [(0, 'a', 1), (1, 'b', 2), (2, 'a', 0), (0, 'a', 0)];
    let finals = [2];
    let nfa = build_nfa(0, &['a', 'b'], &edges, &finals);
    let dfa = nfa.to_dfa();
    for s in all_strings(&['a', 'b'], 6) {
        assert_eq!(
            dfa.is_accepted(&s),
            nfa_sim_accepts(0, &edges, &finals, &s),
            "disagreement on {:?}",
            s
        );
    }
}

#[test]
fn repeated_conversion_agrees() {
    let nfa = build_nfa(0, &['0', '1'], &[(0, '0', 1), (0, '1', 1), (0, '1', 0)], &[1]);
    let d1 = nfa.to_dfa();
    let d2 = nfa.to_dfa();
    for s in all_strings(&['0', '1'], 5) {
        assert_eq!(d1.is_accepted(&s), d2.is_accepted(&s), "disagreement on {:?}", s);
    }
}

#[test]
fn dead_prefix_rejects_all_extensions() {
    let nfa = build_nfa(0, &['0', '1'], &[(0, '0', 1), (0, '1', 1), (0, '1', 0)], &[1]);
    let dfa = nfa.to_dfa();
    // "10" ends in {1}, which has no outgoing transitions: "100" dies.
    assert!(dfa.is_accepted("10"));
    for ext in all_strings(&['0', '1'], 3) {
        let mut s = String::from("100");
        s.push_str(&ext);
        assert!(!dfa.is_accepted(&s), "accepted {:?}", s);
    }
}

#[test]
fn empty_string_rejected_when_start_not_final() {
    let nfa = build_nfa(0, &['0', '1'], &[(0, '0', 1), (0, '1', 1), (0, '1', 0)], &[1]);
    let dfa = nfa.to_dfa();
    assert!(!dfa.is_accepted(""));
}

#[test]
fn empty_string_accepted_with_self_loop_on_final_start() {
    let nfa = build_nfa(0, &['a'], &[(0, 'a', 0)], &[0]);
    let dfa = nfa.to_dfa();
    assert!(dfa.is_accepted(""));
    assert!(dfa.is_accepted("aaa"));
}

#[test]
fn empty_string_accepted_when_start_is_final_without_transitions() {
    // The start state's own subset is checked for finality even when no
    // transition ever leads back to it, so the empty string is accepted
    // exactly as the direct simulation accepts it.
    let nfa = build_nfa(0, &['a'], &[], &[0]);
    let dfa = nfa.to_dfa();
    assert!(dfa.is_accepted(""));
    assert!(!dfa.is_accepted("a"));
}

#[test]
fn symbols_outside_alphabet_reject() {
    let nfa = build_nfa(0, &['0', '1'], &[(0, '0', 1), (0, '1', 1), (0, '1', 0)], &[1]);
    let dfa = nfa.to_dfa();
    assert!(!dfa.is_accepted("2"));
    assert!(!dfa.is_accepted("12"));
    assert!(dfa.is_accepted("11"));
    assert!(!dfa.is_accepted("121"));
}

#[test]
fn duplicate_edges_harmless() {
    let edges = [(0, 'a', 1), (0, 'a', 1), (0, 'a', 1), (1, 'a', 1)];
    let finals = [1];
    let nfa = build_nfa(0, &['a'], &edges, &finals);
    let dfa = nfa.to_dfa();
    for s in all_strings(&['a'], 4) {
        assert_eq!(dfa.is_accepted(&s), nfa_sim_accepts(0, &edges, &finals, &s));
    }
}

#[test]
fn duplicate_final_registrations_harmless() {
    let nfa = build_nfa(0, &['a'], &[(0, 'a', 1)], &[1, 1, 1]);
    let dfa = nfa.to_dfa();
    assert!(dfa.is_accepted("a"));
    assert!(!dfa.is_accepted("aa"));
}

#[test]
fn unreachable_states_ignored() {
    // States 7 and 8 are never reachable from the start; edges touching them
    // are accepted silently and change nothing.
    let edges = [(0, 'a', 1), (7, 'a', 8), (8, 'a', 7), (7, 'a', 1)];
    let finals = [1, 8];
    let nfa = build_nfa(0, &['a'], &edges, &finals);
    let dfa = nfa.to_dfa();
    assert!(dfa.is_accepted("a"));
    assert!(!dfa.is_accepted(""));
    assert!(!dfa.is_accepted("aa"));
}

#[test]
fn empty_alphabet_automaton() {
    let nfa = build_nfa(0, &[], &[], &[0]);
    let dfa = nfa.to_dfa();
    assert!(dfa.is_accepted(""));
    assert!(!dfa.is_accepted("a"));
}

#[test]
fn unreachable_edges_change_nothing() {
    // Adding edges whose sources are unreachable from the start leaves the
    // recognized language untouched, the empty string included.
    let base_edges = [(0, 'a', 1), (1, 'b', 0)];
    let extra_edges = [(0, 'a', 1), (1, 'b', 0), (7, 'a', 8), (8, 'b', 7), (7, 'b', 1)];
    let finals = [0];
    let d1 = build_nfa(0, &['a', 'b'], &base_edges, &finals).to_dfa();
    let d2 = build_nfa(0, &['a', 'b'], &extra_edges, &finals).to_dfa();
    for s in all_strings(&['a', 'b'], 5) {
        assert_eq!(d1.is_accepted(&s), d2.is_accepted(&s), "disagreement on {:?}", s);
    }
}

#[test]
fn out_of_alphabet_edges_fire_only_on_their_symbol() {
    // `add` performs no validation: an edge on a symbol outside the declared
    // alphabet is stored, but the converter only explores declared symbols,
    // so the edge never contributes to the DFA.
    let nfa = build_nfa(0, &['a'], &[(0, 'a', 1), (0, 'z', 1)], &[1]);
    let dfa = nfa.to_dfa();
    assert!(dfa.is_accepted("a"));
    assert!(!dfa.is_accepted("z"));
}
