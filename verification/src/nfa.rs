//! The nondeterministic automaton and its set-based semantics.

use vstd::prelude::*;

use crate::node::Node;

verus! {

/// The mathematical content of an [`NFA`]: a start state, the declared
/// alphabet, the transition relation as the sequence of edges in insertion
/// order, and the sequence of accepting states.
pub struct NfaV {
    /// The state in which every run begins.
    pub start: Node,
    /// The declared input alphabet, in declaration order.
    pub alphabet: Seq<char>,
    /// The edges `(from, symbol, to)` of the transition relation.
    pub trans: Seq<(Node, char, Node)>,
    /// The accepting states.
    pub finals: Seq<Node>,
}

/// Whether edge `k` of `trans` carries a state of `from_set` to `m` on
/// symbol `c`.
pub open spec fn edge_matches(
    trans: Seq<(Node, char, Node)>,
    k: int,
    from_set: Set<Node>,
    c: char,
    m: Node,
) -> bool {
    &&& 0 <= k < trans.len()
    &&& from_set.contains(trans[k].0)
    &&& trans[k].1 == c
    &&& trans[k].2 == m
}

/// The states reachable from some state of `s` by one transition on `c`.
pub open spec fn nfa_step(trans: Seq<(Node, char, Node)>, s: Set<Node>, c: char) -> Set<Node> {
    Set::new(|m: Node| exists|k: int| edge_matches(trans, k, s, c, m))
}

/// The set of states reachable from `s` by reading `text` symbol by symbol:
/// the direct set-based simulation of the nondeterministic automaton.
pub open spec fn nfa_reach(trans: Seq<(Node, char, Node)>, s: Set<Node>, text: Seq<char>) -> Set<
    Node,
>
    decreases text.len(),
{
    if text.len() == 0 {
        s
    } else {
        nfa_step(trans, nfa_reach(trans, s, text.drop_last()), text.last())
    }
}

/// Whether some state of `s` is listed in `finals`.
pub open spec fn set_has_final(finals: Seq<Node>, s: Set<Node>) -> bool {
    exists|n: Node| s.contains(n) && finals.contains(n)
}

/// Whether the nondeterministic automaton accepts `text`: reading it may end
/// in at least one accepting state.
pub open spec fn nfa_accepts(v: NfaV, text: Seq<char>) -> bool {
    set_has_final(v.finals, nfa_reach(v.trans, set![v.start], text))
}

/// Whether every symbol of `text` belongs to `alphabet`.
pub open spec fn chars_in(text: Seq<char>, alphabet: Seq<char>) -> bool {
    forall|i: int| 0 <= i < text.len() ==> alphabet.contains(#[trigger] text[i])
}

/// A nondeterministic finite automaton under incremental construction: a
/// start state, a declared alphabet, a possibly partial and multi-valued
/// transition relation, and a list of accepting states.
///
/// No validation is performed: duplicate edges, edges mentioning otherwise
/// unknown states, duplicate accepting states and symbols outside the
/// declared alphabet are all accepted silently.
#[derive(Debug)]
pub struct NFA {
    pub(crate) starting_node: Node,
    pub(crate) inp_alph: Vec<char>,
    pub(crate) trans_table: Vec<(Node, char, Node)>,
    pub(crate) final_nodes: Vec<Node>,
}

impl View for NFA {
    type V = NfaV;

    closed spec fn view(&self) -> NfaV {
        NfaV {
            start: self.starting_node,
            alphabet: self.inp_alph@,
            trans: self.trans_table@,
            finals: self.final_nodes@,
        }
    }
}

/// Relates an automaton's abstraction to its representation, for the modules
/// that build on it.
pub(crate) proof fn lemma_nfa_view(n: &NFA)
    ensures
        n@ == (NfaV {
            start: n.starting_node,
            alphabet: n.inp_alph@,
            trans: n.trans_table@,
            finals: n.final_nodes@,
        }),
{
}

impl NFA {
    /// Creates an automaton over `inp_alph` starting in `starting_node`, with
    /// no transitions and no accepting states.  Always succeeds.
    pub fn new(starting_node: Node, inp_alph: Vec<char>) -> (n: NFA)
        ensures
            n@ == (NfaV {
                start: starting_node,
                alphabet: inp_alph@,
                trans: Seq::<(Node, char, Node)>::empty(),
                finals: Seq::<Node>::empty(),
            }),
    {
        let n = NFA {
            starting_node,
            inp_alph,
            trans_table: Vec::new(),
            final_nodes: Vec::new(),
        };
        proof {
            assert(n.trans_table@ =~= Seq::<(Node, char, Node)>::empty());
            assert(n.final_nodes@ =~= Seq::<Node>::empty());
        }
        n
    }

    /// Records one more target for `(from, inp)`.  The symbol need not belong
    /// to the declared alphabet, and a duplicate edge is stored again rather
    /// than deduplicated.
    pub fn add(&mut self, from: Node, inp: char, to: Node)
        ensures
            final(self)@ == (NfaV {
                start: old(self)@.start,
                alphabet: old(self)@.alphabet,
                trans: old(self)@.trans.push((from, inp, to)),
                finals: old(self)@.finals,
            }),
    {
        self.trans_table.push((from, inp, to));
    }

    /// Records `node` as accepting; duplicates are allowed, and no check is
    /// made against the transition relation.
    pub fn add_final(&mut self, node: Node)
        ensures
            final(self)@ == (NfaV {
                start: old(self)@.start,
                alphabet: old(self)@.alphabet,
                trans: old(self)@.trans,
                finals: old(self)@.finals.push(node),
            }),
    {
        self.final_nodes.push(node);
    }
}

} // verus!
