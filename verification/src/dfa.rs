//! The deterministic automaton, its run semantics and the membership test.

use vstd::prelude::*;

use crate::nfa::chars_in;
use crate::node::{vec_contains_node, Node};

verus! {

/// The mathematical content of a [`DFA`]: a start state, the transition table
/// as the sequence of entries in recording order, and the sequence of
/// accepting states.
pub struct DfaV {
    /// The state in which every run begins.
    pub start: Node,
    /// The recorded transitions `(from, symbol, to)`.
    pub table: Seq<(Node, char, Node)>,
    /// The accepting states.
    pub finals: Seq<Node>,
}

/// The transition recorded for `(n, c)`: the last matching entry of the
/// table, or `None` when no entry matches.
pub open spec fn dfa_lookup(table: Seq<(Node, char, Node)>, n: Node, c: char) -> Option<Node>
    decreases table.len(),
{
    if table.len() == 0 {
        None
    } else if table.last().0 == n && table.last().1 == c {
        Some(table.last().2)
    } else {
        dfa_lookup(table.drop_last(), n, c)
    }
}

/// One step of the run.  `None` is the dead sentinel: it is out of band, so
/// it can never collide with a recorded state, and it absorbs every symbol.
pub open spec fn dfa_step(table: Seq<(Node, char, Node)>, cur: Option<Node>, c: char) -> Option<
    Node,
> {
    match cur {
        Some(n) => dfa_lookup(table, n, c),
        None => None,
    }
}

/// The state reached from `cur` after reading `text` symbol by symbol, or
/// `None` once a missing transition has sent the run to the dead sentinel.
pub open spec fn dfa_run(table: Seq<(Node, char, Node)>, cur: Option<Node>, text: Seq<char>) -> Option<
    Node,
>
    decreases text.len(),
{
    if text.len() == 0 {
        cur
    } else {
        dfa_step(table, dfa_run(table, cur, text.drop_last()), text.last())
    }
}

/// Whether the deterministic automaton accepts `text`: the run ends in a
/// recorded accepting state.  In particular the empty string is accepted
/// exactly when the start state is accepting.
pub open spec fn dfa_accepts(v: DfaV, text: Seq<char>) -> bool {
    match dfa_run(v.table, Some(v.start), text) {
        Some(n) => v.finals.contains(n),
        None => false,
    }
}

/// The table maps each `(state, symbol)` pair to at most one target.
pub open spec fn deterministic(table: Seq<(Node, char, Node)>) -> bool {
    forall|p: int, q: int|
        #![trigger table[p], table[q]]
        0 <= p < table.len() && 0 <= q < table.len() && table[p].0 == table[q].0 && table[p].1
            == table[q].1 ==> table[p].2 == table[q].2
}

/// A lookup that finds nothing means that no entry matches the pair.
pub proof fn lemma_lookup_none(table: Seq<(Node, char, Node)>, n: Node, c: char)
    requires
        dfa_lookup(table, n, c) is None,
    ensures
        forall|k: int|
            #![trigger table[k]]
            0 <= k < table.len() ==> !(table[k].0 == n && table[k].1 == c),
    decreases table.len(),
{
    if table.len() > 0 {
        lemma_lookup_none(table.drop_last(), n, c);
        assert forall|k: int| 0 <= k < table.len() implies !(#[trigger] table[k].0 == n
            && table[k].1 == c) by {
            if k < table.len() - 1 {
                assert(table.drop_last()[k] == table[k]);
            }
        }
    }
}

/// A successful lookup returns the target of a recorded entry.
pub proof fn lemma_lookup_some(table: Seq<(Node, char, Node)>, n: Node, c: char)
    requires
        dfa_lookup(table, n, c) is Some,
    ensures
        exists|k: int|
            0 <= k < table.len() && (#[trigger] table[k]).0 == n && table[k].1 == c
                && dfa_lookup(table, n, c) == Some(table[k].2),
    decreases table.len(),
{
    if table.last().0 == n && table.last().1 == c {
        assert(0 <= table.len() - 1 < table.len() && table[table.len() - 1].0 == n
            && table[table.len() - 1].1 == c && dfa_lookup(table, n, c) == Some(
            table[table.len() - 1].2,
        ));
    } else {
        lemma_lookup_some(table.drop_last(), n, c);
        let k = choose|k: int|
            0 <= k < table.drop_last().len() && (#[trigger] table.drop_last()[k]).0 == n
                && table.drop_last()[k].1 == c && dfa_lookup(table.drop_last(), n, c) == Some(
                table.drop_last()[k].2,
            );
        assert(table[k] == table.drop_last()[k]);
    }
}

/// Appending an entry for a pair that had none preserves every successful
/// lookup, and the appended pair now resolves to the appended target.
pub proof fn lemma_lookup_push(table: Seq<(Node, char, Node)>, t: (Node, char, Node), n: Node, c: char)
    requires
        dfa_lookup(table, t.0, t.1) is None,
    ensures
        dfa_lookup(table, n, c) is Some ==> dfa_lookup(table.push(t), n, c) == dfa_lookup(
            table,
            n,
            c,
        ),
        dfa_lookup(table.push(t), t.0, t.1) == Some(t.2),
{
    let ext = table.push(t);
    assert(ext.last() == t);
    assert(ext.drop_last() =~= table);
}

/// A run that ends in a live state is unaffected by appending an entry for a
/// pair that previously had no entry.
pub proof fn lemma_run_push(
    table: Seq<(Node, char, Node)>,
    t: (Node, char, Node),
    cur: Option<Node>,
    text: Seq<char>,
)
    requires
        dfa_lookup(table, t.0, t.1) is None,
        dfa_run(table, cur, text) is Some,
    ensures
        dfa_run(table.push(t), cur, text) == dfa_run(table, cur, text),
    decreases text.len(),
{
    if text.len() > 0 {
        let prefix = text.drop_last();
        assert(dfa_run(table, cur, prefix) is Some);
        lemma_run_push(table, t, cur, prefix);
        let z = dfa_run(table, cur, prefix);
        lemma_lookup_push(table, t, z->Some_0, text.last());
    }
}

/// Once the run has died, reading any further text leaves it dead.
pub proof fn lemma_run_none(
    table: Seq<(Node, char, Node)>,
    cur: Option<Node>,
    text: Seq<char>,
    ext: Seq<char>,
)
    requires
        dfa_run(table, cur, text) is None,
    ensures
        dfa_run(table, cur, text + ext) is None,
    decreases ext.len(),
{
    if ext.len() == 0 {
        assert(text + ext =~= text);
    } else {
        lemma_run_none(table, cur, text, ext.drop_last());
        assert((text + ext).drop_last() =~= text + ext.drop_last());
        assert((text + ext).last() == ext.last());
    }
}

/// A nonempty live run ends at the target of a recorded entry.
pub proof fn lemma_run_target(table: Seq<(Node, char, Node)>, cur: Option<Node>, text: Seq<char>)
    requires
        text.len() > 0,
        dfa_run(table, cur, text) is Some,
    ensures
        exists|k: int|
            0 <= k < table.len() && (#[trigger] table[k]).2 == dfa_run(table, cur, text)->Some_0,
{
    let prefix = text.drop_last();
    assert(dfa_run(table, cur, prefix) is Some);
    let z = dfa_run(table, cur, prefix);
    lemma_lookup_some(table, z->Some_0, text.last());
    let k = choose|k: int|
        0 <= k < table.len() && (#[trigger] table[k]).0 == z->Some_0 && table[k].1 == text.last()
            && dfa_lookup(table, z->Some_0, text.last()) == Some(table[k].2);
    assert(table[k].2 == dfa_run(table, cur, text)->Some_0);
}

/// A live run can only have read symbols that the table records: when every
/// recorded symbol belongs to `alphabet`, a string holding a symbol outside
/// it sends the run to the dead sentinel.
pub proof fn lemma_run_symbols_in(
    table: Seq<(Node, char, Node)>,
    cur: Option<Node>,
    text: Seq<char>,
    alphabet: Seq<char>,
)
    requires
        dfa_run(table, cur, text) is Some,
        forall|k: int| 0 <= k < table.len() ==> alphabet.contains((#[trigger] table[k]).1),
    ensures
        chars_in(text, alphabet),
    decreases text.len(),
{
    if text.len() > 0 {
        let prefix = text.drop_last();
        assert(dfa_run(table, cur, prefix) is Some);
        lemma_run_symbols_in(table, cur, prefix, alphabet);
        let z = dfa_run(table, cur, prefix);
        lemma_lookup_some(table, z->Some_0, text.last());
        let ke = choose|ke: int|
            0 <= ke < table.len() && (#[trigger] table[ke]).0 == z->Some_0 && table[ke].1
                == text.last() && dfa_lookup(table, z->Some_0, text.last()) == Some(table[ke].2);
        assert(alphabet.contains(text.last()));
        assert forall|q: int| 0 <= q < text.len() implies alphabet.contains(
            #[trigger] text[q],
        ) by {
            if q < text.len() - 1 {
                assert(text[q] == prefix[q]);
            } else {
                assert(text[q] == text.last());
            }
        }
    }
}

/// Dead-state absorption: once the run reaches a state from which the next
/// symbol has no recorded transition, every longer string sharing that
/// prefix is rejected.
pub proof fn lemma_dead_state_absorption(d: DfaV, text: Seq<char>, c: char, ext: Seq<char>)
    requires
        dfa_run(d.table, Some(d.start), text) is Some,
        dfa_lookup(d.table, dfa_run(d.table, Some(d.start), text)->Some_0, c) is None,
    ensures
        dfa_run(d.table, Some(d.start), text.push(c) + ext) is None,
        !dfa_accepts(d, text.push(c) + ext),
{
    let step1 = text.push(c);
    assert(step1.drop_last() =~= text);
    assert(step1.last() == c);
    assert(dfa_run(d.table, Some(d.start), step1) is None);
    lemma_run_none(d.table, Some(d.start), step1, ext);
}

/// A deterministic finite automaton: a start state, a deterministic but
/// possibly partial transition table, and its accepting states.
///
/// There is deliberately no way to construct one directly: every `DFA` comes
/// out of [`crate::nfa::NFA::to_dfa`], so its determinism and the soundness
/// of its table hold by construction.
#[derive(Debug)]
pub struct DFA {
    pub(crate) starting_node: Node,
    pub(crate) trans_table: Vec<(Node, char, Node)>,
    pub(crate) final_nodes: Vec<Node>,
}

impl View for DFA {
    type V = DfaV;

    closed spec fn view(&self) -> DfaV {
        DfaV { start: self.starting_node, table: self.trans_table@, finals: self.final_nodes@ }
    }
}

/// Relates an automaton's abstraction to its representation, for the module
/// that constructs it.
pub(crate) proof fn lemma_dfa_view(d: &DFA)
    ensures
        d@ == (DfaV {
            start: d.starting_node,
            table: d.trans_table@,
            finals: d.final_nodes@,
        }),
{
}

/// Looks up the transition recorded for `(n, c)`, scanning from the most
/// recently recorded entry.
pub(crate) fn table_lookup(table: &Vec<(Node, char, Node)>, n: Node, c: char) -> (r: Option<Node>)
    ensures
        r == dfa_lookup(table@, n, c),
{
    let mut k: usize = table.len();
    proof {
        assert(table@.take(table@.len() as int) =~= table@);
    }
    while k > 0
        invariant
            k <= table@.len(),
            dfa_lookup(table@, n, c) == dfa_lookup(table@.take(k as int), n, c),
        decreases k,
    {
        let e = table[k - 1];
        proof {
            let pre = table@.take(k as int);
            assert(pre.last() == table@[k - 1]);
            assert(pre.drop_last() =~= table@.take(k - 1));
        }
        if e.0 == n && e.1 == c {
            return Some(e.2);
        }
        k -= 1;
    }
    None
}

impl DFA {
    /// Whether the automaton accepts `text`.
    ///
    /// Starting from the start state, each symbol is looked up in the
    /// transition table; a missing transition moves the run to the dead
    /// sentinel, which no later symbol can leave.  A symbol outside the
    /// declared alphabet of the source NFA has no recorded transition, so it
    /// leads to rejection rather than to an error.  The automaton accepts
    /// exactly when the state after the last symbol is a recorded accepting
    /// state; the empty string is accepted exactly when the start state is.
    pub fn is_accepted(&self, text: &str) -> (r: bool)
        ensures
            r == dfa_accepts(self@, text@),
    {
        let mut cur: Option<Node> = Some(self.starting_node);
        proof {
            assert(text@.take(0) =~= Seq::<char>::empty());
        }
        for c in it: text.chars()
            invariant
                it.seq() == text@,
                cur == dfa_run(self@.table, Some(self@.start), text@.take(it.index() as int)),
        {
            proof {
                let i = it.index() as int;
                assert(text@.take(i + 1).drop_last() =~= text@.take(i));
                assert(text@.take(i + 1).last() == text@[i]);
            }
            cur = match cur {
                Some(n) => table_lookup(&self.trans_table, n, c),
                None => None,
            };
        }
        proof {
            assert(text@.take(text@.len() as int) =~= text@);
        }
        match cur {
            Some(n) => vec_contains_node(&self.final_nodes, n),
            None => false,
        }
    }
}

} // verus!
