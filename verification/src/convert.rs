//! Subset construction: the converter from an [`NFA`] to a [`DFA`].

use vstd::arithmetic::power2::{lemma_pow2_pos, lemma_pow2_strictly_increases, lemma_pow2_unfold, pow2};
use vstd::prelude::*;
use vstd::set_lib::{lemma_int_range, lemma_len_subset, set_int_range};
use vstd::std_specs::vec::axiom_spec_len;

use crate::dfa::{
    deterministic, dfa_accepts, dfa_lookup, dfa_run, lemma_dfa_view, lemma_lookup_none,
    lemma_lookup_push, lemma_lookup_some, lemma_run_push, lemma_run_symbols_in, lemma_run_target,
    table_lookup, DfaV, DFA,
};
use crate::nfa::{
    chars_in, edge_matches, lemma_nfa_view, nfa_accepts, nfa_reach, nfa_step, set_has_final, NfaV,
    NFA,
};
use crate::node::{canonical, insert_canonical, node_set, vec_contains_node, node_seq_eq, Node};

verus! {

/// The abstractions of the interning table's entries.
pub open spec fn views_of(subsets: Seq<Vec<Node>>) -> Seq<Seq<Node>> {
    Seq::new(subsets.len(), |i: int| subsets[i]@)
}

/// A table entry is sound for the automaton `nv` and the interned subsets
/// `ss`: both identifiers are indices into `ss`, the symbol belongs to the
/// declared alphabet, and the target subset is exactly the step relation
/// applied to the source subset.
pub open spec fn table_entry_sound(nv: NfaV, ss: Seq<Seq<Node>>, t: (Node, char, Node)) -> bool {
    &&& t.0.0 < ss.len()
    &&& t.2.0 < ss.len()
    &&& nv.alphabet.contains(t.1)
    &&& node_set(ss[t.2.0 as int]) == nfa_step(nv.trans, node_set(ss[t.0.0 as int]), t.1)
}

/// Every recorded entry is sound.
pub open spec fn table_sound(nv: NfaV, ss: Seq<Seq<Node>>, table: Seq<(Node, char, Node)>) -> bool {
    forall|k: int| 0 <= k < table.len() ==> table_entry_sound(nv, ss, #[trigger] table[k])
}

/// Every interned subset has a recorded transition for every symbol of the
/// declared alphabet.
pub open spec fn table_complete(nv: NfaV, ss: Seq<Seq<Node>>, table: Seq<(Node, char, Node)>) -> bool {
    forall|i: int, k: int|
        0 <= i < ss.len() && 0 <= k < nv.alphabet.len() ==> (#[trigger] dfa_lookup(
            table,
            Node(i as usize),
            nv.alphabet[k],
        )) is Some
}

/// Every recorded accepting state is an interned subset holding an accepting
/// NFA state.
pub open spec fn finals_sound(nv: NfaV, ss: Seq<Seq<Node>>, finals: Seq<Node>) -> bool {
    forall|k: int|
        0 <= k < finals.len() ==> (#[trigger] finals[k]).0 < ss.len() && set_has_final(
            nv.finals,
            node_set(ss[finals[k].0 as int]),
        )
}

/// Every target of a recorded transition whose subset holds an accepting NFA
/// state is recorded as accepting.
pub open spec fn finals_complete(
    nv: NfaV,
    ss: Seq<Seq<Node>>,
    table: Seq<(Node, char, Node)>,
    finals: Seq<Node>,
) -> bool {
    forall|k: int|
        0 <= k < table.len() && (#[trigger] table[k]).2.0 < ss.len() && set_has_final(
            nv.finals,
            node_set(ss[table[k].2.0 as int]),
        ) ==> finals.contains(table[k].2)
}

/// What [`NFA::to_dfa`] promises of its result: the deterministic automaton
/// accepts exactly the strings over the declared alphabet that the source
/// accepts — agreement on every string over the alphabet, the empty string
/// included, and rejection of every string holding a symbol outside the
/// alphabet.
pub open spec fn converts(nv: NfaV, dv: DfaV) -> bool {
    forall|text: Seq<char>|
        #[trigger] dfa_accepts(dv, text) == (chars_in(text, nv.alphabet) && nfa_accepts(nv, text))
}

/// `x` can be reached from the start of `dv` by some string over `alphabet`.
pub open spec fn dfa_state_reachable(alphabet: Seq<char>, dv: DfaV, x: Node) -> bool {
    exists|text: Seq<char>|
        #[trigger] chars_in(text, alphabet) && dfa_run(dv.table, Some(dv.start), text) == Some(x)
}

/// The subset-sum encoding of a canonical sequence: one power of two per
/// identifier.  It is injective on canonical sequences, which bounds the
/// number of distinct interned subsets and so bounds the converter's work.
pub open spec fn encode(s: Seq<Node>) -> nat
    decreases s.len(),
{
    if s.len() == 0 {
        0
    } else {
        encode(s.drop_last()) + pow2(s.last().0 as nat)
    }
}

proof fn lemma_encode_lt(s: Seq<Node>, m: nat)
    requires
        canonical(s),
        forall|i: int| 0 <= i < s.len() ==> (#[trigger] s[i]).0 < m,
    ensures
        encode(s) < pow2(m),
    decreases s.len(),
{
    lemma_pow2_pos(m);
    if s.len() > 0 {
        let t = s.drop_last();
        let last = s.last().0 as nat;
        assert forall|i: int| 0 <= i < t.len() implies (#[trigger] t[i]).0 < last by {
            assert(t[i] == s[i]);
            assert(s[i].0 < s[s.len() - 1].0);
        }
        assert(canonical(t)) by {
            assert forall|i: int, j: int| 0 <= i < j < t.len() implies t[i].0 < t[j].0 by {
                assert(t[i] == s[i] && t[j] == s[j]);
            }
        }
        lemma_encode_lt(t, last);
        lemma_pow2_unfold(last + 1);
        assert(encode(s) < pow2(last + 1));
        if last + 1 < m {
            lemma_pow2_strictly_increases(last + 1, m);
        }
    }
}

proof fn lemma_encode_injective(s: Seq<Node>, t: Seq<Node>)
    requires
        canonical(s),
        canonical(t),
        encode(s) == encode(t),
    ensures
        s == t,
    decreases s.len() + t.len(),
{
    if s.len() == 0 && t.len() == 0 {
        assert(s =~= t);
    } else if s.len() == 0 {
        lemma_pow2_pos(t.last().0 as nat);
        assert(false);
    } else if t.len() == 0 {
        lemma_pow2_pos(s.last().0 as nat);
        assert(false);
    } else if s.last().0 < t.last().0 {
        lemma_encode_lt(s, t.last().0 as nat);
        assert(encode(t) >= pow2(t.last().0 as nat));
        assert(false);
    } else if s.last().0 > t.last().0 {
        lemma_encode_lt(t, s.last().0 as nat);
        assert(encode(s) >= pow2(s.last().0 as nat));
        assert(false);
    } else {
        assert(s.last() == t.last());
        assert(canonical(s.drop_last()) && canonical(t.drop_last())) by {
            assert forall|i: int, j: int|
                0 <= i < j < s.drop_last().len() implies s.drop_last()[i].0
                < s.drop_last()[j].0 by {
                assert(s.drop_last()[i] == s[i] && s.drop_last()[j] == s[j]);
            }
            assert forall|i: int, j: int|
                0 <= i < j < t.drop_last().len() implies t.drop_last()[i].0
                < t.drop_last()[j].0 by {
                assert(t.drop_last()[i] == t[i] && t.drop_last()[j] == t[j]);
            }
        }
        lemma_encode_injective(s.drop_last(), t.drop_last());
        assert(s =~= t) by {
            assert(s.len() == t.len());
            assert forall|i: int| 0 <= i < s.len() implies s[i] == t[i] by {
                if i < s.len() - 1 {
                    assert(s.drop_last()[i] == s[i] && t.drop_last()[i] == t[i]);
                }
            }
        }
    }
}

/// Membership in a sequence survives appending.
proof fn lemma_push_contains<A>(s: Seq<A>, x: A, y: A)
    ensures
        s.contains(y) ==> s.push(x).contains(y),
{
    if s.contains(y) {
        let i = choose|i: int| 0 <= i < s.len() && s[i] == y;
        assert(s.push(x)[i] == y);
    }
}

/// Pairwise distinct canonical sequences are no more numerous than the
/// possible subsets of identifiers.
proof fn lemma_distinct_canonical_bound(ss: Seq<Seq<Node>>)
    requires
        forall|i: int| 0 <= i < ss.len() ==> canonical(#[trigger] ss[i]),
        forall|i: int, j: int| 0 <= i < j < ss.len() ==> ss[i] != ss[j],
    ensures
        ss.len() <= pow2((usize::MAX as nat) + 1),
{
    let bound = (usize::MAX as nat) + 1;
    let codes = Seq::<int>::new(ss.len(), |i: int| encode(ss[i]) as int);
    assert forall|i: int, j: int|
        0 <= i < codes.len() && 0 <= j < codes.len() && i != j implies codes[i] != codes[j] by {
        if encode(ss[i]) == encode(ss[j]) {
            lemma_encode_injective(ss[i], ss[j]);
        }
    }
    assert(codes.no_duplicates());
    codes.unique_seq_to_set();
    let range = set_int_range(0, pow2(bound) as int);
    lemma_int_range(0, pow2(bound) as int);
    assert forall|x: int| codes.to_set().contains(x) implies range.contains(x) by {
        let i = choose|i: int| 0 <= i < codes.len() && codes[i] == x;
        lemma_encode_lt(ss[i], bound);
    }
    lemma_len_subset(codes.to_set(), range);
}

/// Copies the interned subset at index `i`.
fn copy_subset(subsets: &Vec<Vec<Node>>, i: usize) -> (r: Vec<Node>)
    requires
        i < subsets@.len(),
    ensures
        r@ == subsets@[i as int]@,
{
    let src = &subsets[i];
    let mut r: Vec<Node> = Vec::new();
    let mut k: usize = 0;
    while k < src.len()
        invariant
            k <= src@.len(),
            src@ == subsets@[i as int]@,
            r@ == src@.take(k as int),
        decreases src@.len() - k,
    {
        r.push(src[k]);
        proof {
            assert(src@.take(k + 1) =~= src@.take(k as int).push(src@[k as int]));
        }
        k += 1;
    }
    proof {
        assert(src@.take(src@.len() as int) =~= src@);
    }
    r
}

/// The canonical sequence of all states reachable in one step on `c` from
/// the states of `subset`.
#[verifier::loop_isolation(false)]
fn move_set(trans: &Vec<(Node, char, Node)>, subset: &Vec<Node>, c: char) -> (r: Vec<Node>)
    ensures
        canonical(r@),
        node_set(r@) == nfa_step(trans@, node_set(subset@), c),
{
    let mut r: Vec<Node> = Vec::new();
    let ghost s = node_set(subset@);
    proof {
        assert(node_set(r@) =~= nfa_step(trans@.take(0), s, c));
    }
    let mut k: usize = 0;
    while k < trans.len()
        invariant
            k <= trans@.len(),
            canonical(r@),
            node_set(r@) == nfa_step(trans@.take(k as int), s, c),
        decreases trans@.len() - k,
    {
        let e = trans[k];
        let ghost r0 = r@;
        let ghost pre = trans@.take(k as int);
        let ghost post = trans@.take(k as int + 1);
        proof {
            assert(post.drop_last() =~= pre);
            assert(post.last() == trans@[k as int]);
        }
        if e.1 == c && vec_contains_node(subset, e.0) {
            insert_canonical(&mut r, e.2);
            proof {
                assert(s.contains(e.0));
                assert forall|m: Node| nfa_step(post, s, c).contains(m) implies node_set(
                    r@,
                ).contains(m) by {
                    let kw = choose|kw: int| edge_matches(post, kw, s, c, m);
                    if kw < k {
                        assert(pre[kw] == post[kw]);
                        assert(edge_matches(pre, kw, s, c, m));
                        assert(nfa_step(pre, s, c).contains(m));
                        assert(node_set(r0).contains(m));
                    } else {
                        assert(post[kw] == e);
                        assert(m == e.2);
                    }
                }
                assert forall|m: Node| node_set(r@).contains(m) implies nfa_step(
                    post,
                    s,
                    c,
                ).contains(m) by {
                    if node_set(r0).contains(m) {
                        assert(nfa_step(pre, s, c).contains(m));
                        let kw = choose|kw: int| edge_matches(pre, kw, s, c, m);
                        assert(post[kw] == pre[kw]);
                        assert(edge_matches(post, kw, s, c, m));
                    } else {
                        assert(m == e.2);
                        assert(edge_matches(post, k as int, s, c, m));
                    }
                }
                assert(node_set(r@) =~= nfa_step(post, s, c));
            }
        } else {
            proof {
                assert(!(e.1 == c && s.contains(e.0)));
                assert forall|m: Node| nfa_step(post, s, c).contains(m) implies node_set(
                    r@,
                ).contains(m) by {
                    let kw = choose|kw: int| edge_matches(post, kw, s, c, m);
                    assert(kw < k) by {
                        if kw == k {
                            assert(post[kw] == e);
                        }
                    }
                    assert(pre[kw] == post[kw]);
                    assert(edge_matches(pre, kw, s, c, m));
                    assert(nfa_step(pre, s, c).contains(m));
                }
                assert forall|m: Node| node_set(r@).contains(m) implies nfa_step(
                    post,
                    s,
                    c,
                ).contains(m) by {
                    assert(nfa_step(pre, s, c).contains(m));
                    let kw = choose|kw: int| edge_matches(pre, kw, s, c, m);
                    assert(post[kw] == pre[kw]);
                    assert(edge_matches(post, kw, s, c, m));
                }
                assert(node_set(r@) =~= nfa_step(post, s, c));
            }
        }
        k += 1;
    }
    proof {
        assert(trans@.take(trans@.len() as int) =~= trans@);
    }
    r
}

/// Finds a canonical subset in the interning table, appending it as a fresh
/// entry when it is not yet present; returns its index and whether it was
/// fresh.  The index of a subset never changes once interned, so within one
/// conversion equal canonical subsets always receive equal identifiers.
fn intern(subsets: &mut Vec<Vec<Node>>, r: Vec<Node>) -> (res: (usize, bool))
    ensures
        res.0 < final(subsets)@.len(),
        final(subsets)@[res.0 as int]@ == r@,
        res.1 ==> final(subsets)@ == old(subsets)@.push(r) && res.0 == old(subsets)@.len() && (
        forall|i: int| 0 <= i < old(subsets)@.len() ==> (#[trigger] old(subsets)@[i])@ != r@),
        !res.1 ==> final(subsets)@ == old(subsets)@,
{
    let mut j: usize = 0;
    while j < subsets.len()
        invariant
            j <= subsets@.len(),
            subsets@ == old(subsets)@,
            forall|i: int| 0 <= i < j ==> (#[trigger] subsets@[i])@ != r@,
        decreases subsets@.len() - j,
    {
        if node_seq_eq(&subsets[j], &r) {
            return (j, false);
        }
        j += 1;
    }
    subsets.push(r);
    (subsets.len() - 1, true)
}

/// Whether `subset` holds a state listed in `finals`.
fn subset_has_final(finals: &Vec<Node>, subset: &Vec<Node>) -> (r: bool)
    ensures
        r == set_has_final(finals@, node_set(subset@)),
{
    let mut k: usize = 0;
    while k < subset.len()
        invariant
            k <= subset@.len(),
            forall|i: int| 0 <= i < k ==> !finals@.contains(#[trigger] subset@[i]),
        decreases subset@.len() - k,
    {
        if vec_contains_node(finals, subset[k]) {
            proof {
                assert(node_set(subset@).contains(subset@[k as int]));
            }
            return true;
        }
        k += 1;
    }
    proof {
        if set_has_final(finals@, node_set(subset@)) {
            let n = choose|n: Node| node_set(subset@).contains(n) && finals@.contains(n);
            let i = choose|i: int| 0 <= i < subset@.len() && subset@[i] == n;
            assert(false);
        }
    }
    false
}

/// From any interned state, a run over alphabet symbols never dies, and the
/// state it reaches is the interned image of the set of NFA states that the
/// direct simulation reaches.
proof fn lemma_simulation(
    nv: NfaV,
    ss: Seq<Seq<Node>>,
    table: Seq<(Node, char, Node)>,
    i: int,
    text: Seq<char>,
)
    requires
        table_sound(nv, ss, table),
        table_complete(nv, ss, table),
        ss.len() <= usize::MAX,
        0 <= i < ss.len(),
        chars_in(text, nv.alphabet),
    ensures
        exists|j: int|
            0 <= j < ss.len() && dfa_run(table, Some(Node(i as usize)), text) == Some(
                Node(j as usize),
            ) && node_set(#[trigger] ss[j]) == nfa_reach(nv.trans, node_set(ss[i]), text),
    decreases text.len(),
{
    if text.len() == 0 {
        assert(0 <= i < ss.len() && dfa_run(table, Some(Node(i as usize)), text) == Some(
            Node(i as usize),
        ) && node_set(ss[i]) == nfa_reach(nv.trans, node_set(ss[i]), text));
    } else {
        let prefix = text.drop_last();
        let c = text.last();
        assert(chars_in(prefix, nv.alphabet)) by {
            assert forall|q: int| 0 <= q < prefix.len() implies nv.alphabet.contains(
                #[trigger] prefix[q],
            ) by {
                assert(prefix[q] == text[q]);
            }
        }
        lemma_simulation(nv, ss, table, i, prefix);
        let j1 = choose|j: int|
            0 <= j < ss.len() && dfa_run(table, Some(Node(i as usize)), prefix) == Some(
                Node(j as usize),
            ) && node_set(#[trigger] ss[j]) == nfa_reach(nv.trans, node_set(ss[i]), prefix);
        assert(nv.alphabet.contains(text[text.len() - 1]));
        let kc = choose|kc: int| 0 <= kc < nv.alphabet.len() && nv.alphabet[kc] == c;
        assert(dfa_lookup(table, Node(j1 as usize), nv.alphabet[kc]) is Some);
        lemma_lookup_some(table, Node(j1 as usize), c);
        let ke = choose|ke: int|
            0 <= ke < table.len() && (#[trigger] table[ke]).0 == Node(j1 as usize) && table[ke].1
                == c && dfa_lookup(table, Node(j1 as usize), c) == Some(table[ke].2);
        assert(table_entry_sound(nv, ss, table[ke]));
        let j2 = table[ke].2.0 as int;
        assert(table[ke].0.0 as int == j1);
        assert(table[ke].2 == Node(table[ke].2.0));
        assert(dfa_run(table, Some(Node(i as usize)), text) == Some(Node(j2 as usize)));
        assert(node_set(ss[j2]) == nfa_step(nv.trans, node_set(ss[j1]), c));
        assert(0 <= j2 < ss.len() && dfa_run(table, Some(Node(i as usize)), text) == Some(
            Node(j2 as usize),
        ) && node_set(ss[j2]) == nfa_reach(nv.trans, node_set(ss[i]), text));
    }
}

impl NFA {
    /// Builds, by subset construction, a deterministic automaton that
    /// recognizes the language of this one; the conversion reads the
    /// automaton and always succeeds.
    ///
    /// Starting from the singleton subset holding the start state, every
    /// subset of states reachable on some symbol of the declared alphabet is
    /// explored once, through an explicit work list.  Each reachable subset
    /// is put in canonical form — sorted and deduplicated, so a subset's
    /// identity does not depend on the order or multiplicity in which its
    /// members were collected — and interned; the index in the interning
    /// table is the identity of the corresponding state of the result.  The
    /// empty subset falls out of the general rule as an explicit absorbing
    /// state.  States never reached from the start are never created, and a
    /// state is recorded as accepting when its subset holds an accepting
    /// state; this is checked for the start state's own subset and for the
    /// target of every recorded transition, so the empty string is accepted
    /// exactly when the source accepts it.
    ///
    /// The work is exponential in the number of states in the worst case;
    /// that is inherent in subset construction, not a defect.
    #[verifier::loop_isolation(false)]
    #[verifier::rlimit(60)]
    pub fn to_dfa(&self) -> (d: DFA)
        ensures
            converts(self@, d@),
            deterministic(d@.table),
            dfa_state_reachable(self@.alphabet, d@, d@.start),
            forall|k: int|
                0 <= k < d@.table.len() ==> dfa_state_reachable(
                    self@.alphabet,
                    d@,
                    (#[trigger] d@.table[k]).0,
                ) && dfa_state_reachable(self@.alphabet, d@, d@.table[k].2),
            forall|k: int|
                0 <= k < d@.finals.len() ==> dfa_state_reachable(
                    self@.alphabet,
                    d@,
                    #[trigger] d@.finals[k],
                ),
            forall|k: int|
                0 <= k < d@.table.len() ==> self@.alphabet.contains((#[trigger] d@.table[k]).1),
            forall|k: int, k2: int|
                0 <= k < d@.table.len() && 0 <= k2 < self@.alphabet.len() ==> dfa_lookup(
                    d@.table,
                    (#[trigger] d@.table[k]).0,
                    #[trigger] self@.alphabet[k2],
                ) is Some && dfa_lookup(d@.table, d@.table[k].2, self@.alphabet[k2]) is Some,
            forall|k2: int|
                0 <= k2 < self@.alphabet.len() ==> dfa_lookup(
                    d@.table,
                    d@.start,
                    #[trigger] self@.alphabet[k2],
                ) is Some,
    {
        let ghost nv = self@;
        proof {
            lemma_nfa_view(self);
        }
        let mut start_subset: Vec<Node> = Vec::new();
        start_subset.push(self.starting_node);
        let mut subsets: Vec<Vec<Node>> = Vec::new();
        subsets.push(start_subset);
        let mut worklist: Vec<usize> = Vec::new();
        worklist.push(0);
        let mut table: Vec<(Node, char, Node)> = Vec::new();
        let mut finals: Vec<Node> = Vec::new();
        if subset_has_final(&self.final_nodes, &subsets[0]) {
            finals.push(Node(0));
        }
        let ghost mut wit: Seq<Seq<char>> = seq![Seq::<char>::empty()];
        proof {
            assert(views_of(subsets@)[0] =~= seq![nv.start]);
            lemma_distinct_canonical_bound(views_of(subsets@));
            assert(worklist@[0] == 0usize);
            if finals@.len() > 0 {
                assert(finals@[0] == Node(0usize));
            }
        }
        while worklist.len() > 0
            invariant
                1 <= subsets@.len(),
                views_of(subsets@)[0] == seq![nv.start],
                forall|i: int|
                    0 <= i < subsets@.len() ==> canonical(#[trigger] views_of(subsets@)[i]),
                forall|i: int, j: int|
                    0 <= i < j < subsets@.len() ==> views_of(subsets@)[i] != views_of(subsets@)[j],
                forall|k: int| 0 <= k < worklist@.len() ==> (#[trigger] worklist@[k]) < subsets@.len(),
                table_sound(nv, views_of(subsets@), table@),
                forall|i2: int, k2: int|
                    0 <= i2 < subsets@.len() && 0 <= k2 < nv.alphabet.len() && !worklist@.contains(
                        i2 as usize,
                    ) ==> (#[trigger] dfa_lookup(table@, Node(i2 as usize), nv.alphabet[k2])) is Some,
                finals_sound(nv, views_of(subsets@), finals@),
                finals_complete(nv, views_of(subsets@), table@, finals@),
                (set_has_final(nv.finals, node_set(views_of(subsets@)[0])) ==> finals@.contains(
                    Node(0usize),
                )),
                deterministic(table@),
                wit.len() == subsets@.len(),
                forall|i: int|
                    0 <= i < subsets@.len() ==> chars_in(#[trigger] wit[i], nv.alphabet) && dfa_run(
                        table@,
                        Some(Node(0usize)),
                        wit[i],
                    ) == Some(Node(i as usize)),
                subsets@.len() <= pow2((usize::MAX as nat) + 1),
            decreases pow2((usize::MAX as nat) + 1) + worklist@.len() - subsets@.len(),
        {
            let ghost w_before = worklist@;
            let i: usize = worklist.pop().unwrap();
            let ghost gap: int = subsets@.len() - worklist@.len();
            let cur = copy_subset(&subsets, i);
            proof {
                axiom_spec_len(&subsets);
                assert forall|i2: int, k2: int|
                    0 <= i2 < subsets@.len() && 0 <= k2 < nv.alphabet.len() && !worklist@.contains(
                        i2 as usize,
                    ) && i2 != i as int implies (#[trigger] dfa_lookup(
                    table@,
                    Node(i2 as usize),
                    nv.alphabet[k2],
                )) is Some by {
                    if w_before.contains(i2 as usize) {
                        let idx = choose|idx: int|
                            0 <= idx < w_before.len() && w_before[idx] == i2 as usize;
                        if idx < w_before.len() - 1 {
                            assert(worklist@[idx] == i2 as usize);
                            assert(worklist@.contains(i2 as usize));
                        }
                    }
                }
            }
            let mut k: usize = 0;
            while k < self.inp_alph.len()
                invariant
                    k <= nv.alphabet.len(),
                    1 <= subsets@.len(),
                    i < subsets@.len(),
                    cur@ == views_of(subsets@)[i as int],
                    subsets@.len() - worklist@.len() == gap,
                    gap <= subsets@.len(),
                    views_of(subsets@)[0] == seq![nv.start],
                    forall|i2: int|
                        0 <= i2 < subsets@.len() ==> canonical(#[trigger] views_of(subsets@)[i2]),
                    forall|i2: int, j2: int|
                        0 <= i2 < j2 < subsets@.len() ==> views_of(subsets@)[i2] != views_of(
                            subsets@,
                        )[j2],
                    forall|k2: int|
                        0 <= k2 < worklist@.len() ==> (#[trigger] worklist@[k2]) < subsets@.len(),
                    table_sound(nv, views_of(subsets@), table@),
                    forall|i2: int, k2: int|
                        0 <= i2 < subsets@.len() && 0 <= k2 < nv.alphabet.len()
                            && !worklist@.contains(i2 as usize) && i2 != i as int ==> (
                        #[trigger] dfa_lookup(table@, Node(i2 as usize), nv.alphabet[k2])) is Some,
                    forall|k2: int|
                        0 <= k2 < k ==> (#[trigger] dfa_lookup(
                            table@,
                            Node(i),
                            nv.alphabet[k2],
                        )) is Some,
                    finals_sound(nv, views_of(subsets@), finals@),
                    finals_complete(nv, views_of(subsets@), table@, finals@),
                    (set_has_final(nv.finals, node_set(views_of(subsets@)[0]))
                        ==> finals@.contains(Node(0usize))),
                    deterministic(table@),
                    wit.len() == subsets@.len(),
                    forall|i2: int|
                        0 <= i2 < subsets@.len() ==> chars_in(#[trigger] wit[i2], nv.alphabet)
                            && dfa_run(table@, Some(Node(0usize)), wit[i2]) == Some(
                            Node(i2 as usize),
                        ),
                    subsets@.len() <= pow2((usize::MAX as nat) + 1),
                decreases nv.alphabet.len() - k,
            {
                let c = self.inp_alph[k];
                proof {
                    assert(nv.alphabet[k as int] == c);
                    assert(nv.alphabet.contains(c));
                }
                let look = table_lookup(&table, Node(i), c);
                if look.is_none() {
                    let r = move_set(&self.trans_table, &cur, c);
                    let ghost rv = r@;
                    let ghost ss0 = views_of(subsets@);
                    let ghost t0 = table@;
                    let ghost f0 = finals@;
                    let ghost wl0 = worklist@;
                    let ghost wit0 = wit;
                    let res = intern(&mut subsets, r);
                    let j: usize = res.0;
                    let fresh: bool = res.1;
                    let ghost t = (Node(i), c, Node(j));
                    table.push((Node(i), c, Node(j)));
                    let hf = subset_has_final(&self.final_nodes, &subsets[j]);
                    if hf {
                        finals.push(Node(j));
                    }
                    if fresh {
                        worklist.push(j);
                        proof {
                            wit = wit.push(wit0[i as int].push(c));
                        }
                    }
                    proof {
                        let ss1 = views_of(subsets@);
                        let n0 = ss0.len();
                        // The interning table grew by at most the fresh entry.
                        assert forall|idx: int| 0 <= idx < n0 implies ss1[idx] == ss0[idx] by {}
                        if fresh {
                            assert(ss1.len() == n0 + 1);
                            assert(ss1[n0 as int] == rv);
                            assert(j == n0);
                        } else {
                            assert(ss1 =~= ss0);
                        }
                        assert(ss1[j as int] == rv);
                        assert(table@ == t0.push(t));
                        assert(dfa_lookup(t0, t.0, t.1) is None);
                        lemma_lookup_none(t0, Node(i), c);
                        lemma_lookup_push(t0, t, Node(i), c);
                        // Canonical and pairwise distinct entries.
                        assert forall|i2: int|
                            0 <= i2 < ss1.len() implies canonical(#[trigger] ss1[i2]) by {
                            if i2 < n0 {
                                assert(canonical(ss0[i2]));
                            } else {
                                assert(ss1[i2] == rv);
                            }
                        }
                        assert forall|i2: int, j2: int|
                            0 <= i2 < j2 < ss1.len() implies ss1[i2] != ss1[j2] by {
                            if j2 < n0 {
                                assert(ss0[i2] != ss0[j2]);
                            } else {
                                assert(fresh);
                                assert(ss1[j2] == rv);
                                assert(subsets@[i2]@ == ss1[i2]);
                            }
                        }
                        lemma_distinct_canonical_bound(ss1);
                        // Soundness of every table entry.
                        assert forall|k2: int|
                            0 <= k2 < table@.len() implies table_entry_sound(
                            nv,
                            ss1,
                            #[trigger] table@[k2],
                        ) by {
                            if k2 < t0.len() {
                                assert(table@[k2] == t0[k2]);
                                assert(table_entry_sound(nv, ss0, t0[k2]));
                            } else {
                                assert(table@[k2] == t);
                                assert(node_set(rv) == nfa_step(nv.trans, node_set(cur@), c));
                                assert(ss1[t.0.0 as int] == cur@);
                            }
                        }
                        // Determinism is kept: the appended pair had no entry.
                        assert forall|p: int, q: int|
                            0 <= p < table@.len() && 0 <= q < table@.len() && (
                            #[trigger] table@[p]).0 == (#[trigger] table@[q]).0 && table@[p].1
                                == table@[q].1 implies table@[p].2 == table@[q].2 by {
                            if p < t0.len() && q < t0.len() {
                                assert(t0[p] == table@[p] && t0[q] == table@[q]);
                            } else if p < t0.len() {
                                assert(table@[q] == t);
                                assert(!(t0[p].0 == t.0 && t0[p].1 == t.1));
                            } else if q < t0.len() {
                                assert(table@[p] == t);
                                assert(!(t0[q].0 == t.0 && t0[q].1 == t.1));
                            }
                        }
                        // Recorded accepting states, both ways.
                        assert forall|k2: int|
                            0 <= k2 < finals@.len() implies (#[trigger] finals@[k2]).0 < ss1.len()
                                && set_has_final(
                                nv.finals,
                                node_set(ss1[finals@[k2].0 as int]),
                            ) by {
                            if k2 < f0.len() {
                                assert(finals@[k2] == f0[k2]);
                                assert(f0[k2].0 < ss0.len());
                            } else {
                                assert(finals@[k2] == Node(j));
                            }
                        }
                        assert forall|k2: int|
                            0 <= k2 < table@.len() && (#[trigger] table@[k2]).2.0 < ss1.len()
                                && set_has_final(
                                nv.finals,
                                node_set(ss1[table@[k2].2.0 as int]),
                            ) implies finals@.contains(table@[k2].2) by {
                            if k2 < t0.len() {
                                assert(table@[k2] == t0[k2]);
                                assert(table_entry_sound(nv, ss0, t0[k2]));
                                assert(f0.contains(t0[k2].2));
                                if hf {
                                    lemma_push_contains(f0, Node(j), t0[k2].2);
                                }
                            } else {
                                assert(table@[k2] == t);
                                assert(hf);
                                assert(finals@.last() == Node(j));
                            }
                        }
                        assert(set_has_final(nv.finals, node_set(ss1[0])) ==> finals@.contains(
                            Node(0usize),
                        )) by {
                            if set_has_final(nv.finals, node_set(ss1[0])) {
                                assert(ss1[0] == ss0[0]);
                                assert(f0.contains(Node(0usize)));
                                if hf {
                                    lemma_push_contains(f0, Node(j), Node(0usize));
                                }
                            }
                        }
                        // Witness strings still reach every interned state.
                        assert forall|i2: int|
                            0 <= i2 < ss1.len() implies chars_in(#[trigger] wit[i2], nv.alphabet)
                                && dfa_run(table@, Some(Node(0usize)), wit[i2]) == Some(
                                Node(i2 as usize),
                            ) by {
                            if i2 < n0 {
                                assert(wit[i2] == wit0[i2]);
                                lemma_run_push(t0, t, Some(Node(0usize)), wit0[i2]);
                            } else {
                                assert(fresh);
                                let wnew = wit0[i as int].push(c);
                                assert(wit[i2] == wnew);
                                assert(wnew.drop_last() =~= wit0[i as int]);
                                assert(wnew.last() == c);
                                lemma_run_push(t0, t, Some(Node(0usize)), wit0[i as int]);
                                assert(dfa_run(table@, Some(Node(0usize)), wit0[i as int]) == Some(
                                    Node(i),
                                ));
                                assert(dfa_lookup(table@, Node(i), c) == Some(Node(j)));
                                assert(dfa_run(table@, Some(Node(0usize)), wnew) == Some(Node(j)));
                                assert forall|q: int|
                                    0 <= q < wnew.len() implies nv.alphabet.contains(
                                    #[trigger] wnew[q],
                                ) by {
                                    if q < wnew.len() - 1 {
                                        assert(wnew[q] == wit0[i as int][q]);
                                    }
                                }
                            }
                        }
                        // Completeness for the other settled states.
                        assert forall|i2: int, k2: int|
                            0 <= i2 < subsets@.len() && 0 <= k2 < nv.alphabet.len()
                                && !worklist@.contains(i2 as usize) && i2 != i as int implies (
                        #[trigger] dfa_lookup(table@, Node(i2 as usize), nv.alphabet[k2])) is Some by {
                            if i2 < n0 {
                                if fresh {
                                    lemma_push_contains(wl0, j, i2 as usize);
                                }
                                assert(!wl0.contains(i2 as usize));
                                assert(dfa_lookup(t0, Node(i2 as usize), nv.alphabet[k2]) is Some);
                                lemma_lookup_push(t0, t, Node(i2 as usize), nv.alphabet[k2]);
                            } else {
                                assert(fresh && i2 == n0 && j == n0);
                                assert(worklist@.last() == j);
                                assert(worklist@.contains(i2 as usize));
                            }
                        }
                        // Symbols settled so far for the state in hand.
                        assert forall|k2: int|
                            0 <= k2 < k + 1 implies (#[trigger] dfa_lookup(
                            table@,
                            Node(i),
                            nv.alphabet[k2],
                        )) is Some by {
                            if k2 < k {
                                assert(dfa_lookup(t0, Node(i), nv.alphabet[k2]) is Some);
                                lemma_lookup_push(t0, t, Node(i), nv.alphabet[k2]);
                            } else {
                                assert(dfa_lookup(table@, t.0, t.1) == Some(t.2));
                            }
                        }
                    }
                } else {
                    proof {
                        assert forall|k2: int|
                            0 <= k2 < k + 1 implies (#[trigger] dfa_lookup(
                            table@,
                            Node(i),
                            nv.alphabet[k2],
                        )) is Some by {}
                    }
                }
                k += 1;
            }
            proof {
                assert forall|i2: int, k2: int|
                    0 <= i2 < subsets@.len() && 0 <= k2 < nv.alphabet.len() && !worklist@.contains(
                        i2 as usize,
                    ) implies (#[trigger] dfa_lookup(
                    table@,
                    Node(i2 as usize),
                    nv.alphabet[k2],
                )) is Some by {}
            }
        }
        let ghost ssf = views_of(subsets@);
        let ghost tf = table@;
        let ghost ff = finals@;
        let d = DFA { starting_node: Node(0), trans_table: table, final_nodes: finals };
        proof {
            lemma_dfa_view(&d);
            axiom_spec_len(&subsets);
            assert(ssf.len() <= usize::MAX);
            assert(d@.table == tf && d@.finals == ff && d@.start == Node(0usize));
            assert forall|i2: int, k2: int|
                0 <= i2 < ssf.len() && 0 <= k2 < nv.alphabet.len() implies (#[trigger] dfa_lookup(
                tf,
                Node(i2 as usize),
                nv.alphabet[k2],
            )) is Some by {
                if worklist@.contains(i2 as usize) {
                    let idx = choose|idx: int|
                        0 <= idx < worklist@.len() && worklist@[idx] == i2 as usize;
                    assert(false);
                }
            }
            assert(table_complete(nv, ssf, tf));
            assert(node_set(ssf[0]) =~= set![nv.start]) by {
                assert(ssf[0] == seq![nv.start]);
                assert(seq![nv.start].len() == 1 && seq![nv.start][0] == nv.start);
                assert forall|n: Node| node_set(ssf[0]).contains(n) implies n == nv.start by {
                    let q = choose|q: int| 0 <= q < ssf[0].len() && ssf[0][q] == n;
                }
                assert(seq![nv.start].contains(nv.start));
            }
            // Language agreement on nonempty strings over the alphabet.
            assert forall|text: Seq<char>|
                #[trigger] chars_in(text, nv.alphabet) && text.len() > 0 implies dfa_accepts(
                d@,
                text,
            ) == nfa_accepts(nv, text) by {
                lemma_simulation(nv, ssf, tf, 0, text);
                let jj = choose|j: int|
                    0 <= j < ssf.len() && dfa_run(tf, Some(Node(0usize)), text) == Some(
                        Node(j as usize),
                    ) && node_set(#[trigger] ssf[j]) == nfa_reach(nv.trans, node_set(ssf[0]), text);
                lemma_run_target(tf, Some(Node(0usize)), text);
                let ke = choose|ke: int|
                    0 <= ke < tf.len() && (#[trigger] tf[ke]).2 == dfa_run(
                        tf,
                        Some(Node(0usize)),
                        text,
                    )->Some_0;
                assert(tf[ke].2 == Node(jj as usize));
                assert(tf[ke].2.0 as int == jj);
                if set_has_final(nv.finals, node_set(ssf[jj])) {
                    assert(ff.contains(Node(jj as usize)));
                    assert(dfa_accepts(d@, text));
                } else {
                    if ff.contains(Node(jj as usize)) {
                        let kf = choose|kf: int| 0 <= kf < ff.len() && ff[kf] == Node(jj as usize);
                        assert(ff[kf].0 as int == jj);
                        assert(false);
                    }
                    assert(!dfa_accepts(d@, text));
                }
            }
            // The result accepts exactly the strings over the alphabet that
            // the source accepts: the empty string goes by the start state's
            // recorded finality, a string with a foreign symbol dies at that
            // symbol, and the rest is the agreement above.
            assert forall|text: Seq<char>|
                #[trigger] dfa_accepts(d@, text) == (chars_in(text, nv.alphabet) && nfa_accepts(
                nv,
                text,
            )) by {
                if !chars_in(text, nv.alphabet) {
                    if dfa_accepts(d@, text) {
                        assert forall|kk: int|
                            0 <= kk < tf.len() implies nv.alphabet.contains(
                            (#[trigger] tf[kk]).1,
                        ) by {
                            assert(table_entry_sound(nv, ssf, tf[kk]));
                        }
                        lemma_run_symbols_in(tf, Some(Node(0usize)), text, nv.alphabet);
                        assert(false);
                    }
                } else if text.len() == 0 {
                    assert(text =~= Seq::<char>::empty());
                    assert(dfa_run(tf, Some(Node(0usize)), text) == Some(Node(0usize)));
                    assert(nfa_reach(nv.trans, set![nv.start], text) == set![nv.start]);
                    if ff.contains(Node(0usize)) {
                        let kf = choose|kf: int| 0 <= kf < ff.len() && ff[kf] == Node(0usize);
                        assert(ff[kf].0 as int == 0);
                        assert(set_has_final(nv.finals, node_set(ssf[0])));
                        assert(nfa_accepts(nv, text));
                    }
                    if set_has_final(nv.finals, set![nv.start]) {
                        assert(set_has_final(nv.finals, node_set(ssf[0])));
                        assert(ff.contains(Node(0usize)));
                        assert(dfa_accepts(d@, text));
                    }
                } else {
                    assert(dfa_accepts(d@, text) == nfa_accepts(nv, text));
                }
            }
            // Every state occurring in the table is reachable from the start.
            assert(chars_in(wit[0], nv.alphabet) && dfa_run(tf, Some(Node(0usize)), wit[0]) == Some(
                Node(0usize),
            ));
            assert(dfa_state_reachable(nv.alphabet, d@, d@.start));
            assert forall|kk: int|
                0 <= kk < d@.table.len() implies dfa_state_reachable(
                nv.alphabet,
                d@,
                (#[trigger] d@.table[kk]).0,
            ) && dfa_state_reachable(nv.alphabet, d@, d@.table[kk].2) by {
                assert(table_entry_sound(nv, ssf, tf[kk]));
                let i0 = tf[kk].0.0 as int;
                let i1 = tf[kk].2.0 as int;
                assert(chars_in(wit[i0], nv.alphabet) && dfa_run(tf, Some(Node(0usize)), wit[i0])
                    == Some(Node(tf[kk].0.0)));
                assert(tf[kk].0 == Node(tf[kk].0.0));
                assert(chars_in(wit[i1], nv.alphabet) && dfa_run(tf, Some(Node(0usize)), wit[i1])
                    == Some(Node(tf[kk].2.0)));
                assert(tf[kk].2 == Node(tf[kk].2.0));
            }
            assert forall|kf: int|
                0 <= kf < d@.finals.len() implies dfa_state_reachable(
                nv.alphabet,
                d@,
                #[trigger] d@.finals[kf],
            ) by {
                let i0 = ff[kf].0 as int;
                assert(chars_in(wit[i0], nv.alphabet) && dfa_run(tf, Some(Node(0usize)), wit[i0])
                    == Some(Node(ff[kf].0)));
                assert(ff[kf] == Node(ff[kf].0));
            }
            // Every recorded symbol lies in the declared alphabet.
            assert forall|kk: int|
                0 <= kk < d@.table.len() implies nv.alphabet.contains(
                (#[trigger] d@.table[kk]).1,
            ) by {
                assert(table_entry_sound(nv, ssf, tf[kk]));
            }
            // Totality over the alphabet, for both ends of every recorded
            // transition and for the start.
            assert forall|kk: int, k2: int|
                0 <= kk < d@.table.len() && 0 <= k2 < nv.alphabet.len() implies dfa_lookup(
                d@.table,
                (#[trigger] d@.table[kk]).0,
                #[trigger] nv.alphabet[k2],
            ) is Some && dfa_lookup(d@.table, d@.table[kk].2, nv.alphabet[k2]) is Some by {
                assert(table_entry_sound(nv, ssf, tf[kk]));
                let i0 = tf[kk].0.0 as int;
                let i1 = tf[kk].2.0 as int;
                assert(Node(i0 as usize) == tf[kk].0);
                assert(Node(i1 as usize) == tf[kk].2);
                assert(dfa_lookup(tf, Node(i0 as usize), nv.alphabet[k2]) is Some);
                assert(dfa_lookup(tf, Node(i1 as usize), nv.alphabet[k2]) is Some);
            }
            assert forall|k2: int|
                0 <= k2 < nv.alphabet.len() implies dfa_lookup(
                d@.table,
                d@.start,
                #[trigger] nv.alphabet[k2],
            ) is Some by {
                let zero: int = 0;
                assert(dfa_lookup(tf, Node(zero as usize), nv.alphabet[k2]) is Some);
                assert(Node(zero as usize) == d@.start);
            }
        }
        d
    }
}

/// Converting the same automaton twice yields automata with the same
/// accept/reject behaviour on every string.  The identities of the states
/// may differ; the recognized language may not.
pub proof fn lemma_conversion_agreement(nv: NfaV, d1: DfaV, d2: DfaV, text: Seq<char>)
    requires
        converts(nv, d1),
        converts(nv, d2),
    ensures
        dfa_accepts(d1, text) == dfa_accepts(d2, text),
{
    assert(dfa_accepts(d1, text) == (chars_in(text, nv.alphabet) && nfa_accepts(nv, text)));
    assert(dfa_accepts(d2, text) == (chars_in(text, nv.alphabet) && nfa_accepts(nv, text)));
}

} // verus!
