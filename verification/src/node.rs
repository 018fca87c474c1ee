//! State identifiers and canonical sequences of them.

use vstd::prelude::*;

verus! {

/// An opaque identifier distinguishing automaton states.
///
/// For an [`crate::nfa::NFA`] the identifiers are caller-supplied and carry no
/// required structure.  For a [`crate::dfa::DFA`] the identifiers are derived:
/// each one is the index, in the converter's interning table, of the canonical
/// subset of NFA states that the DFA state represents.
#[derive(Clone, Copy, Debug, Hash, PartialEq, Eq, Structural)]
pub struct Node(pub usize);

/// The set of identifiers occurring in a sequence.
pub open spec fn node_set(s: Seq<Node>) -> Set<Node> {
    Set::new(|n: Node| s.contains(n))
}

/// A canonical subset representation: identifiers in strictly increasing
/// order, hence sorted and free of duplicates.  Two canonical sequences over
/// the same set of identifiers are equal, so a subset's canonical form does
/// not depend on the order in which its members were discovered.
pub open spec fn canonical(s: Seq<Node>) -> bool {
    forall|i: int, j: int| 0 <= i < j < s.len() ==> s[i].0 < s[j].0
}

/// Whether `x` occurs in `v`.
pub(crate) fn vec_contains_node(v: &Vec<Node>, x: Node) -> (r: bool)
    ensures
        r == v@.contains(x),
{
    let mut k: usize = 0;
    while k < v.len()
        invariant
            k <= v@.len(),
            forall|i: int| 0 <= i < k ==> v@[i] != x,
        decreases v@.len() - k,
    {
        if v[k] == x {
            return true;
        }
        k += 1;
    }
    false
}

/// Whether two identifier sequences are equal element for element.
pub(crate) fn node_seq_eq(a: &Vec<Node>, b: &Vec<Node>) -> (r: bool)
    ensures
        r == (a@ == b@),
{
    if a.len() != b.len() {
        return false;
    }
    let mut k: usize = 0;
    while k < a.len()
        invariant
            k <= a@.len(),
            a@.len() == b@.len(),
            forall|i: int| 0 <= i < k ==> a@[i] == b@[i],
        decreases a@.len() - k,
    {
        if a[k] != b[k] {
            return false;
        }
        k += 1;
    }
    proof {
        assert(a@ =~= b@);
    }
    true
}

/// Inserts `x` into a canonical sequence, keeping it canonical.  The set of
/// identifiers held grows by exactly `x`; inserting a present identifier
/// changes nothing.
pub(crate) fn insert_canonical(v: &mut Vec<Node>, x: Node)
    requires
        canonical(old(v)@),
    ensures
        canonical(final(v)@),
        node_set(final(v)@) == node_set(old(v)@).insert(x),
{
    let mut k: usize = 0;
    while k < v.len() && v[k].0 < x.0
        invariant
            k <= v@.len(),
            v@ == old(v)@,
            forall|i: int| 0 <= i < k ==> v@[i].0 < x.0,
        decreases v@.len() - k,
    {
        k += 1;
    }
    if k < v.len() && v[k].0 == x.0 {
        proof {
            assert(v@[k as int] == x);
            assert(v@.contains(x));
            assert(node_set(v@) =~= node_set(old(v)@).insert(x));
        }
    } else {
        let ghost pre = v@;
        v.insert(k, x);
        proof {
            assert(v@ == pre.insert(k as int, x));
            assert forall|i: int, j: int| 0 <= i < j < v@.len() implies v@[i].0 < v@[j].0 by {
                if j < k {
                    assert(v@[i] == pre[i] && v@[j] == pre[j]);
                } else if i > k {
                    assert(v@[i] == pre[i - 1] && v@[j] == pre[j - 1]);
                } else if i < k && j == k {
                    assert(v@[i] == pre[i] && v@[j] == x);
                } else if i == k {
                    assert(v@[i] == x && v@[j] == pre[j - 1]);
                    assert(pre[k as int].0 > x.0);
                } else {
                    assert(i < k && j > k);
                    assert(v@[i] == pre[i] && v@[j] == pre[j - 1]);
                    assert(pre[k as int].0 > x.0);
                }
            }
            assert forall|n: Node| node_set(v@).contains(n) implies node_set(pre).insert(x).contains(n) by {
                let i = choose|i: int| 0 <= i < v@.len() && v@[i] == n;
                if i < k {
                    assert(pre[i] == n);
                    assert(pre.contains(n));
                } else if i == k {
                    assert(n == x);
                } else {
                    assert(pre[i - 1] == n);
                    assert(pre.contains(n));
                }
            }
            assert forall|n: Node| node_set(pre).insert(x).contains(n) implies node_set(v@).contains(n) by {
                if n == x {
                    assert(v@[k as int] == n);
                } else {
                    let i = choose|i: int| 0 <= i < pre.len() && pre[i] == n;
                    if i < k {
                        assert(v@[i] == n);
                    } else {
                        assert(v@[i + 1] == n);
                    }
                }
            }
            assert(node_set(v@) =~= node_set(pre).insert(x));
        }
    }
}

} // verus!
