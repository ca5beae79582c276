//! A node of the lexer graph.
use vstd::prelude::*;

use crate::graph::arena::NodeId;
use crate::graph::byte_set::ByteSet;
use crate::graph::fork::Fork;
use crate::graph::opt_below;
use crate::graph::rope::{same_pattern, Rope};
use crate::trusted::{first_occurrences, lemma_first_occurrences, unique_values};
use crate::variant_match::VariantMatch;

verus! {

/// A state of the lexer graph: a branch on one byte, a fixed run of bytes,
/// or a finished match.
#[derive(Debug)]
pub enum Node<'a, T: VariantMatch> {
    Fork(Fork),
    VariantMatch(&'a T),
    Rope(Rope),
}

impl<'a, T: VariantMatch> Node<'a, T> {
    /// Every node id that the node holds is below `n`.
    pub open spec fn ids_below(&self, n: nat) -> bool {
        match self {
            Node::Fork(f) => f.ids_below(n),
            Node::Rope(r) => r.ids_below(n),
            Node::VariantMatch(_) => true,
        }
    }

    /// Equality of nodes: forks and ropes compare by content; a variant
    /// match is put in a graph once, so it equals no other node.
    pub open spec fn same(&self, other: &Self) -> bool {
        match (self, other) {
            (Node::Fork(a), Node::Fork(b)) => a.same(b),
            (Node::Rope(a), Node::Rope(b)) => a.same(b),
            _ => false,
        }
    }

    pub open spec fn spec_miss(&self) -> Option<NodeId> {
        match self {
            Node::Fork(f) => f.miss,
            Node::Rope(r) => r.miss,
            Node::VariantMatch(_) => None,
        }
    }

    pub open spec fn spec_record_miss_backtrack_idx(&self) -> Option<NodeId> {
        match self {
            Node::Fork(f) => f.record_miss_backtrack_idx,
            Node::Rope(r) => r.record_miss_backtrack_idx,
            Node::VariantMatch(_) => None,
        }
    }

    pub fn miss(&self) -> (r: Option<NodeId>)
        ensures
            r == self.spec_miss(),
    {
        match self {
            Node::Fork(fork) => fork.miss(),
            Node::VariantMatch(_) => None,
            Node::Rope(rope) => rope.miss(),
        }
    }

    pub fn record_miss_backtrack_idx(&self) -> (r: Option<NodeId>)
        ensures
            r == self.spec_record_miss_backtrack_idx(),
    {
        match self {
            Node::Fork(fork) => fork.record_miss_backtrack_idx(),
            Node::VariantMatch(_) => None,
            Node::Rope(rope) => rope.record_miss_backtrack_idx(),
        }
    }
}

/// `a` and `b` are equal.
pub fn same_opt_id(a: Option<NodeId>, b: Option<NodeId>) -> (r: bool)
    ensures
        r == (a == b),
{
    match (a, b) {
        (Some(x), Some(y)) => x.0 == y.0,
        (None, None) => true,
        _ => false,
    }
}

/// Every branch of `fork` that is taken goes to `target`, and some branch is.
pub open spec fn single_target(fork: &Fork, target: NodeId) -> bool {
    &&& exists|b: int| 0 <= b < 256 && #[trigger] fork.lookup_table@[b] == Some(target)
    &&& forall|b: int|
        0 <= b < 256 && (#[trigger] fork.lookup_table@[b]) is Some ==> fork.lookup_table@[b]
            == Some(target)
}

impl Fork {
    /// Whether the two forks have the same table, miss and backtrack record.
    pub fn same_as(&self, other: &Fork) -> (r: bool)
        requires
            self.wf(),
            other.wf(),
        ensures
            r == self.same(other),
    {
        if !same_opt_id(self.miss, other.miss) || !same_opt_id(
            self.record_miss_backtrack_idx,
            other.record_miss_backtrack_idx,
        ) {
            return false;
        }
        let mut i: usize = 0;
        while i < 256
            invariant
                i <= 256,
                self.wf(),
                other.wf(),
                forall|j: int| 0 <= j < i ==> self.lookup_table@[j] == other.lookup_table@[j],
            decreases 256 - i,
        {
            if !same_opt_id(self.lookup_table[i], other.lookup_table[i]) {
                return false;
            }
            i = i + 1;
        }
        assert(self.lookup_table@ =~= other.lookup_table@);
        true
    }
}

impl Rope {
    /// Whether the two ropes have the same pattern, target, miss and
    /// backtrack record.
    pub fn same_as(&self, other: &Rope) -> (r: bool)
        requires
            self.wf(),
            other.wf(),
        ensures
            r == self.same(other),
    {
        if self.target.0 != other.target.0 || !same_opt_id(self.miss, other.miss)
            || !same_opt_id(self.record_miss_backtrack_idx, other.record_miss_backtrack_idx)
            || self.pattern.len() != other.pattern.len() {
            return false;
        }
        let mut i: usize = 0;
        while i < self.pattern.len()
            invariant
                i <= self.pattern@.len(),
                self.wf(),
                other.wf(),
                self.pattern@.len() == other.pattern@.len(),
                forall|j: int| 0 <= j < i ==> (#[trigger] self.pattern@[j]).same(&other.pattern@[j]),
            decreases self.pattern@.len() - i,
        {
            if !self.pattern[i].same_as(&other.pattern[i]) {
                return false;
            }
            i = i + 1;
        }
        true
    }
}

impl<'a, T: VariantMatch> Node<'a, T> {
    /// Forks and ropes are well formed.
    pub open spec fn wf(&self) -> bool {
        match self {
            Node::Fork(f) => f.wf(),
            Node::Rope(r) => r.wf(),
            Node::VariantMatch(_) => true,
        }
    }

    /// Whether the two nodes are equal in the sense of [`Node::same`].
    pub fn same_as(&self, other: &Self) -> (r: bool)
        requires
            self.wf(),
            other.wf(),
        ensures
            r == self.same(other),
    {
        match (self, other) {
            (Node::Fork(a), Node::Fork(b)) => a.same_as(b),
            (Node::Rope(a), Node::Rope(b)) => a.same_as(b),
            _ => false,
        }
    }

    /// The node for a fork: a fork whose taken branches all go to one node
    /// becomes a one-byte rope to that node, with the fork's miss and
    /// backtrack record; any other fork stays a fork.
    pub fn from_fork(fork: Fork) -> (node: Self)
        requires
            fork.wf(),
        ensures
            (exists|t: NodeId| single_target(&fork, t)) ==> (node matches Node::Rope(r) && {
                &&& r.wf()
                &&& r.pattern@.len() == 1
                &&& single_target(&fork, r.target)
                &&& forall|b: u8|
                    #[trigger] r.pattern@[0].has(b) <==> fork.lookup_table@[b as int] is Some
                &&& r.miss == fork.miss
                &&& r.record_miss_backtrack_idx == fork.record_miss_backtrack_idx
            }),
            !(exists|t: NodeId| single_target(&fork, t)) ==> node == Node::<'a, T>::Fork(fork),
    {
        let mut ids: Vec<usize> = Vec::new();
        let mut i: usize = 0;
        while i < 256
            invariant
                i <= 256,
                fork.wf(),
                forall|k: int|
                    #![trigger ids@[k]]
                    0 <= k < ids@.len() ==> exists|b: int|
                        0 <= b < i && #[trigger] fork.lookup_table@[b] == Some(NodeId(ids@[k])),
                forall|b: int|
                    0 <= b < i && (#[trigger] fork.lookup_table@[b]) is Some ==> ids@.contains(
                        (fork.lookup_table@[b]->0).0,
                    ),
            decreases 256 - i,
        {
            match fork.lookup_table[i] {
                Some(id) => {
                    let ghost prev = ids@;
                    ids.push(id.0);
                    proof {
                        assert(ids@[ids@.len() - 1] == id.0);
                        assert forall|b: int|
                            0 <= b < i + 1 && (#[trigger] fork.lookup_table@[b]) is Some implies ids@.contains(
                            (fork.lookup_table@[b]->0).0,
                        ) by {
                            if b < i {
                                let w = choose|w: int|
                                    0 <= w < prev.len() && prev[w] == (fork.lookup_table@[b]->0).0;
                                assert(ids@[w] == prev[w]);
                            } else {
                                assert(ids@[ids@.len() - 1] == (fork.lookup_table@[b]->0).0);
                            }
                        }
                        assert forall|k: int|
                            #![trigger ids@[k]]
                            0 <= k < ids@.len() implies exists|b: int|
                                0 <= b < i + 1 && #[trigger] fork.lookup_table@[b] == Some(NodeId(ids@[k])) by {
                            if k < prev.len() {
                                assert(ids@[k] == prev[k]);
                            } else {
                                assert(fork.lookup_table@[i as int] == Some(NodeId(ids@[k])));
                            }
                        }
                    }
                },
                None => {},
            }
            i = i + 1;
        }
        let unique = unique_values(&ids);
        proof {
            lemma_first_occurrences(ids@);
            first_occurrences(ids@).unique_seq_to_set();
        }
        if unique.len() == 1 {
            let target = NodeId(unique[0]);
            proof {
                assert(unique@.to_set().contains(target.0));
                assert(ids@.contains(target.0));
                let k = choose|k: int| 0 <= k < ids@.len() && ids@[k] == target.0;
                assert forall|b: int|
                    0 <= b < 256 && (#[trigger] fork.lookup_table@[b]) is Some implies fork.lookup_table@[b]
                        == Some(target) by {
                    let x = (fork.lookup_table@[b]->0).0;
                    assert(ids@.to_set().contains(x));
                    assert(unique@.to_set().contains(x));
                    let w = choose|w: int| 0 <= w < unique@.len() && unique@[w] == x;
                }
                assert(single_target(&fork, target));
            }
            let mut set = ByteSet::empty();
            let mut b: usize = 0;
            while b < 256
                invariant
                    b <= 256,
                    set.wf(),
                    fork.wf(),
                    forall|x: u8|
                        #[trigger] set.has(x) <==> (x < b && fork.lookup_table@[x as int] is Some),
                decreases 256 - b,
            {
                if fork.lookup_table[b].is_some() {
                    set.insert(b as u8);
                }
                b = b + 1;
            }
            let mut pattern: Vec<ByteSet> = Vec::new();
            pattern.push(set);
            Node::Rope(Rope::new(pattern, target).with_fork_miss(&fork))
        } else {
            proof {
                if exists|t: NodeId| single_target(&fork, t) {
                    let t = choose|t: NodeId| single_target(&fork, t);
                    let b0 = choose|b: int| 0 <= b < 256 && #[trigger] fork.lookup_table@[b] == Some(t);
                    assert(ids@.contains(t.0));
                    assert(ids@.to_set() =~= set![t.0]) by {
                        assert forall|x: usize| ids@.to_set().contains(x) <==> x == t.0 by {
                            if ids@.contains(x) {
                                let k = choose|k: int| 0 <= k < ids@.len() && ids@[k] == x;
                                let b = choose|b: int|
                                    0 <= b < 256 && #[trigger] fork.lookup_table@[b] == Some(NodeId(ids@[k]));
                            }
                        }
                    }
                    assert(set![t.0].len() == 1);
                }
            }
            Node::Fork(fork)
        }
    }
}

/// A fork whose ids are below `n` has them below any larger bound.
pub proof fn lemma_fork_below_mono(f: &Fork, n: nat, m: nat)
    requires
        f.ids_below(n),
        n <= m,
    ensures
        f.ids_below(m),
{
    assert forall|b: int| 0 <= b < 256 implies opt_below(#[trigger] f.lookup_table@[b], m) by {
        assert(opt_below(f.lookup_table@[b], n));
    }
}

/// A node whose ids are below `n` has them below any larger bound.
pub proof fn lemma_node_below_mono<'a, T: VariantMatch>(node: &Node<'a, T>, n: nat, m: nat)
    requires
        node.ids_below(n),
        n <= m,
    ensures
        node.ids_below(m),
{
    if let Node::Fork(f) = node {
        lemma_fork_below_mono(f, n, m);
    }
}


/// A fork or a rope is the same as itself.
pub proof fn lemma_node_same_itself<'a, T: VariantMatch>(n: Node<'a, T>)
    requires
        !(n is VariantMatch),
    ensures
        n.same(&n),
{
    if let Node::Rope(r) = n {
        assert(same_pattern(r.pattern@, r.pattern@));
    }
}

} // verus!
