//! An append-only store of values addressed by `NodeId`.
use vstd::prelude::*;

use crate::graph::fork::Fork;
use crate::graph::node::Node;
use crate::graph::opt_below;
use crate::graph::rope::{same_pattern, Rope};
use crate::trusted::{first_occurrences, lemma_first_occurrences, sort_values, unique_values};
use crate::variant_match::VariantMatch;

verus! {

/// The position of a value in an [`Arena`].
#[derive(Debug, Clone, Copy, PartialEq, Eq, Structural, PartialOrd, Ord, Hash)]
pub struct NodeId(pub usize);

impl NodeId {
    /// The position itself.
    pub fn index(&self) -> (r: usize)
        ensures
            r == self.0,
    {
        self.0
    }
}

/// Values in insertion order; the id of a value is its position.
#[derive(Debug)]
pub struct Arena<T> {
    items: Vec<T>,
}

impl<T> View for Arena<T> {
    type V = Seq<T>;

    closed spec fn view(&self) -> Seq<T> {
        self.items@
    }
}

impl<T> Default for Arena<T> {
    fn default() -> (a: Self)
        ensures
            a@ == Seq::<T>::empty(),
    {
        Arena { items: Vec::new() }
    }
}

impl<T> Arena<T> {
    /// An empty arena.
    pub fn new() -> (a: Self)
        ensures
            a@ == Seq::<T>::empty(),
    {
        Arena { items: Vec::new() }
    }

    /// The number of values.
    pub fn len(&self) -> (n: usize)
        ensures
            n == self@.len(),
    {
        self.items.len()
    }

    /// Appends `value`; its id is the former length.
    pub fn insert(&mut self, value: T) -> (id: NodeId)
        ensures
            id.0 == old(self)@.len(),
            final(self)@ == old(self)@.push(value),
    {
        let id = NodeId(self.items.len());
        self.items.push(value);
        id
    }

    /// The value with id `id`.
    pub fn get(&self, id: NodeId) -> (r: &T)
        requires
            id.0 < self@.len(),
        ensures
            *r == self@[id.0 as int],
    {
        &self.items[id.0]
    }

    /// Replaces the value with id `id`.
    pub fn set(&mut self, id: NodeId, value: T)
        requires
            id.0 < old(self)@.len(),
        ensures
            final(self)@ == old(self)@.update(id.0 as int, value),
    {
        self.items.set(id.0, value);
    }

    /// The ids of all values, ascending.
    pub fn iter_ids(&self) -> (ids: Vec<NodeId>)
        ensures
            ids@.len() == self@.len(),
            forall|i: int| 0 <= i < ids@.len() ==> (#[trigger] ids@[i]).0 == i,
    {
        let mut ids: Vec<NodeId> = Vec::new();
        let mut i: usize = 0;
        while i < self.items.len()
            invariant
                i <= self.items@.len(),
                ids@.len() == i,
                forall|j: int| 0 <= j < i ==> (#[trigger] ids@[j]).0 == j,
            decreases self.items@.len() - i,
        {
            ids.push(NodeId(i));
            i = i + 1;
        }
        ids
    }

    /// Each id with its value, in id order.
    pub fn iter(&self) -> (entries: Vec<(NodeId, &T)>)
        ensures
            entries@.len() == self@.len(),
            forall|i: int|
                0 <= i < entries@.len() ==> (#[trigger] entries@[i]).0.0 == i && *entries@[i].1
                    == self@[i],
    {
        let mut entries: Vec<(NodeId, &T)> = Vec::new();
        let mut i: usize = 0;
        while i < self.items.len()
            invariant
                i <= self.items@.len(),
                entries@.len() == i,
                forall|j: int|
                    0 <= j < i ==> (#[trigger] entries@[j]).0.0 == j && *entries@[j].1
                        == self.items@[j],
            decreases self.items@.len() - i,
        {
            entries.push((NodeId(i), &self.items[i]));
            i = i + 1;
        }
        entries
    }
}

/// The number of elements of `s` below `x`.
pub open spec fn rank(s: Seq<usize>, x: int) -> nat
    decreases s.len(),
{
    if s.len() == 0 {
        0
    } else {
        rank(s.drop_last(), x) + if (s.last() as int) < x {
            1nat
        } else {
            0nat
        }
    }
}

/// `x` is one of the ids of `ids`.
pub open spec fn is_listed(ids: Seq<NodeId>, x: int) -> bool {
    exists|i: int| 0 <= i < ids.len() && #[trigger] ids[i].0 == x
}

/// The number of distinct values below `x` among the ids of `ids`.
pub open spec fn listed_below(ids: Seq<NodeId>, x: int) -> nat
    decreases x,
{
    if x <= 0 {
        0
    } else {
        listed_below(ids, x - 1) + if is_listed(ids, x - 1) {
            1nat
        } else {
            0nat
        }
    }
}

/// The id that the node with id `x` gets once the ids of `ids` are deleted:
/// `x` less the number of deleted ids below it.
pub open spec fn renumbered(ids: Seq<NodeId>, x: NodeId) -> NodeId {
    NodeId((x.0 - listed_below(ids, x.0 as int)) as usize)
}

pub open spec fn renumbered_opt(ids: Seq<NodeId>, x: Option<NodeId>) -> Option<NodeId> {
    match x {
        Some(id) => Some(renumbered(ids, id)),
        None => None,
    }
}

/// `o` is not one of the ids of `ids`.
pub open spec fn opt_unlisted(ids: Seq<NodeId>, o: Option<NodeId>) -> bool {
    o matches Some(id) ==> !is_listed(ids, id.0 as int)
}

/// The node refers to no id of `ids`.
pub open spec fn avoids<'a, T: VariantMatch>(node: Node<'a, T>, ids: Seq<NodeId>) -> bool {
    match node {
        Node::Fork(f) => {
            &&& forall|b: int| 0 <= b < 256 ==> opt_unlisted(ids, #[trigger] f.lookup_table@[b])
            &&& opt_unlisted(ids, f.miss)
            &&& opt_unlisted(ids, f.record_miss_backtrack_idx)
        },
        Node::Rope(r) => {
            &&& !is_listed(ids, r.target.0 as int)
            &&& opt_unlisted(ids, r.miss)
            &&& opt_unlisted(ids, r.record_miss_backtrack_idx)
        },
        Node::VariantMatch(_) => true,
    }
}

/// `new` is `prev` with every id renumbered after deleting `ids`.
pub open spec fn is_renumbered<'a, T: VariantMatch>(
    new: Node<'a, T>,
    prev: Node<'a, T>,
    ids: Seq<NodeId>,
) -> bool {
    match (new, prev) {
        (Node::Fork(f), Node::Fork(g)) => {
            &&& f.lookup_table@.len() == g.lookup_table@.len()
            &&& forall|b: int|
                0 <= b < g.lookup_table@.len() ==> #[trigger] f.lookup_table@[b] == renumbered_opt(
                    ids,
                    g.lookup_table@[b],
                )
            &&& f.miss == renumbered_opt(ids, g.miss)
            &&& f.record_miss_backtrack_idx == renumbered_opt(ids, g.record_miss_backtrack_idx)
        },
        (Node::Rope(r), Node::Rope(q)) => {
            &&& same_pattern(r.pattern@, q.pattern@)
            &&& r.pattern@ == q.pattern@
            &&& r.target == renumbered(ids, q.target)
            &&& r.miss == renumbered_opt(ids, q.miss)
            &&& r.record_miss_backtrack_idx == renumbered_opt(ids, q.record_miss_backtrack_idx)
        },
        (Node::VariantMatch(x), Node::VariantMatch(y)) => x == y,
        _ => false,
    }
}

proof fn lemma_rank_step(s: Seq<usize>, x: int)
    requires
        s.no_duplicates(),
        0 <= x <= usize::MAX,
    ensures
        rank(s, x + 1) == rank(s, x) + if s.contains(x as usize) {
            1nat
        } else {
            0nat
        },
    decreases s.len(),
{
    if s.len() > 0 {
        let init = s.drop_last();
        assert(init.no_duplicates());
        lemma_rank_step(init, x);
        if s.contains(x as usize) && s.last() != x as usize {
            let w = choose|w: int| 0 <= w < s.len() && s[w] == x as usize;
            assert(init[w] == x as usize);
        }
        if init.contains(x as usize) {
            let w = choose|w: int| 0 <= w < init.len() && init[w] == x as usize;
            assert(s[w] == x as usize);
            if s.last() == x as usize {
                assert(s[s.len() - 1] == s[w]);
            }
        }
        if s.last() == x as usize {
            assert(s[s.len() - 1] == x as usize);
        }
    }
}

proof fn lemma_rank_matches_listed(s: Seq<usize>, ids: Seq<NodeId>, x: int)
    requires
        s.no_duplicates(),
        forall|v: usize| #[trigger] s.contains(v) <==> is_listed(ids, v as int),
        0 <= x <= usize::MAX,
    ensures
        rank(s, x) == listed_below(ids, x),
    decreases x,
{
    if x > 0 {
        lemma_rank_matches_listed(s, ids, x - 1);
        lemma_rank_step(s, x - 1);
        assert(s.contains((x - 1) as usize) <==> is_listed(ids, x - 1));
    } else {
        lemma_rank_nonpositive(s, x);
    }
}

proof fn lemma_rank_nonpositive(s: Seq<usize>, x: int)
    requires
        x <= 0,
    ensures
        rank(s, x) == 0,
    decreases s.len(),
{
    if s.len() > 0 {
        lemma_rank_nonpositive(s.drop_last(), x);
    }
}

/// Ascending `s` has exactly `k` elements below `x` when its first `k`
/// elements are below `x` and the others are not.
proof fn lemma_rank_split(s: Seq<usize>, x: int, k: int)
    requires
        0 <= k <= s.len(),
        forall|j: int| 0 <= j < k ==> (s[j] as int) < x,
        forall|j: int| k <= j < s.len() ==> (s[j] as int) >= x,
    ensures
        rank(s, x) == k,
    decreases s.len(),
{
    if s.len() > 0 {
        if k == s.len() {
            lemma_rank_split(s.drop_last(), x, k - 1);
        } else {
            lemma_rank_split(s.drop_last(), x, k);
        }
    }
}

/// Without the ids of `ids`, an id below `n` that is not deleted moves to a
/// position below the new length.
proof fn lemma_renumbered_below(ids: Seq<NodeId>, y: int, n: int)
    requires
        0 <= y < n,
        !is_listed(ids, y),
    ensures
        y - listed_below(ids, y) < n - listed_below(ids, n),
    decreases n - y,
{
    if y + 1 < n {
        lemma_renumbered_below(ids, y, n - 1);
    }
}

proof fn lemma_listed_below_le(ids: Seq<NodeId>, x: int)
    ensures
        listed_below(ids, x) <= if x < 0 {
            0
        } else {
            x
        },
    decreases x,
{
    if x > 0 {
        lemma_listed_below_le(ids, x - 1);
    }
}

/// The number of elements of `s` below `x`, for ascending `s`.
fn lower_bound(s: &Vec<usize>, x: usize) -> (r: usize)
    requires
        forall|i: int, j: int| 0 <= i < j < s@.len() ==> s@[i] <= s@[j],
    ensures
        r == rank(s@, x as int),
{
    let mut lo: usize = 0;
    let mut hi: usize = s.len();
    while lo < hi
        invariant
            lo <= hi <= s@.len(),
            forall|i: int, j: int| 0 <= i < j < s@.len() ==> s@[i] <= s@[j],
            forall|j: int| 0 <= j < lo ==> s@[j] < x,
            forall|j: int| hi <= j < s@.len() ==> s@[j] >= x,
        decreases hi - lo,
    {
        let mid = lo + (hi - lo) / 2;
        if s[mid] < x {
            lo = mid + 1;
        } else {
            hi = mid;
        }
    }
    proof {
        lemma_rank_split(s@, x as int, lo as int);
    }
    lo
}

/// The id `id` once the ascending ids of `deleted` are gone.
fn renumber_id(deleted: &Vec<usize>, id: NodeId) -> (r: NodeId)
    requires
        forall|i: int, j: int| 0 <= i < j < deleted@.len() ==> deleted@[i] <= deleted@[j],
        rank(deleted@, id.0 as int) <= id.0,
    ensures
        r.0 == id.0 - rank(deleted@, id.0 as int),
{
    NodeId(id.0 - lower_bound(deleted, id.0))
}

fn renumber_opt(deleted: &Vec<usize>, id: Option<NodeId>) -> (r: Option<NodeId>)
    requires
        forall|i: int, j: int| 0 <= i < j < deleted@.len() ==> deleted@[i] <= deleted@[j],
        id matches Some(x) ==> rank(deleted@, x.0 as int) <= x.0,
    ensures
        r == match id {
            Some(x) => Some(NodeId((x.0 - rank(deleted@, x.0 as int)) as usize)),
            None => None,
        },
{
    match id {
        Some(x) => Some(renumber_id(deleted, x)),
        None => None,
    }
}

/// The ascending ids that are deleted, with the facts that the renumbering
/// rests on.
pub open spec fn deletion_plan(sorted: Seq<usize>, ids: Seq<NodeId>) -> bool {
    &&& sorted.no_duplicates()
    &&& forall|i: int, j: int| 0 <= i < j < sorted.len() ==> sorted[i] < sorted[j]
    &&& forall|v: usize| #[trigger] sorted.contains(v) <==> is_listed(ids, v as int)
    &&& forall|x: int| 0 <= x <= usize::MAX ==> #[trigger] rank(sorted, x) == listed_below(ids, x)
}

impl<'a, T: VariantMatch> Node<'a, T> {
    /// Replaces each id by its position once the ascending ids of `deleted`
    /// are gone.
    pub fn update_node_ids(&mut self, deleted: &Vec<usize>, Ghost(ids): Ghost<Seq<NodeId>>)
        requires
            deletion_plan(deleted@, ids),
            avoids(*old(self), ids),
            old(self).wf(),
        ensures
            is_renumbered(*final(self), *old(self), ids),
    {
        proof {
            lemma_listed_below_le(ids, 0);
        }
        match self {
            Node::Fork(fork) => {
                let mut i: usize = 0;
                while i < 256
                    invariant
                        i <= 256,
                        fork.lookup_table@.len() == 256,
                        deletion_plan(deleted@, ids),
                        forall|b: int|
                            i <= b < 256 ==> #[trigger] fork.lookup_table@[b]
                                == old(self)->Fork_0.lookup_table@[b],
                        forall|b: int|
                            0 <= b < i ==> #[trigger] fork.lookup_table@[b] == renumbered_opt(
                                ids,
                                old(self)->Fork_0.lookup_table@[b],
                            ),
                        forall|b: int|
                            0 <= b < 256 ==> opt_unlisted(
                                ids,
                                #[trigger] old(self)->Fork_0.lookup_table@[b],
                            ),
                        fork.miss == old(self)->Fork_0.miss,
                        fork.record_miss_backtrack_idx == old(
                            self,
                        )->Fork_0.record_miss_backtrack_idx,
                    decreases 256 - i,
                {
                    let entry = fork.lookup_table[i];
                    proof {
                        if let Some(x) = entry {
                            lemma_listed_below_le(ids, x.0 as int);
                        }
                    }
                    let updated = renumber_opt(deleted, entry);
                    fork.lookup_table.set(i, updated);
                    i = i + 1;
                }
                proof {
                    if let Some(x) = fork.miss {
                        lemma_listed_below_le(ids, x.0 as int);
                    }
                    if let Some(x) = fork.record_miss_backtrack_idx {
                        lemma_listed_below_le(ids, x.0 as int);
                    }
                }
                fork.miss = renumber_opt(deleted, fork.miss);
                fork.record_miss_backtrack_idx = renumber_opt(
                    deleted,
                    fork.record_miss_backtrack_idx,
                );
            },
            Node::Rope(rope) => {
                proof {
                    lemma_listed_below_le(ids, rope.target.0 as int);
                    if let Some(x) = rope.miss {
                        lemma_listed_below_le(ids, x.0 as int);
                    }
                    if let Some(x) = rope.record_miss_backtrack_idx {
                        lemma_listed_below_le(ids, x.0 as int);
                    }
                }
                rope.target = renumber_id(deleted, rope.target);
                rope.miss = renumber_opt(deleted, rope.miss);
                rope.record_miss_backtrack_idx = renumber_opt(
                    deleted,
                    rope.record_miss_backtrack_idx,
                );
            },
            Node::VariantMatch(_) => {},
        }
    }
}

/// A node that avoids the deleted ids and refers below `n` refers, once
/// renumbered, below the new length.
proof fn lemma_renumbered_node_below<'a, T: VariantMatch>(
    new: Node<'a, T>,
    prev: Node<'a, T>,
    ids: Seq<NodeId>,
    n: int,
)
    requires
        is_renumbered(new, prev, ids),
        prev.ids_below(n as nat),
        avoids(prev, ids),
        n >= 0,
    ensures
        new.ids_below((n - listed_below(ids, n)) as nat),
{
    let m = n - listed_below(ids, n);
    match (new, prev) {
        (Node::Fork(f), Node::Fork(g)) => {
            assert forall|b: int| 0 <= b < 256 implies opt_below(#[trigger] f.lookup_table@[b], m as nat) by {
                assert(opt_below(g.lookup_table@[b], n as nat));
                assert(opt_unlisted(ids, g.lookup_table@[b]));
                if let Some(x) = g.lookup_table@[b] {
                    lemma_renumbered_below(ids, x.0 as int, n);
                    lemma_listed_below_le(ids, x.0 as int);
                }
            }
            if let Some(x) = g.miss {
                lemma_renumbered_below(ids, x.0 as int, n);
                lemma_listed_below_le(ids, x.0 as int);
            }
            if let Some(x) = g.record_miss_backtrack_idx {
                lemma_renumbered_below(ids, x.0 as int, n);
                lemma_listed_below_le(ids, x.0 as int);
            }
        },
        (Node::Rope(r), Node::Rope(q)) => {
            lemma_renumbered_below(ids, q.target.0 as int, n);
            lemma_listed_below_le(ids, q.target.0 as int);
            if let Some(x) = q.miss {
                lemma_renumbered_below(ids, x.0 as int, n);
                lemma_listed_below_le(ids, x.0 as int);
            }
            if let Some(x) = q.record_miss_backtrack_idx {
                lemma_renumbered_below(ids, x.0 as int, n);
                lemma_listed_below_le(ids, x.0 as int);
            }
        },
        _ => {},
    }
}

/// Every slot holds a node.
pub open spec fn all_built<'a, T: VariantMatch>(slots: Seq<Option<Node<'a, T>>>) -> bool {
    forall|i: int| 0 <= i < slots.len() ==> (#[trigger] slots[i]) is Some
}

impl<'a, T: VariantMatch> Arena<Option<Node<'a, T>>> {
    /// Deletes the slots with the ids of `node_ids` and renumbers the ids
    /// that the remaining nodes hold: a slot keeps its order and moves down
    /// by the number of deleted slots before it. Returns the new id of
    /// `entry_node_id`.
    pub fn delete_nodes(&mut self, node_ids: Vec<NodeId>, entry_node_id: NodeId) -> (r: NodeId)
        requires
            forall|i: int| 0 <= i < node_ids@.len() ==> (#[trigger] node_ids@[i]).0 < old(self)@.len(),
            entry_node_id.0 < old(self)@.len(),
            !is_listed(node_ids@, entry_node_id.0 as int),
            forall|j: int|
                0 <= j < old(self)@.len() && !is_listed(node_ids@, j) ==> (
                #[trigger] old(self)@[j] matches Some(node) ==> node.ids_below(old(self)@.len())
                    && avoids(node, node_ids@)),
        ensures
            final(self)@.len() == old(self)@.len() - listed_below(node_ids@, old(self)@.len() as int),
            r == renumbered(node_ids@, entry_node_id),
            forall|j: int|
                0 <= j < old(self)@.len() && !is_listed(node_ids@, j) ==> {
                    let k = j - listed_below(node_ids@, j);
                    &&& 0 <= k < final(self)@.len()
                    &&& match (#[trigger] old(self)@[j], final(self)@[k]) {
                        (Some(prev), Some(new)) => is_renumbered(new, prev, node_ids@),
                        (None, None) => true,
                        _ => false,
                    }
                },
            forall|k: int|
                0 <= k < final(self)@.len() ==> (#[trigger] final(self)@[k] matches Some(node)
                    ==> node.ids_below(final(self)@.len())),
            all_built(old(self)@) ==> all_built(final(self)@),
    {
        let ghost ids = node_ids@;
        let ghost n = self@.len();
        let mut raw: Vec<usize> = Vec::new();
        let mut i: usize = 0;
        while i < node_ids.len()
            invariant
                i <= node_ids@.len(),
                raw@.len() == i,
                forall|j: int| 0 <= j < i ==> #[trigger] raw@[j] == node_ids@[j].0,
            decreases node_ids@.len() - i,
        {
            raw.push(node_ids[i].0);
            i = i + 1;
        }
        let mut sorted = unique_values(&raw);
        proof {
            lemma_first_occurrences(raw@);
            sorted@.lemma_multiset_has_no_duplicates();
        }
        let ghost unsorted = sorted@;
        sort_values(&mut sorted);
        proof {
            broadcast use vstd::seq_lib::group_to_multiset_ensures;

            assert forall|x: usize| sorted@.to_multiset().contains(x) implies sorted@.to_multiset().count(x) == 1 by {
                assert(unsorted.to_multiset().count(x) == sorted@.to_multiset().count(x));
            }
            sorted@.lemma_multiset_has_no_duplicates_conv();
            assert forall|v: usize| #[trigger] sorted@.contains(v) <==> is_listed(ids, v as int) by {
                assert(sorted@.contains(v) <==> sorted@.to_multiset().count(v) > 0);
                assert(unsorted.contains(v) <==> unsorted.to_multiset().count(v) > 0);
                assert(unsorted.to_set().contains(v) <==> raw@.to_set().contains(v));
                if raw@.contains(v) {
                    let w = choose|w: int| 0 <= w < raw@.len() && raw@[w] == v;
                    assert(ids[w].0 == v);
                }
                if is_listed(ids, v as int) {
                    let w = choose|w: int| 0 <= w < ids.len() && #[trigger] ids[w].0 == v as int;
                    assert(raw@[w] == v);
                }
            }
            assert forall|i: int, j: int| 0 <= i < j < sorted@.len() implies sorted@[i] < sorted@[j] by {
                assert(sorted@[i] <= sorted@[j]);
            }
            assert forall|x: int| 0 <= x <= usize::MAX implies #[trigger] rank(sorted@, x) == listed_below(ids, x) by {
                lemma_rank_matches_listed(sorted@, ids, x);
            }
        }
        let len = self.items.len();
        let mut kept: Vec<Option<Node<'a, T>>> = Vec::new();
        let mut k: usize = 0;
        let mut i: usize = 0;
        while i < len
            invariant
                deletion_plan(sorted@, ids),
                len == n,
                i <= len,
                self.items@.len() == len,
                k <= sorted@.len(),
                k == listed_below(ids, i as int),
                forall|j: int| 0 <= j < k ==> sorted@[j] < i,
                forall|j: int| k <= j < sorted@.len() ==> sorted@[j] >= i,
                kept@.len() == i - k,
                forall|q: int|
                    0 <= q < kept@.len() ==> (#[trigger] kept@[q] matches Some(node)
                        ==> node.ids_below((n - listed_below(ids, n as int)) as nat)),
                forall|j: int| i <= j < len ==> #[trigger] self.items@[j] == old(self)@[j],
                all_built(old(self)@) ==> all_built(kept@),
                n == old(self)@.len(),
                forall|j: int|
                    0 <= j < len && !is_listed(ids, j) ==> (#[trigger] old(self)@[j] matches Some(
                        node,
                    ) ==> node.ids_below(n) && avoids(node, ids)),
                forall|j: int|
                    0 <= j < i && !is_listed(ids, j) ==> {
                        let q = j - listed_below(ids, j);
                        &&& 0 <= q < kept@.len()
                        &&& match (#[trigger] old(self)@[j], kept@[q]) {
                            (Some(prev), Some(new)) => is_renumbered(new, prev, ids),
                            (None, None) => true,
                            _ => false,
                        }
                    },
            decreases len - i,
        {
            let mut slot: Option<Node<'a, T>> = None;
            std::mem::swap(&mut slot, &mut self.items[i]);
            proof {
                lemma_rank_step(sorted@, i as int);
                lemma_rank_split(sorted@, i as int, k as int);
            }
            if k < sorted.len() && sorted[k] == i {
                proof {
                    assert(sorted@.contains(i));
                }
                k = k + 1;
            } else {
                proof {
                    if sorted@.contains(i) {
                        let w = choose|w: int| 0 <= w < sorted@.len() && sorted@[w] == i;
                        if w < k {
                            assert(sorted@[w] < i);
                        } else if w > k {
                            assert(sorted@[k as int] < sorted@[w]);
                        }
                    }
                    assert(!is_listed(ids, i as int));
                }
                let ghost prev_kept = kept@;
                match slot {
                    Some(mut node) => {
                        let ghost prev_node = node;
                        node.update_node_ids(&sorted, Ghost(ids));
                        proof {
                            lemma_renumbered_node_below(node, prev_node, ids, n as int);
                        }
                        kept.push(Some(node));
                    },
                    None => {
                        proof {
                            assert(old(self)@[i as int] is None);
                        }
                        kept.push(None);
                    },
                }
                proof {
                    if all_built(old(self)@) {
                        assert(old(self)@[i as int] is Some);
                        assert forall|q: int| 0 <= q < kept@.len() implies (#[trigger] kept@[q]) is Some by {
                            if q < prev_kept.len() {
                                assert(kept@[q] == prev_kept[q]);
                            }
                        }
                    }
                }
                proof {
                    assert forall|j: int|
                        0 <= j < i + 1 && !is_listed(ids, j) implies {
                            let q = j - listed_below(ids, j);
                            &&& 0 <= q < kept@.len()
                            &&& match (#[trigger] old(self)@[j], kept@[q]) {
                                (Some(prev), Some(new)) => is_renumbered(new, prev, ids),
                                (None, None) => true,
                                _ => false,
                            }
                        } by {
                        if j < i {
                            let q = j - listed_below(ids, j);
                            assert(kept@[q] == prev_kept[q]);
                        }
                    }
                }
                i = i + 1;
                continue;
            }
            proof {
                assert forall|j: int|
                    0 <= j < i + 1 && !is_listed(ids, j) implies {
                        let q = j - listed_below(ids, j);
                        &&& 0 <= q < kept@.len()
                        &&& match (#[trigger] old(self)@[j], kept@[q]) {
                            (Some(prev), Some(new)) => is_renumbered(new, prev, ids),
                            (None, None) => true,
                            _ => false,
                        }
                    } by {
                    if j == i {
                        assert(sorted@.contains(i));
                    }
                }
            }
            i = i + 1;
        }
        proof {
            lemma_rank_split(sorted@, len as int, k as int);
        }
        self.items = kept;
        proof {
            lemma_listed_below_le(ids, entry_node_id.0 as int);
        }
        renumber_id(&sorted, entry_node_id)
    }
}

impl<'a, T: VariantMatch> Arena<Option<Node<'a, T>>> {
    /// The arena of the nodes, once every slot is built.
    pub fn into_built(self) -> (a: Arena<Node<'a, T>>)
        requires
            all_built(self@),
        ensures
            a@.len() == self@.len(),
            forall|i: int| 0 <= i < self@.len() ==> Some(#[trigger] a@[i]) == self@[i],
    {
        let ghost initial = self@;
        let Arena { items } = self;
        let mut items = items;
        assert(items@ == initial);
        let mut built: Vec<Node<'a, T>> = Vec::new();
        let mut i: usize = 0;
        while i < items.len()
            invariant
                i <= items@.len(),
                items@.len() == initial.len(),
                initial == self@,
                all_built(initial),
                built@.len() == i,
                forall|j: int| i <= j < items@.len() ==> #[trigger] items@[j] == initial[j],
                forall|j: int| 0 <= j < i ==> Some(#[trigger] built@[j]) == initial[j],
            decreases items@.len() - i,
        {
            let mut slot: Option<Node<'a, T>> = None;
            std::mem::swap(&mut slot, &mut items[i]);
            assert(initial[i as int] is Some);
            built.push(slot.unwrap());
            i = i + 1;
        }
        Arena { items: built }
    }
}

} // verus!
