//! The lexer graph and the builder that compiles specifications into it.
use vstd::prelude::*;

pub mod arena;
pub mod byte_set;
pub mod fork;
pub mod node;
pub mod rope;
pub mod variant_match;

pub use arena::{Arena, NodeId};
pub use byte_set::ByteSet;
pub use fork::Fork;
pub use node::Node;
pub use rope::Rope;

use crate::graph::arena::{
    all_built, avoids, is_listed, is_renumbered, listed_below, opt_unlisted, renumbered, renumbered_opt,
};
use crate::graph::fork::{all_bytes, both_at, has_byte, one_shared_pair};
use crate::graph::node::single_target;
use crate::graph::rope::{in_byte_class, is_byte_class, lemma_same_rope_splits, lemma_split_leads_on, same_pattern};
use crate::lexer::Lexer;
use crate::graph::node::{lemma_node_below_mono, lemma_node_same_itself};
use std::collections::HashSet;
use crate::specification::{buildable, lemma_all_buildable_index, Specification};
use crate::variant_match::VariantMatch;
use std::collections::HashMap;

verus! {

broadcast use vstd::std_specs::hash::group_hash_axioms;

/// A slot of the arena that was reserved for a node not built yet.
#[derive(Debug, Clone, Copy, PartialEq, Eq, Structural)]
pub struct ReservedId(pub NodeId);

/// The unordered pair of nodes that a merge joins.
#[derive(Debug, Clone, Copy, PartialEq, Eq, Structural)]
pub struct MergeKey(pub NodeId, pub NodeId);

/// A merge that waits until the reserved node `awaiting` is built.
#[derive(Debug, Clone, Copy, PartialEq, Eq, Structural)]
pub struct DeferredMerge {
    pub awaiting: NodeId,
    pub with: NodeId,
    pub into: ReservedId,
}

/// Why a graph could not be built.
#[derive(Debug, PartialEq)]
pub enum Error<'a, T: VariantMatch> {
    /// Two variant matches accept the same input with the same priority.
    VariantMatchesOverlapWithSamePriority(&'a T, &'a T),
    /// Two nodes that were both still reserved had to be merged.
    MergedReservedNodes,
    /// A rope without any byte had to be turned into a fork.
    ForkedOffEmptyRope,
    /// The builder ran out of its step budget.
    StepLimitReached,
}

/// The number that stands for the key of the pair: the smaller id times
/// 2^64 plus the larger one.
pub open spec fn key_code(k: MergeKey) -> int {
    k.0.0 * 0x1_0000_0000_0000_0000 + k.1.0
}

impl MergeKey {
    /// The key of the unordered pair `{a, b}`: the smaller id first.
    pub open spec fn spec_new(a: NodeId, b: NodeId) -> MergeKey {
        if a.0 < b.0 {
            MergeKey(a, b)
        } else {
            MergeKey(b, a)
        }
    }

    pub fn new(a: NodeId, b: NodeId) -> (k: Self)
        ensures
            k == Self::spec_new(a, b),
    {
        if a.0 < b.0 {
            Self(a, b)
        } else {
            Self(b, a)
        }
    }

    /// The key as a number, see [`key_code`].
    pub fn code(&self) -> (c: u128)
        ensures
            c == key_code(*self),
    {
        assert(self.0.0 * 0x1_0000_0000_0000_0000 + self.1.0 <= u128::MAX) by (nonlinear_arith)
            requires
                self.0.0 <= 0xffff_ffff_ffff_ffff,
                self.1.0 <= 0xffff_ffff_ffff_ffff,
        ;
        (self.0.0 as u128) * 0x1_0000_0000_0000_0000u128 + (self.1.0 as u128)
    }
}

/// The code under which the merge of `a` and `b` is remembered.
pub open spec fn merge_code(a: NodeId, b: NodeId) -> u128 {
    key_code(MergeKey::spec_new(a, b)) as u128
}

/// Two pairs have the same code exactly when they are the same unordered
/// pair.
pub proof fn lemma_merge_code_injective(a: NodeId, b: NodeId, c: NodeId, d: NodeId)
    ensures
        merge_code(a, b) == merge_code(c, d) <==> ((a == c && b == d) || (a == d && b == c)),
{
    let k1 = MergeKey::spec_new(a, b);
    let k2 = MergeKey::spec_new(c, d);
    let (x1, y1, x2, y2) = (k1.0.0 as int, k1.1.0 as int, k2.0.0 as int, k2.1.0 as int);
    assert(0 <= x1 * 0x1_0000_0000_0000_0000 + y1 <= u128::MAX) by (nonlinear_arith)
        requires
            0 <= x1 <= 0xffff_ffff_ffff_ffff,
            0 <= y1 <= 0xffff_ffff_ffff_ffff,
    ;
    assert(0 <= x2 * 0x1_0000_0000_0000_0000 + y2 <= u128::MAX) by (nonlinear_arith)
        requires
            0 <= x2 <= 0xffff_ffff_ffff_ffff,
            0 <= y2 <= 0xffff_ffff_ffff_ffff,
    ;
    if merge_code(a, b) == merge_code(c, d) {
        assert(x1 * 0x1_0000_0000_0000_0000 + y1 == x2 * 0x1_0000_0000_0000_0000 + y2);
        assert(x1 == x2 && y1 == y2) by (nonlinear_arith)
            requires
                x1 * 0x1_0000_0000_0000_0000 + y1 == x2 * 0x1_0000_0000_0000_0000 + y2,
                0 <= y1 < 0x1_0000_0000_0000_0000,
                0 <= y2 < 0x1_0000_0000_0000_0000,
                0 <= x1,
                0 <= x2,
        ;
    }
}

/// The code of a pair does not depend on the order of its nodes.
pub proof fn lemma_merge_code_symmetric(a: NodeId, b: NodeId)
    ensures
        merge_code(a, b) == merge_code(b, a),
{
    lemma_merge_code_injective(a, b, b, a);
}

/// `o`, when present, holds a node whose ids are below `n`.
pub open spec fn slot_below<'a, T: VariantMatch>(o: Option<Node<'a, T>>, n: nat) -> bool {
    o matches Some(node) ==> node.ids_below(n)
}

/// The slot `j` of `nodes` holds a node equal to `node` (see [`Node::same`]).
pub open spec fn holds_same<'a, T: VariantMatch>(
    nodes: Seq<Option<Node<'a, T>>>,
    j: int,
    node: Node<'a, T>,
) -> bool {
    nodes[j] matches Some(m) && m.same(&node)
}

/// A slot made by merging: the ids of the nodes, themselves not made by
/// merging, that it joins.
pub struct Joined {
    pub parts: Vec<usize>,
    pub id: NodeId,
}

/// The parts of the first entry of `js` made for `id`.
pub open spec fn parts_in(js: Seq<Joined>, id: NodeId) -> Option<Seq<usize>>
    decreases js.len(),
{
    if js.len() == 0 {
        None
    } else if js[0].id == id {
        Some(js[0].parts@)
    } else {
        parts_in(js.drop_first(), id)
    }
}

/// The first entry of `js` that joins exactly the nodes of `set`.
pub open spec fn joined_in(js: Seq<Joined>, set: Set<usize>) -> Option<NodeId>
    decreases js.len(),
{
    if js.len() == 0 {
        None
    } else if js[0].parts@.to_set() == set {
        Some(js[0].id)
    } else {
        joined_in(js.drop_first(), set)
    }
}

/// A slot that [`joined_in`] finds is the slot of one of the entries.
proof fn lemma_joined_in_entry(js: Seq<Joined>, set: Set<usize>)
    ensures
        joined_in(js, set) matches Some(id) ==> exists|i: int| 0 <= i < js.len() && #[trigger] js[i].id == id,
    decreases js.len(),
{
    if js.len() > 0 && js[0].parts@.to_set() != set {
        lemma_joined_in_entry(js.drop_first(), set);
        if let Some(id) = joined_in(js, set) {
            let i = choose|i: int| 0 <= i < js.drop_first().len() && #[trigger] js.drop_first()[i].id == id;
            assert(js[i + 1].id == id);
        }
    }
}

/// Adding three keys with one value keeps every earlier entry, when each
/// key is new or already has that value.
proof fn lemma_extend_merges(old_m: Map<u128, NodeId>, new_m: Map<u128, NodeId>, k1: u128, k2: u128, k3: u128, v: NodeId)
    requires
        new_m == old_m.insert(k1, v).insert(k2, v).insert(k3, v),
        old_m.contains_key(k1) ==> old_m[k1] == v,
        old_m.contains_key(k2) ==> old_m[k2] == v,
        old_m.contains_key(k3) ==> old_m[k3] == v,
    ensures
        forall|k: u128| #[trigger] old_m.contains_key(k) ==> new_m.contains_key(k) && new_m[k] == old_m[k],
{
}

/// Keys with a node at `n` or above are not among keys whose nodes are all
/// below `n`.
proof fn lemma_fresh_keys(m: Map<u128, NodeId>, n: nat, a: NodeId, b: NodeId, fresh: NodeId)
    requires
        fresh.0 >= n,
        forall|x: NodeId, y: NodeId| #[trigger] m.contains_key(merge_code(x, y)) ==> x.0 < n && y.0 < n,
    ensures
        !m.contains_key(merge_code(a, fresh)),
        !m.contains_key(merge_code(b, fresh)),
{
    if m.contains_key(merge_code(a, fresh)) {
        assert(fresh.0 < n);
    }
    if m.contains_key(merge_code(b, fresh)) {
        assert(fresh.0 < n);
    }
}

/// A byte `b` read at the slot leads on: a fork has a branch for it, or it
/// belongs to the first byte set of a rope.
pub open spec fn leads_on<'a, T: VariantMatch>(slot: Option<Node<'a, T>>, b: u8) -> bool {
    match slot {
        Some(Node::Fork(g)) => g.lookup_table@[b as int] is Some,
        Some(Node::Rope(r)) => r.pattern@.len() > 0 && r.pattern@[0].has(b),
        _ => false,
    }
}

/// `m` is the match of one of `variant_matches`.
pub open spec fn is_variant_of<T>(m: T, variant_matches: Seq<(Specification, T)>) -> bool {
    exists|k: int| 0 <= k < variant_matches.len() && (#[trigger] variant_matches[k]).1 == m
}

/// Every overlap error names two matches of `variant_matches`.
pub open spec fn overlaps_name_variants<'a, T: VariantMatch>(
    errors: Seq<Error<'a, T>>,
    variant_matches: Seq<(Specification, T)>,
) -> bool {
    forall|i: int|
        0 <= i < errors.len() ==> (#[trigger] errors[i] matches Error::VariantMatchesOverlapWithSamePriority(
            x,
            y,
        ) ==> is_variant_of(*x, variant_matches) && is_variant_of(*y, variant_matches))
}

/// Every overlap error names two variant matches of the same priority.
pub open spec fn overlaps_have_equal_priority<'a, T: VariantMatch>(errors: Seq<Error<'a, T>>) -> bool {
    forall|i: int|
        0 <= i < errors.len() ==> (#[trigger] errors[i] matches Error::VariantMatchesOverlapWithSamePriority(
            x,
            y,
        ) ==> x.spec_priority() == y.spec_priority())
}

/// A merge in `ds` is deferred into the slot `i`.
pub open spec fn fills(ds: Seq<DeferredMerge>, i: int) -> bool {
    fills_from(ds, 0, i)
}

/// A merge in `ds`, from position `lo` on, is deferred into the slot `i`.
pub open spec fn fills_from(ds: Seq<DeferredMerge>, lo: int, i: int) -> bool {
    exists|j: int| lo <= j < ds.len() && (#[trigger] ds[j]).into.0.0 == i
}

/// The nodes of a builder, built or reserved, that only refer to each other.
#[verifier::reject_recursive_types(T)]
pub struct GraphBuilder<'a, T: VariantMatch> {
    pub nodes: Arena<Option<Node<'a, T>>>,
    pub merges: HashMap<u128, NodeId>,
    pub joined: Vec<Joined>,
    pub errors: Vec<Error<'a, T>>,
    pub deferred_merges: Vec<DeferredMerge>,
    pub steps_left: usize,
    pub step_limit_reached: bool,
    /// The reserved slots whose merge is under way: each is filled before
    /// the merge that reserved it returns.
    pub in_progress: Ghost<Set<int>>,
    /// The variant matches that were put into the builder.
    pub matches: Ghost<Set<&'a T>>,
}

impl<'a, T: VariantMatch> GraphBuilder<'a, T> {
    /// The number of slots.
    pub open spec fn len(&self) -> nat {
        self.nodes@.len()
    }

    /// Every id that the builder holds names one of its slots, every
    /// deferred merge waits for a slot still reserved, and every reserved
    /// slot is on its way to be built (unless building already failed).
    pub open spec fn wf(&self) -> bool {
        &&& self.links_wf()
        &&& self.awaiting_reserved()
        &&& self.reserved_covered()
        &&& overlaps_have_equal_priority(self.errors@)
        &&& self.matches_known()
    }

    /// Every variant match in a slot, and every one that an overlap error
    /// names, is one of [`GraphBuilder::matches`].
    pub open spec fn matches_known(&self) -> bool {
        &&& forall|i: int|
            0 <= i < self.nodes@.len() ==> (#[trigger] self.nodes@[i] matches Some(Node::VariantMatch(m))
                ==> self.matches@.contains(m))
        &&& forall|i: int|
            0 <= i < self.errors@.len() ==> (#[trigger] self.errors@[i] matches Error::VariantMatchesOverlapWithSamePriority(
                x,
                y,
            ) ==> self.matches@.contains(x) && self.matches@.contains(y))
    }

    /// Every deferred merge waits for a slot that is still reserved.
    pub open spec fn awaiting_reserved(&self) -> bool {
        forall|i: int|
            0 <= i < self.deferred_merges@.len() ==> self.nodes@[(#[trigger] self.deferred_merges@[i]).awaiting.0 as int] is None
    }

    /// Unless building failed, every reserved slot is either being merged
    /// into right now or the slot that a deferred merge will fill.
    pub open spec fn reserved_covered(&self) -> bool {
        self.step_limit_reached || self.errors@.len() > 0 || forall|i: int|
            0 <= i < self.nodes@.len() && (#[trigger] self.nodes@[i]) is None ==> self.in_progress@.contains(i)
                || fills(self.deferred_merges@, i)
    }

    /// Every id that the builder holds names one of its slots.
    pub open spec fn links_wf(&self) -> bool {
        let n = self.nodes@.len();
        &&& forall|i: int| 0 <= i < n ==> slot_below(#[trigger] self.nodes@[i], n)
        &&& forall|k: u128| #[trigger] self.merges@.contains_key(k) ==> self.merges@[k].0 < n
        &&& forall|i: int|
            0 <= i < self.deferred_merges@.len() ==> {
                &&& (#[trigger] self.deferred_merges@[i]).awaiting.0 < n
                &&& self.deferred_merges@[i].with.0 < n
                &&& self.deferred_merges@[i].into.0.0 < n
                &&& self.deferred_merges@[i].awaiting.0 < self.deferred_merges@[i].into.0.0
            }
        &&& forall|i: int| 0 <= i < self.joined@.len() ==> (#[trigger] self.joined@[i]).id.0 < n
        &&& forall|a: NodeId, b: NodeId| #[trigger]
            self.merges@.contains_key(merge_code(a, b)) ==> a.0 < n && b.0 < n
        &&& forall|a: NodeId| #[trigger]
            self.merges@.contains_key(merge_code(a, a)) ==> self.merges@[merge_code(a, a)] == a
    }

    /// The nodes, themselves not made by merging, that the slot `id` joins.
    pub open spec fn parts(&self, id: NodeId) -> Set<usize> {
        match parts_in(self.joined@, id) {
            Some(p) => p.to_set(),
            None => set![id.0],
        }
    }

    /// The slot that joins the nodes of both `a` and `b`, if there is one:
    /// `a` or `b` when it holds the other's, else the first merged slot that
    /// joins exactly these nodes.
    pub open spec fn canonical(&self, a: NodeId, b: NodeId) -> Option<NodeId> {
        let all = self.parts(a).union(self.parts(b));
        if all == self.parts(a) {
            Some(a)
        } else if all == self.parts(b) {
            Some(b)
        } else {
            joined_in(self.joined@, all)
        }
    }

    /// `self` is `prev` after any number of building steps: still well
    /// formed, with no slot less, no step more and no merge forgotten.
    pub open spec fn grows(&self, prev: &Self) -> bool {
        &&& self.wf()
        &&& prev.nodes@.len() <= self.nodes@.len()
        &&& self.steps_left <= prev.steps_left
        &&& (prev.step_limit_reached ==> self.step_limit_reached)
        &&& prev.errors@.len() <= self.errors@.len()
        &&& self.in_progress@.subset_of(prev.in_progress@)
        &&& forall|k: u128| #[trigger]
            prev.merges@.contains_key(k) ==> self.merges@.contains_key(k) && self.merges@[k]
                == prev.merges@[k]
    }

    /// The slots below `bound` are as they were in `prev`.
    pub open spec fn keeps_below(&self, prev: &Self, bound: int) -> bool {
        forall|i: int| 0 <= i < bound ==> #[trigger] self.nodes@[i] == prev.nodes@[i]
    }

    /// `self` grows `prev` and leaves every slot of `prev` as it was: slots
    /// are only added, and reserved slots are filled only by the merge that
    /// reserved them.
    pub open spec fn extends(&self, prev: &Self) -> bool {
        &&& self.grows(prev)
        &&& self.keeps_below(prev, prev.nodes@.len() as int)
        &&& self.matches == prev.matches
    }

    /// The remembered result of merging `a` and `b`.
    pub open spec fn memo(&self, a: NodeId, b: NodeId) -> Option<NodeId> {
        if self.merges@.contains_key(merge_code(a, b)) {
            Some(self.merges@[merge_code(a, b)])
        } else {
            None
        }
    }

    /// A merge is remembered for the pair of nodes, whatever their order:
    /// once `merge(a, b)` has returned `r` (with steps left, and not both
    /// nodes reserved), `merge(b, a)` returns `r` too and changes nothing.
    pub proof fn lemma_memo_symmetric(&self, a: NodeId, b: NodeId)
        ensures
            self.memo(a, b) == self.memo(b, a),
    {
        lemma_merge_code_symmetric(a, b);
    }

    /// Once building is over without an error, every reserved slot has been
    /// built: no merge is under way, so each reserved slot would have to be
    /// filled by a deferred merge, which waits for a smaller reserved slot,
    /// and there is no smallest one.
    pub proof fn lemma_finished_is_built(&self)
        requires
            self.wf(),
            self.in_progress@.is_empty(),
            !self.step_limit_reached,
            self.errors@.len() == 0,
        ensures
            all_built(self.nodes@),
    {
        assert forall|i: int| 0 <= i < self.nodes@.len() implies (#[trigger] self.nodes@[i]) is Some by {
            self.lemma_slot_built(i);
        }
    }

    proof fn lemma_slot_built(&self, i: int)
        requires
            self.wf(),
            self.in_progress@.is_empty(),
            !self.step_limit_reached,
            self.errors@.len() == 0,
            0 <= i < self.nodes@.len(),
        ensures
            self.nodes@[i] is Some,
        decreases i,
    {
        if self.nodes@[i] is None {
            assert(fills(self.deferred_merges@, i));
            let j = choose|j: int|
                0 <= j < self.deferred_merges@.len() && (#[trigger] self.deferred_merges@[j]).into.0.0 == i;
            let waiting = self.deferred_merges@[j].awaiting.0 as int;
            self.lemma_slot_built(waiting);
        }
    }

    /// An empty builder with the full step budget.
    pub fn new() -> (b: Self)
        ensures
            b.wf(),
            b.nodes@.len() == 0,
            b.merges@.is_empty(),
            b.joined@.len() == 0,
            b.errors@.len() == 0,
            b.deferred_merges@.len() == 0,
            b.steps_left == usize::MAX,
            !b.step_limit_reached,
            b.in_progress@.is_empty(),
            b.matches@.is_empty(),
    {
        GraphBuilder {
            nodes: Arena::new(),
            merges: HashMap::new(),
            joined: Vec::new(),
            errors: Vec::new(),
            deferred_merges: Vec::new(),
            steps_left: usize::MAX,
            step_limit_reached: false,
            in_progress: Ghost(Set::empty()),
            matches: Ghost(Set::empty()),
        }
    }

    /// Spends one step of the budget, if any is left.
    pub fn take_step(&mut self) -> (ok: bool)
        ensures
            ok == (old(self).steps_left > 0),
            final(self).steps_left == (if ok {
                old(self).steps_left - 1
            } else {
                0
            }),
            final(self).step_limit_reached == (old(self).step_limit_reached || !ok),
            final(self).nodes == old(self).nodes,
            final(self).merges == old(self).merges,
            final(self).joined == old(self).joined,
            final(self).errors == old(self).errors,
            final(self).deferred_merges == old(self).deferred_merges,
            final(self).in_progress == old(self).in_progress,
            final(self).matches == old(self).matches,
    {
        if self.steps_left == 0 {
            self.step_limit_reached = true;
            false
        } else {
            self.steps_left = self.steps_left - 1;
            true
        }
    }

    /// The slot `id`.
    pub fn get(&self, id: NodeId) -> (r: &Option<Node<'a, T>>)
        requires
            id.0 < self.nodes@.len(),
        ensures
            *r == self.nodes@[id.0 as int],
    {
        self.nodes.get(id)
    }

    /// Adds `node` unless an equal node (see [`Node::same`]) is built
    /// already; returns the id of the first such node, or of the new one.
    pub fn insert(&mut self, node: Node<'a, T>) -> (id: NodeId)
        requires
            old(self).wf(),
            node.ids_below(old(self).nodes@.len()),
        ensures
            final(self).wf(),
            final(self).merges == old(self).merges,
            final(self).joined == old(self).joined,
            final(self).errors == old(self).errors,
            final(self).deferred_merges == old(self).deferred_merges,
            final(self).in_progress == old(self).in_progress,
            !(node is VariantMatch) ==> final(self).matches == old(self).matches,
            node matches Node::VariantMatch(m) ==> final(self).matches@ == old(self).matches@.insert(m),
            final(self).steps_left == old(self).steps_left,
            final(self).step_limit_reached == old(self).step_limit_reached,
            id.0 < final(self).nodes@.len(),
            forall|j: int|
                0 <= j < id.0 && j < old(self).nodes@.len() ==> !holds_same(
                    old(self).nodes@,
                    j,
                    node,
                ),
            (exists|j: int|
                0 <= j < old(self).nodes@.len() && holds_same(old(self).nodes@, j, node)) ==> {
                &&& final(self).nodes == old(self).nodes
                &&& holds_same(old(self).nodes@, id.0 as int, node)
            },
            !(exists|j: int|
                0 <= j < old(self).nodes@.len() && holds_same(old(self).nodes@, j, node)) ==> {
                &&& id.0 == old(self).nodes@.len()
                &&& final(self).nodes@ == old(self).nodes@.push(Some(node))
            },
    {
        let n = self.nodes.len();
        let mut i: usize = 0;
        while i < n
            invariant
                i <= n,
                n == self.nodes@.len(),
                self.wf(),
                node.ids_below(n as nat),
                forall|j: int| 0 <= j < i ==> !holds_same(self.nodes@, j, node),
            decreases n - i,
        {
            match self.nodes.get(NodeId(i)) {
                Some(existing) => {
                    assert(existing.ids_below(n as nat));
                    if existing.same_as(&node) {
                        assert(holds_same(self.nodes@, i as int, node));
                        return NodeId(i);
                    }
                },
                None => {},
            }
            i = i + 1;
        }
        proof {
            if let Node::VariantMatch(m) = node {
                self.matches@ = self.matches@.insert(m);
            }
        }
        let id = self.nodes.insert(Some(node));
        proof {
            let m = self.nodes@.len();
            assert forall|j: int| 0 <= j < m implies slot_below(#[trigger] self.nodes@[j], m) by {
                if j < n {
                    assert(slot_below(old(self).nodes@[j], n as nat));
                    if let Some(x) = self.nodes@[j] {
                        lemma_node_below_mono(&x, n as nat, m);
                    }
                } else {
                    lemma_node_below_mono(&node, n as nat, m);
                }
            }
        }
        id
    }

    /// Adds an empty slot to be built later.
    pub fn reserve(&mut self) -> (r: ReservedId)
        requires
            old(self).wf(),
        ensures
            final(self).wf(),
            r.0.0 == old(self).nodes@.len(),
            final(self).nodes@ == old(self).nodes@.push(None),
            final(self).merges == old(self).merges,
            final(self).joined == old(self).joined,
            final(self).errors == old(self).errors,
            final(self).deferred_merges == old(self).deferred_merges,
            final(self).in_progress@ == old(self).in_progress@.insert(r.0.0 as int),
            final(self).matches == old(self).matches,
            final(self).steps_left == old(self).steps_left,
            final(self).step_limit_reached == old(self).step_limit_reached,
    {
        let id = self.nodes.insert(None);
        proof {
            self.in_progress@ = self.in_progress@.insert(id.0 as int);
        }
        proof {
            let n = old(self).nodes@.len();
            let m = self.nodes@.len();
            assert forall|j: int| 0 <= j < m implies slot_below(#[trigger] self.nodes@[j], m) by {
                if j < n {
                    assert(slot_below(old(self).nodes@[j], n));
                    if let Some(x) = self.nodes@[j] {
                        lemma_node_below_mono(&x, n, m);
                    }
                }
            }
        }
        ReservedId(id)
    }

    /// Remembers `merge_id` as the merge of `a` with `b`, of `b` with
    /// `merge_id` and of `a` with `merge_id`.
    pub fn set_merged(&mut self, a: NodeId, b: NodeId, merge_id: NodeId)
        requires
            old(self).wf(),
            a != b,
            a.0 < old(self).nodes@.len(),
            b.0 < old(self).nodes@.len(),
            merge_id.0 < old(self).nodes@.len(),
        ensures
            final(self).wf(),
            final(self).merges@ == old(self).merges@.insert(merge_code(a, b), merge_id).insert(
                merge_code(b, merge_id),
                merge_id,
            ).insert(merge_code(a, merge_id), merge_id),
            final(self).memo(a, b) == Some(merge_id),
            final(self).memo(b, merge_id) == Some(merge_id),
            final(self).memo(a, merge_id) == Some(merge_id),
            final(self).nodes == old(self).nodes,
            final(self).joined == old(self).joined,
            final(self).errors == old(self).errors,
            final(self).deferred_merges == old(self).deferred_merges,
            final(self).in_progress == old(self).in_progress,
            final(self).matches == old(self).matches,
            final(self).steps_left == old(self).steps_left,
            final(self).step_limit_reached == old(self).step_limit_reached,
    {
        self.merges.insert(MergeKey::new(a, b).code(), merge_id);
        self.merges.insert(MergeKey::new(b, merge_id).code(), merge_id);
        self.merges.insert(MergeKey::new(a, merge_id).code(), merge_id);
        proof {
            let n = self.nodes@.len();
            assert forall|x: NodeId, y: NodeId| #[trigger]
                self.merges@.contains_key(merge_code(x, y)) implies x.0 < n && y.0 < n by {
                lemma_merge_code_injective(x, y, a, b);
                lemma_merge_code_injective(x, y, b, merge_id);
                lemma_merge_code_injective(x, y, a, merge_id);
            }
            assert forall|x: NodeId| #[trigger]
                self.merges@.contains_key(merge_code(x, x)) implies self.merges@[merge_code(x, x)]
                == x by {
                lemma_merge_code_injective(x, x, a, b);
                lemma_merge_code_injective(x, x, b, merge_id);
                lemma_merge_code_injective(x, x, a, merge_id);
            }
        }
    }
}


/// Deferring one more merge, into a slot that was just reserved, keeps every
/// other reserved slot covered as before and covers the new one.
proof fn lemma_defer_covers<'a, T: VariantMatch>(
    progress: Set<int>,
    prev: Seq<DeferredMerge>,
    ds: Seq<DeferredMerge>,
    nodes: Seq<Option<Node<'a, T>>>,
)
    requires
        ds.len() == prev.len() + 1,
        forall|j: int| 0 <= j < prev.len() ==> ds[j] == prev[j],
        ds.last().into.0.0 == nodes.len() - 1,
        forall|i: int|
            0 <= i < nodes.len() - 1 && (#[trigger] nodes[i]) is None ==> progress.contains(i)
                || fills(prev, i),
    ensures
        forall|i: int|
            0 <= i < nodes.len() && (#[trigger] nodes[i]) is None ==> progress.contains(i) || fills(ds, i),
{
    assert forall|i: int| 0 <= i < nodes.len() && (#[trigger] nodes[i]) is None implies progress.contains(i)
        || fills(ds, i) by {
        if i == nodes.len() - 1 {
            assert(ds[ds.len() - 1].into.0.0 == i);
        } else if fills(prev, i) {
            let j = choose|j: int| 0 <= j < prev.len() && (#[trigger] prev[j]).into.0.0 == i;
            assert(ds[j] == prev[j]);
        }
    }
}

/// The elements of `x`, then those of `y` that are not in `x`.
fn set_union(x: &Vec<usize>, y: &Vec<usize>) -> (r: Vec<usize>)
    ensures
        r@.to_set() == x@.to_set().union(y@.to_set()),
{
    let mut r: Vec<usize> = Vec::new();
    let mut i: usize = 0;
    while i < x.len()
        invariant
            i <= x@.len(),
            r@ == x@.take(i as int),
        decreases x@.len() - i,
    {
        r.push(x[i]);
        assert(x@.take(i + 1) =~= x@.take(i as int).push(x@[i as int]));
        i = i + 1;
    }
    assert(x@.take(x@.len() as int) =~= x@);
    let mut j: usize = 0;
    while j < y.len()
        invariant
            j <= y@.len(),
            r@.to_set() == x@.to_set().union(y@.take(j as int).to_set()),
        decreases y@.len() - j,
    {
        let v = y[j];
        let ghost before = r@;
        if !contains(&r, v) {
            r.push(v);
            assert(r@.to_set() =~= before.to_set().insert(v)) by {
                assert forall|e: usize| r@.to_set().contains(e) implies before.to_set().insert(e).contains(e) by {}
                assert forall|e: usize| #[trigger] r@.to_set().contains(e) <==> before.to_set().insert(v).contains(e) by {
                    if r@.contains(e) && e != v {
                        let k = choose|k: int| 0 <= k < r@.len() && r@[k] == e;
                        assert(before[k] == e);
                    }
                    if before.contains(e) {
                        let k = choose|k: int| 0 <= k < before.len() && before[k] == e;
                        assert(r@[k] == e);
                    }
                    if e == v {
                        assert(r@[r@.len() - 1] == v);
                    }
                }
            }
        }
        assert(y@.take(j + 1) =~= y@.take(j as int).push(v));
        assert(y@.take(j + 1).to_set() =~= y@.take(j as int).to_set().insert(v)) by {
            assert forall|e: usize| #[trigger] y@.take(j + 1).to_set().contains(e) <==> y@.take(j as int).to_set().insert(v).contains(e) by {
                let t = y@.take(j + 1);
                let u = y@.take(j as int);
                if t.contains(e) && e != v {
                    let k = choose|k: int| 0 <= k < t.len() && t[k] == e;
                    assert(u[k] == e);
                }
                if u.contains(e) {
                    let k = choose|k: int| 0 <= k < u.len() && u[k] == e;
                    assert(t[k] == e);
                }
                if e == v {
                    assert(t[j as int] == v);
                }
            }
        }
        assert(r@.to_set() =~= x@.to_set().union(y@.take(j + 1).to_set()));
        j = j + 1;
    }
    assert(y@.take(y@.len() as int) =~= y@);
    r
}

/// Whether `v` occurs in `x`.
fn contains(x: &Vec<usize>, v: usize) -> (b: bool)
    ensures
        b == x@.contains(v),
{
    let mut i: usize = 0;
    while i < x.len()
        invariant
            i <= x@.len(),
            forall|k: int| 0 <= k < i ==> x@[k] != v,
        decreases x@.len() - i,
    {
        if x[i] == v {
            return true;
        }
        i = i + 1;
    }
    false
}

/// Whether every element of `x` occurs in `y`.
fn all_in(x: &Vec<usize>, y: &Vec<usize>) -> (b: bool)
    ensures
        b == x@.to_set().subset_of(y@.to_set()),
{
    let mut i: usize = 0;
    while i < x.len()
        invariant
            i <= x@.len(),
            forall|k: int| 0 <= k < i ==> y@.contains(#[trigger] x@[k]),
        decreases x@.len() - i,
    {
        if !contains(y, x[i]) {
            assert(x@.to_set().contains(x@[i as int]));
            return false;
        }
        i = i + 1;
    }
    assert forall|e: usize| x@.to_set().contains(e) implies y@.to_set().contains(e) by {
        let k = choose|k: int| 0 <= k < x@.len() && x@[k] == e;
        assert(y@.contains(x@[k]));
    }
    true
}

/// Whether `x` and `y` hold the same elements.
fn same_set(x: &Vec<usize>, y: &Vec<usize>) -> (b: bool)
    ensures
        b == (x@.to_set() == y@.to_set()),
{
    let b = all_in(x, y) && all_in(y, x);
    proof {
        if b {
            assert(x@.to_set() =~= y@.to_set());
        }
    }
    b
}

/// A copy of `x`.
pub(crate) fn copy_ids(x: &Vec<usize>) -> (r: Vec<usize>)
    ensures
        r@ == x@,
{
    let mut r: Vec<usize> = Vec::new();
    let mut i: usize = 0;
    while i < x.len()
        invariant
            i <= x@.len(),
            r@ == x@.take(i as int),
        decreases x@.len() - i,
    {
        r.push(x[i]);
        assert(x@.take(i + 1) =~= x@.take(i as int).push(x@[i as int]));
        i = i + 1;
    }
    assert(x@.take(x@.len() as int) =~= x@);
    r
}

impl<'a, T: VariantMatch> GraphBuilder<'a, T> {
    /// The parts of the slot `id`, see [`GraphBuilder::parts`].
    fn parts_of(&self, id: NodeId) -> (r: Vec<usize>)
        ensures
            r@.to_set() == self.parts(id),
    {
        let mut i: usize = 0;
        assert(self.joined@.skip(0) =~= self.joined@);
        while i < self.joined.len()
            invariant
                i <= self.joined@.len(),
                parts_in(self.joined@, id) == parts_in(self.joined@.skip(i as int), id),
            decreases self.joined@.len() - i,
        {
            assert(self.joined@.skip(i as int).drop_first() =~= self.joined@.skip(i + 1));
            if self.joined[i].id.0 == id.0 {
                return copy_ids(&self.joined[i].parts);
            }
            i = i + 1;
        }
        let mut r: Vec<usize> = Vec::new();
        r.push(id.0);
        assert(r@.to_set() =~= set![id.0]) by {
            assert forall|e: usize| #[trigger] r@.to_set().contains(e) <==> e == id.0 by {
                if e == id.0 {
                    assert(r@[0] == e);
                }
            }
        }
        r
    }

    /// The first merged slot that joins exactly the elements of `set`.
    fn joined_with(&self, set: &Vec<usize>) -> (r: Option<NodeId>)
        ensures
            r == joined_in(self.joined@, set@.to_set()),
    {
        let mut i: usize = 0;
        assert(self.joined@.skip(0) =~= self.joined@);
        while i < self.joined.len()
            invariant
                i <= self.joined@.len(),
                joined_in(self.joined@, set@.to_set()) == joined_in(
                    self.joined@.skip(i as int),
                    set@.to_set(),
                ),
            decreases self.joined@.len() - i,
        {
            assert(self.joined@.skip(i as int).drop_first() =~= self.joined@.skip(i + 1));
            if same_set(&self.joined[i].parts, set) {
                return Some(self.joined[i].id);
            }
            i = i + 1;
        }
        None
    }

    /// The slot that joins the nodes of both `a` and `b`, if there is one,
    /// see [`GraphBuilder::canonical`]; also the parts that both join.
    fn find_canonical(&self, a: NodeId, b: NodeId) -> (r: (Option<NodeId>, Vec<usize>))
        ensures
            r.0 == self.canonical(a, b),
            r.1@.to_set() == self.parts(a).union(self.parts(b)),
    {
        let parts_a = self.parts_of(a);
        let parts_b = self.parts_of(b);
        let all = set_union(&parts_a, &parts_b);
        if same_set(&all, &parts_a) {
            (Some(a), all)
        } else if same_set(&all, &parts_b) {
            (Some(b), all)
        } else {
            (self.joined_with(&all), all)
        }
    }
}

/// What a slot holds, as far as merging is concerned.
enum SlotKind<'a, T> {
    Reserved,
    Match(&'a T),
    Built,
}

impl<'a, T: VariantMatch> GraphBuilder<'a, T> {
    fn slot_kind(&self, id: NodeId) -> (k: SlotKind<'a, T>)
        requires
            id.0 < self.nodes@.len(),
        ensures
            match self.nodes@[id.0 as int] {
                None => k is Reserved,
                Some(Node::VariantMatch(x)) => k == SlotKind::Match(x),
                Some(_) => k is Built,
            },
    {
        match self.nodes.get(id) {
            None => SlotKind::Reserved,
            Some(Node::VariantMatch(x)) => SlotKind::Match(*x),
            Some(_) => SlotKind::Built,
        }
    }

    /// Merges the nodes `a` and `b` into one that accepts what either
    /// accepts, remembering each merge so that it is done once.
    ///
    /// A slot that already joins the nodes of both is the merge (see
    /// [`GraphBuilder::canonical`]). Two variant matches merge into the one of
    /// higher priority; with equal priorities `b` is kept and the overlap of
    /// `a` with `b` is recorded as an error. When one of the nodes is still
    /// reserved the merge waits for it in a new reserved slot; otherwise both
    /// are turned into forks, which are merged into a new slot.
    pub fn merge(&mut self, a: NodeId, b: NodeId) -> (r: NodeId)
        requires
            old(self).wf(),
            a.0 < old(self).nodes@.len(),
            b.0 < old(self).nodes@.len(),
        ensures
            final(self).extends(old(self)),
            r.0 < final(self).nodes@.len(),
            a == b ==> r == a && *final(self) == *old(self),
            a != b && old(self).memo(a, b) is Some ==> r == old(self).memo(a, b)->0
                && *final(self) == *old(self),
            a != b && old(self).memo(a, b) is None && old(self).canonical(a, b) is Some ==> {
                &&& r == old(self).canonical(a, b)->0
                &&& final(self).merges@ == old(self).merges@.insert(merge_code(a, b), r)
                &&& final(self).nodes == old(self).nodes
                &&& final(self).joined == old(self).joined
                &&& final(self).errors == old(self).errors
                &&& final(self).deferred_merges == old(self).deferred_merges
                &&& final(self).steps_left == old(self).steps_left
            },
            a != b && old(self).memo(a, b) is None && (old(self).canonical(a, b) is Some || (old(
                self,
            ).steps_left > 0 && !(old(self).nodes@[a.0 as int] is None && old(self).nodes@[b.0 as int] is None)))
                ==> final(self).memo(a, b) == Some(r),
            a != b && !(old(self).nodes@[a.0 as int] is None && old(self).nodes@[b.0 as int] is None)
                && !final(self).step_limit_reached ==> final(self).memo(a, b) == Some(r),
            a != b && old(self).memo(a, b) is None && old(self).canonical(a, b) is None && old(
                self,
            ).steps_left > 0 && !(old(self).nodes@[a.0 as int] is None && old(self).nodes@[b.0 as int] is None)
                ==> final(self).memo(a, r) == Some(r) && final(self).memo(b, r) == Some(r),
            a != b && old(self).memo(a, b) is None && old(self).canonical(a, b) is None && old(
                self,
            ).steps_left > 0 ==> match (
                old(self).nodes@[a.0 as int],
                old(self).nodes@[b.0 as int],
            ) {
                (Some(Node::VariantMatch(x)), Some(Node::VariantMatch(y))) => {
                    &&& r == (if x.spec_priority() > y.spec_priority() {
                        a
                    } else {
                        b
                    })
                    &&& final(self).errors@ == (if x.spec_priority() == y.spec_priority() {
                        old(self).errors@.push(Error::VariantMatchesOverlapWithSamePriority(x, y))
                    } else {
                        old(self).errors@
                    })
                    &&& final(self).nodes == old(self).nodes
                    &&& final(self).memo(a, b) == Some(r)
                    &&& final(self).steps_left == old(self).steps_left - 1
                    &&& final(self).step_limit_reached == old(self).step_limit_reached
                },
                (None, None) => final(self).errors@ == old(self).errors@.push(
                    Error::MergedReservedNodes,
                ),
                (None, Some(_)) => {
                    &&& r.0 == old(self).nodes@.len()
                    &&& final(self).nodes@ == old(self).nodes@.push(None)
                    &&& final(self).deferred_merges@ == old(self).deferred_merges@.push(
                        DeferredMerge { awaiting: a, with: b, into: ReservedId(r) },
                    )
                    &&& final(self).memo(a, b) == Some(r)
                },
                (Some(_), None) => {
                    &&& r.0 == old(self).nodes@.len()
                    &&& final(self).nodes@ == old(self).nodes@.push(None)
                    &&& final(self).deferred_merges@ == old(self).deferred_merges@.push(
                        DeferredMerge { awaiting: b, with: a, into: ReservedId(r) },
                    )
                    &&& final(self).memo(a, b) == Some(r)
                },
                (Some(_), Some(_)) => {
                    &&& r.0 == old(self).nodes@.len()
                    &&& final(self).step_limit_reached || final(self).nodes@[r.0 as int] is Some
                    &&& !final(self).step_limit_reached ==> forall|x: u8|
                        #![trigger leads_on(final(self).nodes@[r.0 as int], x)]
                        (leads_on(final(self).nodes@[r.0 as int], x) <==> (leads_on(
                            old(self).nodes@[a.0 as int],
                            x,
                        ) || leads_on(old(self).nodes@[b.0 as int], x)))
                },
            },
        decreases old(self).steps_left,
    {
        if a.0 == b.0 {
            return a;
        }
        let code = MergeKey::new(a, b).code();
        match self.merges.get(&code) {
            Some(id) => {
                return *id;
            },
            None => {},
        }
        let ghost old_merges = self.merges@;
        assert(!old_merges.contains_key(merge_code(a, b)));
        proof {
            lemma_merge_code_symmetric(a, b);
        }
        let (found, all) = self.find_canonical(a, b);
        match found {
            Some(id) => {
                proof {
                    lemma_joined_in_entry(self.joined@, self.parts(a).union(self.parts(b)));
                }
                self.merges.insert(code, id);
                proof {
                    let n = self.nodes@.len();
                    assert forall|x: NodeId, y: NodeId| #[trigger]
                        self.merges@.contains_key(merge_code(x, y)) implies x.0 < n && y.0 < n by {
                        lemma_merge_code_injective(x, y, a, b);
                    }
                    assert forall|x: NodeId| #[trigger]
                        self.merges@.contains_key(merge_code(x, x)) implies self.merges@[merge_code(
                        x,
                        x,
                    )] == x by {
                        lemma_merge_code_injective(x, x, a, b);
                    }
                }
                return id;
            },
            None => {},
        }
        if !self.take_step() {
            return a;
        }
        let kind_a = self.slot_kind(a);
        let kind_b = self.slot_kind(b);
        match (kind_a, kind_b) {
            (SlotKind::Match(x), SlotKind::Match(y)) => {
                let priority_a = x.priority();
                let priority_b = y.priority();
                let merge_id = if priority_a == priority_b {
                    self.errors.push(Error::VariantMatchesOverlapWithSamePriority(x, y));
                    b
                } else if priority_a > priority_b {
                    a
                } else {
                    b
                };
                proof {
                    lemma_merge_code_symmetric(a, b);
                    if old_merges.contains_key(merge_code(a, a)) {
                        assert(old_merges[merge_code(a, a)] == a);
                    }
                    if old_merges.contains_key(merge_code(b, b)) {
                        assert(old_merges[merge_code(b, b)] == b);
                    }
                }
                self.set_merged(a, b, merge_id);
                proof {
                    lemma_extend_merges(
                        old_merges,
                        self.merges@,
                        merge_code(a, b),
                        merge_code(b, merge_id),
                        merge_code(a, merge_id),
                        merge_id,
                    );
                }
                merge_id
            },
            (SlotKind::Reserved, SlotKind::Reserved) => {
                self.errors.push(Error::MergedReservedNodes);
                a
            },
            (SlotKind::Reserved, _) => {
                let reserved = self.reserve();
                let merge_id = reserved.0;
                proof {
                    lemma_fresh_keys(old_merges, old(self).nodes@.len(), a, b, merge_id);
                }
                self.set_merged(a, b, merge_id);
                proof {
                    lemma_extend_merges(
                        old_merges,
                        self.merges@,
                        merge_code(a, b),
                        merge_code(b, merge_id),
                        merge_code(a, merge_id),
                        merge_id,
                    );
                }
                self.joined.push(Joined { parts: all, id: merge_id });
                let ghost prev_deferred = self.deferred_merges@;
                self.deferred_merges.push(DeferredMerge { awaiting: a, with: b, into: reserved });
                proof {
                    self.in_progress@ = self.in_progress@.remove(merge_id.0 as int);
                    if !self.step_limit_reached && self.errors@.len() == 0 {
                        assert(old(self).reserved_covered());
                        assert forall|i: int|
                            0 <= i < self.nodes@.len() - 1 && (#[trigger] self.nodes@[i]) is None
                                implies self.in_progress@.contains(i) || fills(prev_deferred, i) by {
                            assert(self.nodes@[i] == old(self).nodes@[i]);
                        }
                        lemma_defer_covers(self.in_progress@, prev_deferred, self.deferred_merges@, self.nodes@);
                    }
                }
                merge_id
            },
            (_, SlotKind::Reserved) => {
                let reserved = self.reserve();
                let merge_id = reserved.0;
                proof {
                    lemma_fresh_keys(old_merges, old(self).nodes@.len(), a, b, merge_id);
                }
                self.set_merged(a, b, merge_id);
                proof {
                    lemma_extend_merges(
                        old_merges,
                        self.merges@,
                        merge_code(a, b),
                        merge_code(b, merge_id),
                        merge_code(a, merge_id),
                        merge_id,
                    );
                }
                self.joined.push(Joined { parts: all, id: merge_id });
                let ghost prev_deferred = self.deferred_merges@;
                self.deferred_merges.push(DeferredMerge { awaiting: b, with: a, into: reserved });
                proof {
                    self.in_progress@ = self.in_progress@.remove(merge_id.0 as int);
                    if !self.step_limit_reached && self.errors@.len() == 0 {
                        assert(old(self).reserved_covered());
                        assert forall|i: int|
                            0 <= i < self.nodes@.len() - 1 && (#[trigger] self.nodes@[i]) is None
                                implies self.in_progress@.contains(i) || fills(prev_deferred, i) by {
                            assert(self.nodes@[i] == old(self).nodes@[i]);
                        }
                        lemma_defer_covers(self.in_progress@, prev_deferred, self.deferred_merges@, self.nodes@);
                    }
                }
                merge_id
            },
            _ => {
                let reserved = self.reserve();
                let merge_id = reserved.0;
                proof {
                    lemma_fresh_keys(old_merges, old(self).nodes@.len(), a, b, merge_id);
                }
                self.set_merged(a, b, merge_id);
                proof {
                    lemma_extend_merges(
                        old_merges,
                        self.merges@,
                        merge_code(a, b),
                        merge_code(b, merge_id),
                        merge_code(a, merge_id),
                        merge_id,
                    );
                }
                self.joined.push(Joined { parts: all, id: merge_id });
                self.merge_unchecked(a, b, reserved)
            },
        }
    }

    /// Merges the built nodes `a` and `b` into the reserved slot `reserved`:
    /// both are turned into forks, `a`'s is merged into `b`'s, and the result
    /// fills the slot.
    pub fn merge_unchecked(&mut self, a: NodeId, b: NodeId, reserved: ReservedId) -> (r: NodeId)
        requires
            old(self).wf(),
            a.0 < old(self).nodes@.len(),
            b.0 < old(self).nodes@.len(),
            reserved.0.0 < old(self).nodes@.len(),
        ensures
            final(self).grows(old(self)),
            final(self).keeps_below(old(self), reserved.0.0 as int),
            final(self).in_progress@.subset_of(old(self).in_progress@.remove(reserved.0.0 as int)),
            final(self).matches == old(self).matches,
            r == reserved.0,
            old(self).nodes@[a.0 as int] is Some && old(self).nodes@[b.0 as int] is Some
                ==> final(self).step_limit_reached || final(self).nodes@[r.0 as int] is Some,
            old(self).nodes@[a.0 as int] is Some && old(self).nodes@[b.0 as int] is Some
                && !final(self).step_limit_reached ==> forall|x: u8|
                #![trigger leads_on(final(self).nodes@[r.0 as int], x)]
                (leads_on(final(self).nodes@[r.0 as int], x) <==> (leads_on(
                    old(self).nodes@[a.0 as int],
                    x,
                ) || leads_on(old(self).nodes@[b.0 as int], x))),
            old(self).steps_left == 0 ==> final(self).nodes == old(self).nodes && final(self).errors
                == old(self).errors,
            old(self).steps_left > 0 && (old(self).nodes@[a.0 as int] is None
                || old(self).nodes@[b.0 as int] is None) ==> {
                &&& final(self).nodes == old(self).nodes
                &&& final(self).errors@ == old(self).errors@.push(Error::MergedReservedNodes)
            },
        decreases old(self).steps_left,
    {
        if !self.take_step() {
            proof {
                self.in_progress@ = self.in_progress@.remove(reserved.0.0 as int);
            }
            return reserved.0;
        }
        if self.nodes.get(a).is_none() || self.nodes.get(b).is_none() {
            self.errors.push(Error::MergedReservedNodes);
            proof {
                self.in_progress@ = self.in_progress@.remove(reserved.0.0 as int);
            }
            return reserved.0;
        }
        let ghost start = *self;
        let fork_a = self.fork_off(a);
        let ghost after_a = *self;
        let mut fork_b = self.fork_off(b);
        let ghost fork_b0 = fork_b;
        let ghost after_b = *self;
        fork_b.merge(fork_a, self);
        let node = Node::from_fork(fork_b);
        let r = self.insert_reserved(reserved, node);
        proof {
            if !self.step_limit_reached {
                assert(!after_b.step_limit_reached);
                assert(!after_a.step_limit_reached);
                assert(after_a.nodes@[b.0 as int] == start.nodes@[b.0 as int]);
                assert(after_b.steps_left > 0);
                assert forall|x: u8|
                    #![trigger leads_on(self.nodes@[r.0 as int], x)]
                    (leads_on(self.nodes@[r.0 as int], x) <==> (leads_on(
                        old(self).nodes@[a.0 as int],
                        x,
                    ) || leads_on(old(self).nodes@[b.0 as int], x))) by {
                    assert(fork_a.lookup_table@[x as int] is Some <==> leads_on(start.nodes@[a.0 as int], x));
                    assert(fork_b0.lookup_table@[x as int] is Some <==> leads_on(after_a.nodes@[b.0 as int], x));
                    assert(fork_b.lookup_table@[x as int] is Some <==> (fork_b0.lookup_table@[x as int] is Some
                        || fork_a.lookup_table@[x as int] is Some));
                    if exists|t: NodeId| single_target(&fork_b, t) {
                        assert(node matches Node::Rope(rr) && (rr.pattern@[0].has(x) <==> fork_b.lookup_table@[x as int] is Some));
                    }
                }
            }
        }
        r
    }

    /// Builds the reserved slot with `node`, then runs the merges that were
    /// waiting for it.
    pub fn insert_reserved(&mut self, reserved: ReservedId, node: Node<'a, T>) -> (r: NodeId)
        requires
            old(self).wf(),
            reserved.0.0 < old(self).nodes@.len(),
            node.ids_below(old(self).nodes@.len()),
            node matches Node::VariantMatch(m) ==> old(self).matches@.contains(m),
        ensures
            final(self).grows(old(self)),
            final(self).matches == old(self).matches,
            final(self).keeps_below(old(self), reserved.0.0 as int),
            final(self).in_progress@.subset_of(old(self).in_progress@.remove(reserved.0.0 as int)),
            final(self).nodes@[r.0 as int] == Some(node),
            r == reserved.0,
            (forall|i: int|
                0 <= i < old(self).deferred_merges@.len()
                    ==> (#[trigger] old(self).deferred_merges@[i]).awaiting != reserved.0)
                ==> final(self).nodes@ == old(self).nodes@.update(reserved.0.0 as int, Some(node)),
            (forall|i: int|
                0 <= i < old(self).deferred_merges@.len()
                    ==> (#[trigger] old(self).deferred_merges@[i]).awaiting != reserved.0) && old(self).steps_left
                > 0 ==> {
                &&& final(self).errors == old(self).errors
                &&& final(self).merges == old(self).merges
                &&& final(self).joined == old(self).joined
                &&& final(self).step_limit_reached == old(self).step_limit_reached
                &&& final(self).steps_left == old(self).steps_left - 1
            },
        decreases old(self).steps_left,
    {
        let ghost n = old(self).nodes@.len();
        let ghost rid = reserved.0.0;
        self.nodes.set(reserved.0, Some(node));
        proof {
            self.in_progress@ = self.in_progress@.remove(rid as int);
            let m = self.nodes@.len();
            assert forall|j: int| 0 <= j < m implies slot_below(#[trigger] self.nodes@[j], m) by {
                if j != rid {
                    assert(slot_below(old(self).nodes@[j], n));
                }
            }
        }
        let mut pending: Vec<DeferredMerge> = Vec::new();
        std::mem::swap(&mut pending, &mut self.deferred_merges);
        let mut related: Vec<DeferredMerge> = Vec::new();
        proof {
            if !old(self).step_limit_reached && old(self).errors@.len() == 0 {
                assert forall|x: int|
                    0 <= x < n && (#[trigger] self.nodes@[x]) is None implies self.in_progress@.contains(x) || fills(self.deferred_merges@, x) || fills(related@, x) || fills_from(
                        pending@,
                        0,
                        x,
                    ) by {
                    assert(old(self).nodes@[x] is None);
                }
            }
        }
        let mut i: usize = 0;
        while i < pending.len()
            invariant
                i <= pending@.len(),
                self.links_wf(),
                forall|j: int|
                    0 <= j < pending@.len() ==> {
                        &&& (#[trigger] pending@[j]).awaiting.0 < self.nodes@.len()
                        &&& pending@[j].with.0 < self.nodes@.len()
                        &&& pending@[j].into.0.0 < self.nodes@.len()
                        &&& pending@[j].awaiting.0 < pending@[j].into.0.0
                        &&& pending@[j].awaiting != reserved.0 ==> self.nodes@[pending@[j].awaiting.0 as int] is None
                    },
                forall|j: int|
                    0 <= j < related@.len() ==> {
                        &&& (#[trigger] related@[j]).awaiting.0 < self.nodes@.len()
                        &&& related@[j].with.0 < self.nodes@.len()
                        &&& related@[j].into.0.0 < self.nodes@.len()
                        &&& related@[j].awaiting == reserved.0
                        &&& reserved.0.0 < related@[j].into.0.0
                    },
                self.awaiting_reserved(),
                self.nodes@ == old(self).nodes@.update(reserved.0.0 as int, Some(node)),
                n == old(self).nodes@.len(),
                rid == reserved.0.0,
                pending@ == old(self).deferred_merges@,
                (forall|j: int|
                    0 <= j < pending@.len() ==> (#[trigger] pending@[j]).awaiting != reserved.0)
                    ==> related@.len() == 0,
                self.steps_left == old(self).steps_left,
                self.step_limit_reached == old(self).step_limit_reached,
                self.errors == old(self).errors,
                self.merges == old(self).merges,
                self.joined == old(self).joined,
                self.in_progress@ == old(self).in_progress@.remove(rid as int),
                self.matches == old(self).matches,
                !old(self).step_limit_reached && old(self).errors@.len() == 0 ==> forall|x: int|
                    0 <= x < n && (#[trigger] self.nodes@[x]) is None ==> self.in_progress@.contains(x) || fills(self.deferred_merges@, x) || fills(related@, x) || fills_from(
                        pending@,
                        i as int,
                        x,
                    ),
            decreases pending@.len() - i,
        {
            let merge = pending[i];
            let ghost prev_deferred = self.deferred_merges@;
            let ghost prev_related = related@;
            if merge.awaiting.0 == reserved.0.0 {
                related.push(merge);
            } else {
                self.deferred_merges.push(merge);
            }
            proof {
                if !old(self).step_limit_reached && old(self).errors@.len() == 0 {
                    assert forall|x: int|
                        0 <= x < n && (#[trigger] self.nodes@[x]) is None implies self.in_progress@.contains(x) || fills(self.deferred_merges@, x) || fills(related@, x) || fills_from(
                            pending@,
                            i + 1,
                            x,
                        ) by {
                        if fills(prev_deferred, x) {
                            let j = choose|j: int| 0 <= j < prev_deferred.len() && (#[trigger] prev_deferred[j]).into.0.0 == x;
                            assert(self.deferred_merges@[j] == prev_deferred[j]);
                        } else if fills(prev_related, x) {
                            let j = choose|j: int| 0 <= j < prev_related.len() && (#[trigger] prev_related[j]).into.0.0 == x;
                            assert(related@[j] == prev_related[j]);
                        } else if fills_from(pending@, i as int, x) {
                            let j = choose|j: int| i <= j < pending@.len() && (#[trigger] pending@[j]).into.0.0 == x;
                            if j == i {
                                if merge.awaiting.0 == reserved.0.0 {
                                    assert(related@[prev_related.len() as int] == merge);
                                } else {
                                    assert(self.deferred_merges@[prev_deferred.len() as int] == merge);
                                }
                            }
                        }
                    }
                }
            }
            i = i + 1;
        }
        if !self.take_step() {
            return reserved.0;
        }
        proof {
            self.in_progress@ = self.in_progress@.union(Set::new(|x: int| fills(related@, x)));
        }
        let mut k: usize = 0;
        while k < related.len()
            invariant
                k <= related@.len(),
                self.wf(),
                forall|j: int|
                    0 <= j < related@.len() ==> {
                        &&& (#[trigger] related@[j]).awaiting.0 < self.nodes@.len()
                        &&& related@[j].with.0 < self.nodes@.len()
                        &&& related@[j].into.0.0 < self.nodes@.len()
                        &&& related@[j].awaiting == reserved.0
                        &&& reserved.0.0 < related@[j].into.0.0
                    },
                old(self).nodes@.len() <= self.nodes@.len(),
                self.keeps_below(old(self), reserved.0.0 as int),
                self.nodes@[reserved.0.0 as int] == Some(node),
                related@.len() == 0 ==> self.nodes@ == old(self).nodes@.update(
                    reserved.0.0 as int,
                    Some(node),
                ),
                related@.len() == 0 ==> {
                    &&& self.errors == old(self).errors
                    &&& self.merges == old(self).merges
                    &&& self.joined == old(self).joined
                    &&& self.step_limit_reached == old(self).step_limit_reached
                    &&& self.steps_left == old(self).steps_left - 1
                },
                self.steps_left < old(self).steps_left,
                old(self).step_limit_reached ==> self.step_limit_reached,
                old(self).errors@.len() <= self.errors@.len(),
                self.matches == old(self).matches,
                forall|x: int|
                    #[trigger] self.in_progress@.contains(x) ==> old(self).in_progress@.remove(
                        reserved.0.0 as int,
                    ).contains(x) || fills_from(related@, k as int, x),
                forall|k: u128| #[trigger]
                    old(self).merges@.contains_key(k) ==> self.merges@.contains_key(k) && self.merges@[k]
                        == old(self).merges@[k],
            decreases related@.len() - k,
        {
            let merge = related[k];
            let ghost before = self.in_progress@;
            self.merge_unchecked(merge.awaiting, merge.with, merge.into);
            proof {
                assert forall|x: int|
                    #[trigger] self.in_progress@.contains(x) implies old(self).in_progress@.remove(
                        reserved.0.0 as int,
                    ).contains(x) || fills_from(related@, k + 1, x) by {
                    assert(before.contains(x));
                    assert(x != merge.into.0.0);
                    if fills_from(related@, k as int, x) {
                        let j = choose|j: int| k <= j < related@.len() && (#[trigger] related@[j]).into.0.0 == x;
                        assert(j != k);
                    }
                }
            }
            k = k + 1;
        }
        reserved.0
    }

    /// The node `node_id` as a fork: forks are copied, ropes split off their
    /// first byte, and a variant match (or a reserved slot) becomes a fork
    /// without branches that misses to it.
    pub fn fork_off(&mut self, node_id: NodeId) -> (f: Fork)
        requires
            old(self).wf(),
            node_id.0 < old(self).nodes@.len(),
        ensures
            final(self).extends(old(self)),
            f.ids_below(final(self).nodes@.len()),
            old(self).steps_left > 0 ==> match old(self).nodes@[node_id.0 as int] {
                Some(Node::Fork(g)) => f.same(&g),
                Some(Node::Rope(r)) => r.pattern@.len() > 0 ==> r.splits_into(f, final(self).nodes@),
                _ => f.table_is_empty() && f.miss == Some(node_id) && f.record_miss_backtrack_idx
                    == Some(node_id),
            },
            old(self).steps_left == 0 ==> final(self).step_limit_reached,
            !final(self).step_limit_reached ==> forall|b: u8|
                #![trigger f.lookup_table@[b as int]]
                (f.lookup_table@[b as int] is Some <==> leads_on(old(self).nodes@[node_id.0 as int], b)),
        decreases old(self).steps_left,
    {
        if !self.take_step() {
            return Fork::new();
        }
        let copied: Option<Result<Fork, Rope>> = match self.nodes.get(node_id) {
            Some(Node::Fork(fork)) => Some(Ok(fork.duplicate())),
            Some(Node::Rope(rope)) => Some(Err(rope.duplicate())),
            _ => None,
        };
        match copied {
            Some(Ok(fork)) => fork,
            Some(Err(rope)) => {
                if rope.pattern.len() == 0 {
                    self.errors.push(Error::ForkedOffEmptyRope);
                    Fork::new()
                } else {
                    let ghost copy = rope;
                    let f = rope.fork_off(self);
                    proof {
                        lemma_same_rope_splits(copy, old(self).nodes@[node_id.0 as int]->Some_0->Rope_0, f, self.nodes@);
                        lemma_split_leads_on(old(self).nodes@[node_id.0 as int]->Some_0->Rope_0, f, self.nodes@);
                    }
                    f
                }
            },
            None => Fork::new().with_miss(Some((node_id, true)), self),
        }
    }
}

/// The miss of one part of a sequence or loop: it keeps its backtrack record
/// only for the first part, where the whole pattern starts.
pub open spec fn spec_adjust_miss(miss: Option<(NodeId, bool)>, is_last: bool) -> Option<(NodeId, bool)> {
    match miss {
        Some((id, record)) => Some((id, record && is_last)),
        None => None,
    }
}

fn adjust_miss(miss: Option<(NodeId, bool)>, is_last: bool) -> (r: Option<(NodeId, bool)>)
    ensures
        r == spec_adjust_miss(miss, is_last),
{
    match miss {
        Some((id, record)) => Some((id, record && is_last)),
        None => None,
    }
}

/// `miss`, when present, names a slot below `n`.
pub open spec fn miss_below(miss: Option<(NodeId, bool)>, n: nat) -> bool {
    miss matches Some((id, _)) ==> id.0 < n
}

impl<'a, T: VariantMatch> GraphBuilder<'a, T> {
    /// The node that matches `specification` and then goes to `target`; on
    /// a failed match it goes to `miss`, recording the backtrack position
    /// when the flag of `miss` is set.
    ///
    /// A loop with a bound `max` chains one copy of its body, then the copies
    /// from `min` up to `max - 1` (each optional), then `min` required
    /// copies; so when `min == max` the body is chained `min + 1` times.
    pub fn node_for_specification(
        &mut self,
        specification: &Specification,
        target: NodeId,
        miss: Option<(NodeId, bool)>,
    ) -> (node: Node<'a, T>)
        requires
            old(self).wf(),
            target.0 < old(self).nodes@.len(),
            miss_below(miss, old(self).nodes@.len()),
            buildable(*specification),
        ensures
            final(self).extends(old(self)),
            node.ids_below(final(self).nodes@.len()),
            !(node is VariantMatch),
            miss is None ==> match *specification {
                Specification::Byte(v) => {
                    &&& node matches Node::Rope(r) && r.pattern@.len() == 1 && r.target == target
                        && r.miss is None && r.record_miss_backtrack_idx is None && forall|b: u8|
                        #[trigger] r.pattern@[0].has(b) <==> b == v
                    &&& *final(self) == *old(self)
                },
                Specification::Sequence(seq) => (forall|i: int|
                    0 <= i < seq.specifications@.len() ==> is_byte_class(
                        #[trigger] seq.specifications@[i],
                    )) ==> {
                    &&& node matches Node::Rope(r) && r.pattern@.len()
                        == seq.specifications@.len() && r.target == target && r.miss is None
                        && r.record_miss_backtrack_idx is None && forall|i: int, b: u8|
                        0 <= i < r.pattern@.len() ==> (#[trigger] r.pattern@[i].has(b)
                            <==> in_byte_class(seq.specifications@[i], b))
                    &&& *final(self) == *old(self)
                },
                Specification::Any(any) => all_bytes(any.specifications@)
                    && any.specifications@.len() > 0 ==> {
                    &&& node matches Node::Rope(r) && r.pattern@.len() == 1 && r.target == target
                        && r.miss is None && r.record_miss_backtrack_idx is None && forall|b: u8|
                        #[trigger] r.pattern@[0].has(b) <==> has_byte(any.specifications@, b)
                    &&& *final(self) == *old(self)
                },
                Specification::Loop(l) => l.min > 0 && is_class_sequence(*l.specification) ==> (node matches Node::Rope(
                    r,
                ) && r.miss is None && r.record_miss_backtrack_idx is None && reads_classes(
                    r.pattern@,
                    classes_of(*l.specification),
                )),
                _ => true,
            },
            specification matches Specification::Loop(l) ==> (l.max matches Some(max) ==> (l.min < max
                && is_class_sequence(*l.specification) && miss is None && old(self).nodes@[target.0 as int] is Some
                && old(self).nodes@[target.0 as int]->Some_0 is VariantMatch ==> loop_chain(
                final(self).nodes@,
                node,
                classes_of(*l.specification),
                max as nat,
                l.min as nat,
                target,
            ) && only_slots_differ(*old(self), *final(self)))),
            specification matches Specification::Loop(l) ==> (l.max is None && is_class_sequence(*l.specification)
                && miss is None && old(self).nodes@[target.0 as int] is Some && old(
                self,
            ).nodes@[target.0 as int]->Some_0 is VariantMatch && old(self).steps_left > 0 ==> {
                &&& star_chain(final(self).nodes@, node, classes_of(*l.specification), l.min as nat, target)
                &&& final(self).errors == old(self).errors
                &&& final(self).merges == old(self).merges
                &&& final(self).joined == old(self).joined
                &&& final(self).step_limit_reached == old(self).step_limit_reached
                &&& final(self).steps_left == old(self).steps_left - 1
            }),
            specification matches Specification::Loop(l) ==> (l.max matches Some(max) ==> (l.min == max
                && is_class_sequence(*l.specification) && miss is None ==> loop_chain(
                final(self).nodes@,
                node,
                classes_of(*l.specification),
                (max + 1) as nat,
                (max + 1) as nat,
                target,
            ) && only_slots_differ(*old(self), *final(self)))),
            is_class_sequence(*specification) && miss_to_match(old(self).nodes@, miss) ==> {
                &&& node is Rope
                &&& node->Rope_0.target == target
                &&& node->Rope_0.miss == Some((miss->0).0)
                &&& node->Rope_0.record_miss_backtrack_idx == (if (miss->0).1 {
                    Some((miss->0).0)
                } else {
                    None
                })
                &&& reads_classes(node->Rope_0.pattern@, classes_of(*specification))
                &&& *final(self) == *old(self)
            },
        decreases specification,
    {
        match specification {
            Specification::Byte(value) => {
                let mut pattern: Vec<ByteSet> = Vec::new();
                pattern.push(ByteSet::singleton(*value));
                Rope::new(pattern, target).with_miss(miss, self)
            },
            Specification::Any(any) => match Fork::try_from_any(any, target) {
                Some(fork) => {
                    let ghost f0 = fork;
                    let fork = fork.with_miss(miss, self);
                    proof {
                        if (miss is None || miss_to_match(old(self).nodes@, miss)) && any.specifications@.len() > 0 {
                            let first = any.specifications@[0];
                            assert(first is Byte);
                            if let Specification::Byte(b0) = first {
                                assert(has_byte(any.specifications@, b0));
                                assert(fork.lookup_table@[b0 as int] == Some(target));
                                assert(single_target(&fork, target));
                            }
                        }
                    }
                    Node::from_fork(fork)
                },
                None => {
                    let mut fork = Fork::new().with_miss(miss, self);
                    let items = any.iter();
                    let mut i: usize = 0;
                    while i < items.len()
                        invariant
                            i <= items@.len(),
                            items@ == any.specifications@,
                            *specification == Specification::Any(*any),
                            buildable(*specification),
                            self.extends(old(self)),
                            fork.ids_below(self.nodes@.len()),
                            target.0 < self.nodes@.len(),
                            miss_below(miss, self.nodes@.len()),
                        decreases items@.len() - i,
                    {
                        proof {
                            lemma_all_buildable_index(items@, i as int);
                        }
                        assert(decreases_to!(*specification => items@[i as int]));
                        let node = self.node_for_specification(&items[i], target, miss);
                        match node {
                            Node::Fork(f) => fork.merge(f, self),
                            Node::Rope(rope) => {
                                if rope.pattern.len() == 0 {
                                    self.errors.push(Error::ForkedOffEmptyRope);
                                } else {
                                    let f = rope.fork_off(self);
                                    fork.merge(f, self);
                                }
                            },
                            Node::VariantMatch(_) => {},
                        }
                        i = i + 1;
                    }
                    Node::from_fork(fork)
                },
            },
            Specification::Sequence(sequence) => match Rope::try_from_sequence(sequence, target) {
                Some(rope) => rope.with_miss(miss, self),
                None => {
                    let items = sequence.iter();
                    let len = items.len();
                    assert(len > 0);
                    proof {
                        lemma_all_buildable_index(items@, len - 1);
                    }
                    assert(decreases_to!(*specification => items@[len - 1]));
                    let mut node = self.node_for_specification(
                        &items[len - 1],
                        target,
                        adjust_miss(miss, len == 1),
                    );
                    let mut k: usize = len - 1;
                    while k > 0
                        invariant
                            k < items@.len(),
                            items@.len() == len,
                            items@ == sequence.specifications@,
                            *specification == Specification::Sequence(*sequence),
                            buildable(*specification),
                            self.extends(old(self)),
                            node.ids_below(self.nodes@.len()),
                            !(node is VariantMatch),
                            miss_below(miss, self.nodes@.len()),
                        decreases k,
                    {
                        let next_target = self.insert(node);
                        k = k - 1;
                        proof {
                            lemma_all_buildable_index(items@, k as int);
                        }
                        assert(decreases_to!(*specification => items@[k as int]));
                        node = self.node_for_specification(
                            &items[k],
                            next_target,
                            adjust_miss(miss, k == 0),
                        );
                    }
                    node
                },
            },
            Specification::Loop(l) => {
                let body = l.specification();
                assert(decreases_to!(*specification => *body));
                let min = l.min();
                match l.max() {
                    Some(max) => {
                        let terminal = target;
                        let last_miss = if min == max {
                            match miss {
                                Some((node_id, _)) => Some((node_id, false)),
                                None => None,
                            }
                        } else {
                            Some((terminal, true))
                        };
                        let ghost chained = min < max && is_class_sequence(*body) && miss is None && old(
                            self,
                        ).nodes@[target.0 as int] is Some && old(self).nodes@[target.0 as int]->Some_0 is VariantMatch;
                        let ghost cl = classes_of(*body);
                        let mut node = self.node_for_specification(body, terminal, last_miss);
                        let mut i: usize = min;
                        while i < max - 1
                            invariant
                                *specification == Specification::Loop(*l),
                                *body == *l.specification,
                                buildable(*specification),
                                l.max == Some(max),
                                self.extends(old(self)),
                                node.ids_below(self.nodes@.len()),
                                !(node is VariantMatch),
                                terminal.0 < self.nodes@.len(),
                                miss_below(miss, self.nodes@.len()),
                                terminal == target,
                                target.0 < old(self).nodes@.len(),
                                cl == classes_of(*body),
                                chained == (min < max && is_class_sequence(*body) && miss is None && old(
                                    self,
                                ).nodes@[target.0 as int] is Some && old(self).nodes@[target.0 as int]->Some_0 is VariantMatch),
                                chained ==> only_slots_differ(*old(self), *self),
                                min == max && is_class_sequence(*body) && miss is None ==> {
                                    &&& i == min
                                    &&& only_slots_differ(*old(self), *self)
                                    &&& loop_chain(self.nodes@, node, cl, 1, 1, target)
                                },
                                chained ==> min <= i <= max - 1 && loop_chain(
                                    self.nodes@,
                                    node,
                                    cl,
                                    (i - min + 1) as nat,
                                    0,
                                    target,
                                ),
                            decreases max - 1 - i,
                        {
                            let ghost before = *self;
                            let ghost this = node;
                            let next_target = self.insert(node);
                            let ghost after_insert = *self;
                            proof {
                                lemma_node_same_itself(this);
                                assert(holds_same(self.nodes@, next_target.0 as int, this));
                                assert(self.nodes@[target.0 as int] == old(self).nodes@[target.0 as int]);
                            }
                            assert(decreases_to!(*specification => *body));
                            node = self.node_for_specification(
                                body,
                                next_target,
                                Some((terminal, true)),
                            );
                            proof {
                                if chained {
                                    let k = (i - min + 1) as nat;
                                    let m = self.nodes@[next_target.0 as int]->Some_0;
                                    assert(miss_to_match(after_insert.nodes@, Some((terminal, true))));
                                    assert forall|q: int| 0 <= q < before.nodes@.len() implies #[trigger] after_insert.nodes@[q]
                                        == before.nodes@[q] by {}
                                    lemma_loop_chain_extend(before.nodes@, after_insert.nodes@, this, cl, k, 0, target);
                                    lemma_loop_chain_same(after_insert.nodes@, this, m, cl, k, 0, target);
                                    assert(self.nodes@ == after_insert.nodes@);
                                    assert(loop_chain(self.nodes@, node, cl, k + 1, 0, target));
                                }
                            }
                            i = i + 1;
                        }
                        let ghost pre = *self;
                        let r = self.repeat_before(specification, body, min, node, miss);
                        proof {
                            if min == max && is_class_sequence(*body) && miss is None {
                                assert(loop_chain(pre.nodes@, node, cl, 1, 1, target));
                                assert(loop_chain(self.nodes@, r, cl, 1 + min as nat, 1 + min as nat, target));
                            }
                            if chained {
                                assert(loop_chain(pre.nodes@, node, cl, (max - min) as nat, 0, target));
                                assert(loop_chain(self.nodes@, r, cl, (max - min) as nat + min as nat, min as nat, target));
                            }
                        }
                        r
                    },
                    None => {
                        let ghost starred = is_class_sequence(*body) && miss is None && old(self).nodes@[target.0 as int]
                            is Some && old(self).nodes@[target.0 as int]->Some_0 is VariantMatch && old(self).steps_left > 0;
                        let ghost cl = classes_of(*body);
                        let reserved = self.reserve();
                        let loop_end = self.node_for_specification(
                            body,
                            reserved.0,
                            Some((target, true)),
                        );
                        proof {
                            if starred {
                                assert forall|i: int| 0 <= i < self.deferred_merges@.len() implies (#[trigger] self.deferred_merges@[i]).awaiting
                                    != reserved.0 by {
                                    assert(self.deferred_merges@[i] == old(self).deferred_merges@[i]);
                                    assert(old(self).deferred_merges@[i].awaiting.0 < old(self).nodes@.len());
                                }
                            }
                        }
                        let ghost before_fill = *self;
                        let start_id = self.insert_reserved(reserved, loop_end);
                        assert(decreases_to!(*specification => *body));
                        let node = self.node_for_specification(
                            body,
                            start_id,
                            Some((target, true)),
                        );
                        proof {
                            if starred {
                                assert(self.nodes@[start_id.0 as int] == Some(loop_end));
                                assert(star_chain(self.nodes@, node, cl, 0, target));
                            }
                        }
                        let ghost pre = *self;
                        let r = self.repeat_before(specification, body, min, node, miss);
                        proof {
                            if starred {
                                assert(star_chain(pre.nodes@, node, cl, 0, target));
                                assert(star_chain(self.nodes@, r, cl, 0 + min as nat, target));
                            }
                        }
                        r
                    },
                }
            },
        }
    }

    /// Puts `min` copies of the loop body `body` in front of `node`; the
    /// first copy carries the backtrack record of `miss`.
    fn repeat_before(
        &mut self,
        specification: &Specification,
        body: &Specification,
        min: usize,
        node: Node<'a, T>,
        miss: Option<(NodeId, bool)>,
    ) -> (r: Node<'a, T>)
        requires
            old(self).wf(),
            node.ids_below(old(self).nodes@.len()),
            !(node is VariantMatch),
            miss_below(miss, old(self).nodes@.len()),
            specification matches Specification::Loop(l) && *l.specification == *body,
            buildable(*specification),
        ensures
            final(self).extends(old(self)),
            r.ids_below(final(self).nodes@.len()),
            !(r is VariantMatch),
            min == 0 ==> r == node && *final(self) == *old(self),
            min > 0 ==> exists|t: int|
                0 <= t < final(self).nodes@.len() && #[trigger] holds_same(final(self).nodes@, t, node),
            min > 0 && miss is None && is_class_sequence(*body) ==> (r matches Node::Rope(rope)
                && rope.miss is None && rope.record_miss_backtrack_idx is None && reads_classes(
                rope.pattern@,
                classes_of(*body),
            )),
            miss is None && is_class_sequence(*body) ==> forall|k: nat, q: nat, t: NodeId|
                #[trigger] loop_chain(old(self).nodes@, node, classes_of(*body), k, q, t) ==> loop_chain(
                    final(self).nodes@,
                    r,
                    classes_of(*body),
                    k + min as nat,
                    q + min as nat,
                    t,
                ),
            miss is None && is_class_sequence(*body) ==> only_slots_differ(*old(self), *final(self)),
            miss is None && is_class_sequence(*body) ==> forall|q: nat, t: NodeId|
                #[trigger] star_chain(old(self).nodes@, node, classes_of(*body), q, t) ==> star_chain(
                    final(self).nodes@,
                    r,
                    classes_of(*body),
                    q + min as nat,
                    t,
                ),
        decreases specification, 1nat,
    {
        let ghost first = node;
        let mut node = node;
        let mut j: usize = 0;
        while j < min
            invariant
                specification matches Specification::Loop(l) && *l.specification == *body,
                buildable(*specification),
                self.extends(old(self)),
                node.ids_below(self.nodes@.len()),
                !(node is VariantMatch),
                !(first is VariantMatch),
                miss_below(miss, self.nodes@.len()),
                j <= min,
                j == 0 ==> node == first && *self == *old(self),
                j > 0 ==> exists|t: int|
                    0 <= t < self.nodes@.len() && #[trigger] holds_same(self.nodes@, t, first),
                j > 0 && miss is None && is_class_sequence(*body) ==> (node matches Node::Rope(rope)
                    && rope.miss is None && rope.record_miss_backtrack_idx is None && reads_classes(
                    rope.pattern@,
                    classes_of(*body),
                )),
                miss is None && is_class_sequence(*body) ==> forall|k: nat, q: nat, t: NodeId|
                    #[trigger] loop_chain(old(self).nodes@, first, classes_of(*body), k, q, t) ==> loop_chain(
                        self.nodes@,
                        node,
                        classes_of(*body),
                        k + j as nat,
                        q + j as nat,
                        t,
                    ),
                miss is None && is_class_sequence(*body) ==> only_slots_differ(*old(self), *self),
                miss is None && is_class_sequence(*body) ==> forall|q: nat, t: NodeId|
                    #[trigger] star_chain(old(self).nodes@, first, classes_of(*body), q, t) ==> star_chain(
                        self.nodes@,
                        node,
                        classes_of(*body),
                        q + j as nat,
                        t,
                    ),
            decreases min - j,
        {
            let ghost before = *self;
            let ghost this = node;
            let next_target = self.insert(node);
            proof {
                lemma_node_same_itself(this);
                assert(holds_same(self.nodes@, next_target.0 as int, this));
            }
            proof {
                if j == 0 {
                    if self.nodes@.len() == before.nodes@.len() + 1 && next_target.0 == before.nodes@.len() {
                        assert(self.nodes@[next_target.0 as int] == Some(this));
                        lemma_node_same_itself(this);
                    }
                    assert(holds_same(self.nodes@, next_target.0 as int, first));
                } else {
                    let t = choose|t: int| 0 <= t < before.nodes@.len() && #[trigger] holds_same(before.nodes@, t, first);
                    assert(self.nodes@[t] == before.nodes@[t]);
                    assert(holds_same(self.nodes@, t, first));
                }
            }
            let ghost after_insert = *self;
            let is_last = j + 1 == min;
            assert(decreases_to!(*specification => *body));
            node = self.node_for_specification(body, next_target, adjust_miss(miss, is_last));
            proof {
                if miss is None && is_class_sequence(*body) {
                    let cl = classes_of(*body);
                    let m = self.nodes@[next_target.0 as int]->Some_0;
                    assert(self.nodes@[next_target.0 as int] == after_insert.nodes@[next_target.0 as int]);
                    assert forall|k: nat, q: nat, t: NodeId|
                        #[trigger] loop_chain(old(self).nodes@, first, cl, k, q, t) implies loop_chain(
                            self.nodes@,
                            node,
                            cl,
                            k + (j + 1) as nat,
                            q + (j + 1) as nat,
                            t,
                        ) by {
                        assert(loop_chain(before.nodes@, this, cl, k + j as nat, q + j as nat, t));
                        assert forall|i: int| 0 <= i < before.nodes@.len() implies #[trigger] after_insert.nodes@[i]
                            == before.nodes@[i] by {}
                        lemma_loop_chain_extend(before.nodes@, after_insert.nodes@, this, cl, k + j as nat, q + j as nat, t);
                        lemma_loop_chain_same(after_insert.nodes@, this, m, cl, k + j as nat, q + j as nat, t);
                        assert(self.nodes@ == after_insert.nodes@);
                        assert(spec_adjust_miss(miss, is_last) is None);
                    }
                    assert forall|q: nat, t: NodeId|
                        #[trigger] star_chain(old(self).nodes@, first, cl, q, t) implies star_chain(
                            self.nodes@,
                            node,
                            cl,
                            q + (j + 1) as nat,
                            t,
                        ) by {
                        assert(star_chain(before.nodes@, this, cl, q + j as nat, t));
                        assert forall|i: int| 0 <= i < before.nodes@.len() implies #[trigger] after_insert.nodes@[i]
                            == before.nodes@[i] by {}
                        lemma_star_chain_extend(before.nodes@, after_insert.nodes@, this, cl, q + j as nat, t);
                        lemma_star_chain_same(after_insert.nodes@, this, m, cl, q + j as nat, t);
                        assert(self.nodes@ == after_insert.nodes@);
                        assert(spec_adjust_miss(miss, is_last) is None);
                    }
                    assert(spec_adjust_miss(miss, is_last) is None);
                    assert(node is Rope);
                    assert(reads_classes(node->Rope_0.pattern@, classes_of(*body)));
                }
                let t = choose|t: int| 0 <= t < after_insert.nodes@.len() && #[trigger] holds_same(after_insert.nodes@, t, first);
                assert(self.nodes@[t] == after_insert.nodes@[t]);
                assert(holds_same(self.nodes@, t, first));
            }
            j = j + 1;
        }
        node
    }

    /// The fork that starts matching the specification of `variant_match`
    /// and ends at its (newly inserted) variant match node.
    pub fn fork_for_variant_match(&mut self, variant_match: &'a (Specification, T)) -> (f: Fork)
        requires
            old(self).wf(),
            buildable(variant_match.0),
        ensures
            final(self).grows(old(self)),
            final(self).keeps_below(old(self), old(self).nodes@.len() as int),
            final(self).matches@ == old(self).matches@.insert(&variant_match.1),
            f.ids_below(final(self).nodes@.len()),
            final(self).nodes@[old(self).nodes@.len() as int] == Some(
                Node::<'a, T>::VariantMatch(&variant_match.1),
            ),
            final(self).nodes@.len() > old(self).nodes@.len(),
            is_class_sequence(variant_match.0) && !final(self).step_limit_reached ==> class_fork(
                f,
                classes_of(variant_match.0),
                NodeId(old(self).nodes@.len() as usize),
                final(self).nodes@,
            ),
            is_class_sequence(variant_match.0) && old(self).steps_left > 0 ==> {
                &&& final(self).steps_left == old(self).steps_left - 1
                &&& final(self).errors == old(self).errors
                &&& final(self).step_limit_reached == old(self).step_limit_reached
                &&& final(self).merges == old(self).merges
                &&& final(self).joined == old(self).joined
            },
            is_class_sequence(variant_match.0) && classes_of(variant_match.0).len() == 1 && old(self).steps_left
                > 0 ==> final(self).nodes@.len() == old(self).nodes@.len() + 1,
            unbounded_class_loop(variant_match.0) && old(self).steps_left > 1 ==> {
                &&& final(self).steps_left == old(self).steps_left - 2
                &&& final(self).errors == old(self).errors
                &&& final(self).step_limit_reached == old(self).step_limit_reached
                &&& final(self).merges == old(self).merges
                &&& final(self).joined == old(self).joined
                &&& fork_into_star(
                    f,
                    final(self).nodes@,
                    classes_of(*variant_match.0->Loop_0.specification),
                    (variant_match.0->Loop_0.min - 1) as nat,
                    NodeId(old(self).nodes@.len() as usize),
                )
            },
            bounded_class_loop(variant_match.0) && old(self).steps_left > 0 ==> {
                &&& final(self).steps_left == old(self).steps_left - 1
                &&& final(self).errors == old(self).errors
                &&& final(self).step_limit_reached == old(self).step_limit_reached
                &&& final(self).merges == old(self).merges
                &&& final(self).joined == old(self).joined
                &&& fork_into_chain(
                    f,
                    final(self).nodes@,
                    classes_of(*variant_match.0->Loop_0.specification),
                    (variant_match.0->Loop_0.max->0 - 1) as nat,
                    (variant_match.0->Loop_0.min - 1) as nat,
                    NodeId(old(self).nodes@.len() as usize),
                )
            },
    {
        let terminal = self.insert(Node::VariantMatch(&variant_match.1));
        let node = self.node_for_specification(&variant_match.0, terminal, None);
        match node {
            Node::Fork(fork) => fork,
            Node::Rope(rope) => {
                let mut fork = Fork::new();
                if rope.pattern.len() == 0 {
                    self.errors.push(Error::ForkedOffEmptyRope);
                } else {
                    let ghost r0 = rope;
                    let f = rope.fork_off(self);
                    let ghost before = *self;
                    let ghost empty = fork;
                    assert forall|b: int| 0 <= b < 256 implies (#[trigger] empty.lookup_table@[b]) is None
                        || f.lookup_table@[b] is None by {
                        assert(empty.lookup_table@[(b as u8) as int] is None);
                    }
                    fork.merge(f, self);
                    proof {
                        if unbounded_class_loop(variant_match.0) && old(self).steps_left > 1 {
                            let l = variant_match.0->Loop_0;
                            let cl = classes_of(*l.specification);
                            assert(star_chain(before.nodes@, Node::<'a, T>::Rope(r0), cl, l.min as nat, terminal));
                            let t = r0.target;
                            assert(self.nodes@ == before.nodes@);
                            assert forall|b: u8| #![trigger fork.lookup_table@[b as int]]
                                fork.lookup_table@[b as int] == if in_byte_class(cl[0], b) {
                                    Some(t)
                                } else {
                                    None
                                } by {
                                assert(empty.lookup_table@[b as int] is None);
                                assert(r0.pattern@[0].has(b) <==> in_byte_class(cl[0], b));
                            }
                            assert(self.nodes@[t.0 as int] is Some);
                        }
                    }
                    proof {
                        if bounded_class_loop(variant_match.0) && before.steps_left > 0 {
                            let l = variant_match.0->Loop_0;
                            let cl = classes_of(*l.specification);
                            let max = l.max->0;
                            assert(loop_chain(before.nodes@, Node::<'a, T>::Rope(r0), cl, max as nat, l.min as nat, terminal));
                            let t = r0.target;
                            assert(self.nodes@ == before.nodes@);
                            assert forall|b: u8| #![trigger fork.lookup_table@[b as int]]
                                fork.lookup_table@[b as int] == if in_byte_class(cl[0], b) {
                                    Some(t)
                                } else {
                                    None
                                } by {
                                assert(empty.lookup_table@[b as int] is None);
                                assert(r0.pattern@[0].has(b) <==> in_byte_class(cl[0], b));
                            }
                            assert(self.nodes@[t.0 as int] is Some);
                        }
                    }
                    proof {
                        if is_class_sequence(variant_match.0) && !self.step_limit_reached {
                            let classes = classes_of(variant_match.0);
                            assert(reads_classes(r0.pattern@, classes));
                            assert forall|b: u8| #![trigger fork.lookup_table@[b as int]]
                                fork.lookup_table@[b as int] == f.lookup_table@[b as int] by {
                                assert(empty.lookup_table@[b as int] is None);
                            }
                            if classes.len() == 1 {
                                assert forall|b: u8| #![trigger fork.lookup_table@[b as int]]
                                    fork.lookup_table@[b as int] == if in_byte_class(classes[0], b) {
                                        Some(terminal)
                                    } else {
                                        None
                                    } by {
                                    assert(r0.pattern@[0].has(b) <==> in_byte_class(classes[0], b));
                                }
                            } else {
                                let t = choose|t: NodeId|
                                    #![trigger before.nodes@[t.0 as int]]
                                    {
                                        &&& t.0 < before.nodes@.len()
                                        &&& before.nodes@[t.0 as int] matches Some(Node::Rope(rest)) && same_pattern(
                                            rest.pattern@,
                                            r0.pattern@.drop_first(),
                                        ) && rest.target == r0.target && rest.miss == r0.miss
                                            && rest.record_miss_backtrack_idx is None
                                        &&& forall|b: u8|
                                            #![trigger f.lookup_table@[b as int]]
                                            f.lookup_table@[b as int] == if r0.pattern@[0].has(b) {
                                                Some(t)
                                            } else {
                                                None
                                            }
                                    };
                                assert(self.nodes@[t.0 as int] == before.nodes@[t.0 as int]);
                                let rest = self.nodes@[t.0 as int]->Some_0->Rope_0;
                                assert forall|i: int, b: u8|
                                    0 <= i < rest.pattern@.len() implies (#[trigger] rest.pattern@[i].has(b)
                                    <==> in_byte_class(classes.drop_first()[i], b)) by {
                                    assert(rest.pattern@[i].same(&r0.pattern@.drop_first()[i]));
                                    assert(r0.pattern@[i + 1].has(b) <==> in_byte_class(classes[i + 1], b));
                                }
                                assert(class_rope(self.nodes@[t.0 as int], classes.drop_first(), terminal));
                                assert forall|b: u8| #![trigger fork.lookup_table@[b as int]]
                                    fork.lookup_table@[b as int] == if in_byte_class(classes[0], b) {
                                        Some(t)
                                    } else {
                                        None
                                    } by {
                                    assert(r0.pattern@[0].has(b) <==> in_byte_class(classes[0], b));
                                }
                            }
                        }
                    }
                }
                fork
            },
            Node::VariantMatch(_) => Fork::new(),
        }
    }
}

/// Starting at `node`, `k` ropes follow one another through the slots, each
/// reading the byte classes `classes`, the last one going to `target`. The
/// first `req` of them have neither miss nor backtrack record; each later
/// one misses to `target`, recording the position on entry, so that a run
/// stopped between two of them ends at `target` where that rope began.
pub open spec fn loop_chain<'a, T: VariantMatch>(
    nodes: Seq<Option<Node<'a, T>>>,
    node: Node<'a, T>,
    classes: Seq<Specification>,
    k: nat,
    req: nat,
    target: NodeId,
) -> bool
    decreases k,
{
    &&& k > 0
    &&& node is Rope
    &&& reads_classes(node->Rope_0.pattern@, classes)
    &&& if req > 0 {
        node->Rope_0.miss is None && node->Rope_0.record_miss_backtrack_idx is None
    } else {
        node->Rope_0.miss == Some(target) && node->Rope_0.record_miss_backtrack_idx == Some(target)
    }
    &&& if k == 1 {
        node->Rope_0.target == target
    } else {
        let t = node->Rope_0.target.0 as int;
        &&& t < nodes.len()
        &&& nodes[t] is Some
        &&& loop_chain(nodes, nodes[t]->Some_0, classes, (k - 1) as nat, if req > 0 {
            (req - 1) as nat
        } else {
            0
        }, target)
    }
}

/// Starting at `node`, `req` required ropes follow one another, each
/// reading the byte classes `classes` with neither miss nor backtrack
/// record; then a rope that reads them, misses to `target` recording the
/// position, and goes to a slot holding a rope that reads them again, goes
/// back to itself, and misses to `target` recording the position: the
/// classes read any number of further times.
pub open spec fn star_chain<'a, T: VariantMatch>(
    nodes: Seq<Option<Node<'a, T>>>,
    node: Node<'a, T>,
    classes: Seq<Specification>,
    req: nat,
    target: NodeId,
) -> bool
    decreases req,
{
    let r = node->Rope_0;
    let t = r.target.0 as int;
    &&& node is Rope
    &&& reads_classes(r.pattern@, classes)
    &&& t < nodes.len()
    &&& nodes[t] is Some
    &&& if req > 0 {
        &&& r.miss is None
        &&& r.record_miss_backtrack_idx is None
        &&& star_chain(nodes, nodes[t]->Some_0, classes, (req - 1) as nat, target)
    } else {
        let l = nodes[t]->Some_0->Rope_0;
        &&& r.miss == Some(target)
        &&& r.record_miss_backtrack_idx == Some(target)
        &&& nodes[t]->Some_0 is Rope
        &&& reads_classes(l.pattern@, classes)
        &&& l.target == r.target
        &&& l.miss == Some(target)
        &&& l.record_miss_backtrack_idx == Some(target)
    }
}

/// A star chain stays one when the slots it goes through stay.
proof fn lemma_star_chain_extend<'a, T: VariantMatch>(
    nodes: Seq<Option<Node<'a, T>>>,
    more: Seq<Option<Node<'a, T>>>,
    node: Node<'a, T>,
    classes: Seq<Specification>,
    req: nat,
    target: NodeId,
)
    requires
        star_chain(nodes, node, classes, req, target),
        nodes.len() <= more.len(),
        forall|i: int| 0 <= i < nodes.len() ==> #[trigger] more[i] == nodes[i],
    ensures
        star_chain(more, node, classes, req, target),
    decreases req,
{
    let t = node->Rope_0.target.0 as int;
    assert(more[t] == nodes[t]);
    if req > 0 {
        lemma_star_chain_extend(nodes, more, nodes[t]->Some_0, classes, (req - 1) as nat, target);
    }
}

/// A node that is the same as the start of a star chain starts it too.
proof fn lemma_star_chain_same<'a, T: VariantMatch>(
    nodes: Seq<Option<Node<'a, T>>>,
    node: Node<'a, T>,
    other: Node<'a, T>,
    classes: Seq<Specification>,
    req: nat,
    target: NodeId,
)
    requires
        star_chain(nodes, node, classes, req, target),
        other.same(&node),
    ensures
        star_chain(nodes, other, classes, req, target),
{
    let a = node->Rope_0;
    let b = other->Rope_0;
    assert forall|i: int, x: u8| 0 <= i < b.pattern@.len() implies (#[trigger] b.pattern@[i].has(x) <==> in_byte_class(
        classes[i],
        x,
    )) by {
        assert(b.pattern@[i].same(&a.pattern@[i]));
        assert(a.pattern@[i].has(x) <==> in_byte_class(classes[i], x));
    }
}

/// A chain stays a chain when the slots it goes through stay.
proof fn lemma_loop_chain_extend<'a, T: VariantMatch>(
    nodes: Seq<Option<Node<'a, T>>>,
    more: Seq<Option<Node<'a, T>>>,
    node: Node<'a, T>,
    classes: Seq<Specification>,
    k: nat,
    req: nat,
    target: NodeId,
)
    requires
        loop_chain(nodes, node, classes, k, req, target),
        nodes.len() <= more.len(),
        forall|i: int| 0 <= i < nodes.len() ==> #[trigger] more[i] == nodes[i],
    ensures
        loop_chain(more, node, classes, k, req, target),
    decreases k,
{
    if k > 1 {
        let t = node->Rope_0.target.0 as int;
        assert(more[t] == nodes[t]);
        lemma_loop_chain_extend(nodes, more, nodes[t]->Some_0, classes, (k - 1) as nat, if req > 0 {
            (req - 1) as nat
        } else {
            0
        }, target);
    }
}

/// A node that is the same (see [`Node::same`]) as the start of a chain
/// starts that chain too.
proof fn lemma_loop_chain_same<'a, T: VariantMatch>(
    nodes: Seq<Option<Node<'a, T>>>,
    node: Node<'a, T>,
    other: Node<'a, T>,
    classes: Seq<Specification>,
    k: nat,
    req: nat,
    target: NodeId,
)
    requires
        loop_chain(nodes, node, classes, k, req, target),
        other.same(&node),
    ensures
        loop_chain(nodes, other, classes, k, req, target),
{
    let a = node->Rope_0;
    let b = other->Rope_0;
    assert forall|i: int, x: u8| 0 <= i < b.pattern@.len() implies (#[trigger] b.pattern@[i].has(x) <==> in_byte_class(
        classes[i],
        x,
    )) by {
        assert(b.pattern@[i].same(&a.pattern@[i]));
        assert(a.pattern@[i].has(x) <==> in_byte_class(classes[i], x));
    }
}

/// `b` is `a` but for its slots: the same errors, step budget, remembered
/// merges and joined slots.
pub open spec fn only_slots_differ<'a, T: VariantMatch>(a: GraphBuilder<'a, T>, b: GraphBuilder<'a, T>) -> bool {
    &&& b.errors == a.errors
    &&& b.steps_left == a.steps_left
    &&& b.step_limit_reached == a.step_limit_reached
    &&& b.merges == a.merges
    &&& b.joined == a.joined
}

/// A loop over one byte class that holds some byte, repeated at least once
/// and at most a bound above its minimum.
pub open spec fn bounded_class_loop(s: Specification) -> bool {
    &&& s is Loop
    &&& s->Loop_0.max is Some
    &&& 1 <= s->Loop_0.min < s->Loop_0.max->0
    &&& is_class_sequence(*s->Loop_0.specification)
    &&& classes_of(*s->Loop_0.specification).len() == 1
    &&& exists|b: u8| in_byte_class(classes_of(*s->Loop_0.specification)[0], b)
}

/// The fork reads one byte of the class of `classes` and goes to a slot
/// that begins a chain of `k` ropes, the first `req` required (see
/// [`loop_chain`]), ending at `target`.
pub open spec fn fork_into_chain<'a, T: VariantMatch>(
    f: Fork,
    nodes: Seq<Option<Node<'a, T>>>,
    classes: Seq<Specification>,
    k: nat,
    req: nat,
    target: NodeId,
) -> bool {
    &&& f.miss is None
    &&& f.record_miss_backtrack_idx is None
    &&& exists|t: NodeId|
        #![trigger nodes[t.0 as int]]
        {
            &&& t.0 < nodes.len()
            &&& nodes[t.0 as int] is Some
            &&& loop_chain(nodes, nodes[t.0 as int]->Some_0, classes, k, req, target)
            &&& forall|b: u8|
                #![trigger f.lookup_table@[b as int]]
                f.lookup_table@[b as int] == if in_byte_class(classes[0], b) {
                    Some(t)
                } else {
                    None
                }
        }
}

/// A lexer of one variant whose specification is a [`bounded_class_loop`].
pub open spec fn single_bounded_loop<T>(variant_matches: Seq<(Specification, T)>) -> bool {
    variant_matches.len() == 1 && bounded_class_loop(variant_matches[0].0)
}

/// The slot `start` begins the chain of ropes of the loop of the lexer's one
/// variant (see [`loop_chain`]): `max` ropes reading the loop's byte class,
/// the first `min` of them required, ending at the variant's match.
pub open spec fn loop_lexer_start<'a, T: VariantMatch>(
    nodes: Seq<Option<Node<'a, T>>>,
    start: usize,
    variant_matches: Seq<(Specification, T)>,
) -> bool {
    let l = variant_matches[0].0->Loop_0;
    &&& start < nodes.len()
    &&& nodes[start as int] is Some
    &&& exists|t: NodeId|
        #![trigger nodes[t.0 as int]]
        {
            &&& t.0 < nodes.len()
            &&& nodes[t.0 as int] == Some(Node::<'a, T>::VariantMatch(&variant_matches[0].1))
            &&& loop_chain(
                nodes,
                nodes[start as int]->Some_0,
                classes_of(*l.specification),
                l.max->0 as nat,
                l.min as nat,
                t,
            )
        }
}

/// A loop over one byte class that holds some byte, repeated at least once
/// and without a bound.
pub open spec fn unbounded_class_loop(s: Specification) -> bool {
    &&& s is Loop
    &&& s->Loop_0.max is None
    &&& 1 <= s->Loop_0.min
    &&& is_class_sequence(*s->Loop_0.specification)
    &&& classes_of(*s->Loop_0.specification).len() == 1
    &&& exists|b: u8| in_byte_class(classes_of(*s->Loop_0.specification)[0], b)
}

/// A lexer of one variant whose specification is an [`unbounded_class_loop`].
pub open spec fn single_unbounded_loop<T>(variant_matches: Seq<(Specification, T)>) -> bool {
    variant_matches.len() == 1 && unbounded_class_loop(variant_matches[0].0)
}

/// The fork reads one byte of the class of `classes` and goes to a slot that
/// begins a star chain (see [`star_chain`]) with `req` required ropes,
/// ending at `target`.
pub open spec fn fork_into_star<'a, T: VariantMatch>(
    f: Fork,
    nodes: Seq<Option<Node<'a, T>>>,
    classes: Seq<Specification>,
    req: nat,
    target: NodeId,
) -> bool {
    &&& f.miss is None
    &&& f.record_miss_backtrack_idx is None
    &&& exists|t: NodeId|
        #![trigger nodes[t.0 as int]]
        {
            &&& t.0 < nodes.len()
            &&& nodes[t.0 as int] is Some
            &&& star_chain(nodes, nodes[t.0 as int]->Some_0, classes, req, target)
            &&& forall|b: u8|
                #![trigger f.lookup_table@[b as int]]
                f.lookup_table@[b as int] == if in_byte_class(classes[0], b) {
                    Some(t)
                } else {
                    None
                }
        }
}

/// The slot `start` begins the star chain of the loop of the lexer's one
/// variant (see [`star_chain`]): the loop's minimum of required ropes
/// reading its byte class, then any number more, ending at the variant's
/// match.
pub open spec fn star_lexer_start<'a, T: VariantMatch>(
    nodes: Seq<Option<Node<'a, T>>>,
    start: usize,
    variant_matches: Seq<(Specification, T)>,
) -> bool {
    let l = variant_matches[0].0->Loop_0;
    &&& start < nodes.len()
    &&& nodes[start as int] is Some
    &&& exists|t: NodeId|
        #![trigger nodes[t.0 as int]]
        {
            &&& t.0 < nodes.len()
            &&& nodes[t.0 as int] == Some(Node::<'a, T>::VariantMatch(&variant_matches[0].1))
            &&& star_chain(nodes, nodes[start as int]->Some_0, classes_of(*l.specification), l.min as nat, t)
        }
}

/// `miss` goes to a slot of `nodes` that holds a variant match.
pub open spec fn miss_to_match<'a, T: VariantMatch>(
    nodes: Seq<Option<Node<'a, T>>>,
    miss: Option<(NodeId, bool)>,
) -> bool {
    &&& miss is Some
    &&& nodes[((miss->0).0).0 as int] is Some
    &&& nodes[((miss->0).0).0 as int]->Some_0 is VariantMatch
}

/// `s` reads a fixed number of bytes, each from a byte class: a byte class
/// itself, or a non-empty sequence of byte classes such as a string literal.
pub open spec fn is_class_sequence(s: Specification) -> bool {
    ||| is_byte_class(s) && (s matches Specification::Any(any) ==> any.specifications@.len() > 0)
    ||| {
        &&& s matches Specification::Sequence(seq)
        &&& s->Sequence_0.specifications@.len() > 0
        &&& forall|i: int|
            0 <= i < s->Sequence_0.specifications@.len() ==> is_byte_class(
                #[trigger] s->Sequence_0.specifications@[i],
            )
    }
}

/// The byte classes that `s` reads, in order.
pub open spec fn classes_of(s: Specification) -> Seq<Specification> {
    match s {
        Specification::Sequence(seq) => seq.specifications@,
        _ => seq![s],
    }
}

/// The pattern reads one byte of each class, in order.
pub open spec fn reads_classes(pattern: Seq<ByteSet>, classes: Seq<Specification>) -> bool {
    &&& pattern.len() == classes.len()
    &&& forall|i: int, b: u8|
        0 <= i < pattern.len() ==> (#[trigger] pattern[i].has(b) <==> in_byte_class(classes[i], b))
}

/// The rope reads the classes and then goes to `target`, with no miss.
pub open spec fn class_rope<'a, T: VariantMatch>(
    slot: Option<Node<'a, T>>,
    classes: Seq<Specification>,
    target: NodeId,
) -> bool {
    &&& slot matches Some(Node::Rope(r))
    &&& reads_classes(slot->Some_0->Rope_0.pattern@, classes)
    &&& slot->Some_0->Rope_0.target == target
    &&& slot->Some_0->Rope_0.miss is None
    &&& slot->Some_0->Rope_0.record_miss_backtrack_idx is None
}

/// `f` reads the first class of `classes` and goes on to read the others
/// and then to `terminal`, with no miss: directly when there is one class,
/// else through a slot holding a rope of the other classes.
pub open spec fn class_fork<'a, T: VariantMatch>(
    f: Fork,
    classes: Seq<Specification>,
    terminal: NodeId,
    nodes: Seq<Option<Node<'a, T>>>,
) -> bool {
    &&& f.miss is None
    &&& f.record_miss_backtrack_idx is None
    &&& classes.len() == 1 ==> forall|b: u8|
        #![trigger f.lookup_table@[b as int]]
        f.lookup_table@[b as int] == if in_byte_class(classes[0], b) {
            Some(terminal)
        } else {
            None
        }
    &&& classes.len() > 1 ==> exists|t: NodeId|
        #![trigger nodes[t.0 as int]]
        {
            &&& t.0 < nodes.len()
            &&& class_rope(nodes[t.0 as int], classes.drop_first(), terminal)
            &&& forall|b: u8|
                #![trigger f.lookup_table@[b as int]]
                f.lookup_table@[b as int] == if in_byte_class(classes[0], b) {
                    Some(t)
                } else {
                    None
                }
        }
}

/// From `start`, the slots read the classes one after the other and then
/// reach the variant match `m`: a rope of the first class goes to `t`,
/// which is the match itself when there is one class, else a rope of the
/// other classes going to the match.
pub open spec fn class_chain<'a, T: VariantMatch>(
    nodes: Seq<Option<Node<'a, T>>>,
    start: usize,
    classes: Seq<Specification>,
    m: T,
) -> bool {
    exists|t: NodeId|
        #![trigger nodes[t.0 as int]]
        {
            &&& t.0 < nodes.len()
            &&& start < nodes.len()
            &&& class_rope(nodes[start as int], classes.take(1), t)
            &&& classes.len() == 1 ==> (nodes[t.0 as int] matches Some(Node::VariantMatch(x)) && *x == m)
            &&& classes.len() > 1 ==> exists|u: NodeId|
                #![trigger nodes[u.0 as int]]
                {
                    &&& u.0 < nodes.len()
                    &&& class_rope(nodes[t.0 as int], classes.drop_first(), u)
                    &&& nodes[u.0 as int] matches Some(Node::VariantMatch(x)) && *x == m
                }
        }
}

/// A compacted rope reads what it read before, and goes to the compacted
/// target.
proof fn lemma_class_rope_compacted<'a, T: VariantMatch>(
    nodes: Seq<Option<Node<'a, T>>>,
    kept: Seq<Option<Node<'a, T>>>,
    start: usize,
    j: usize,
    k: int,
    classes: Seq<Specification>,
    t: NodeId,
)
    requires
        0 <= k < kept.len(),
        class_rope(nodes[j as int], classes, t),
        match (nodes[j as int], kept[k]) {
            (Some(prev), Some(new)) => is_compacted(new, prev, nodes, start),
            (None, None) => true,
            _ => false,
        },
    ensures
        class_rope(kept[k], classes, compacted(nodes, start, t)),
{
}

/// A star chain (see [`star_chain`]) reachable from the start is still one
/// once the unreachable slots are removed and the rest renumbered.
proof fn lemma_star_chain_compacted<'a, T: VariantMatch>(
    nodes: Seq<Option<Node<'a, T>>>,
    kept: Seq<Option<Node<'a, T>>>,
    start: usize,
    x: usize,
    classes: Seq<Specification>,
    req: nat,
    target: NodeId,
)
    requires
        nodes.len() <= usize::MAX,
        compacts(kept, nodes, start),
        x < nodes.len(),
        reachable(nodes, start, x),
        nodes[x as int] is Some,
        star_chain(nodes, nodes[x as int]->Some_0, classes, req, target),
        target.0 < nodes.len(),
    ensures
        reachable(nodes, start, target.0),
        compacted(nodes, start, NodeId(x)).0 < kept.len(),
        kept[compacted(nodes, start, NodeId(x)).0 as int] is Some,
        star_chain(
            kept,
            kept[compacted(nodes, start, NodeId(x)).0 as int]->Some_0,
            classes,
            req,
            compacted(nodes, start, target),
        ),
    decreases req,
{
    lemma_reachable_below_le(nodes, start, x as int);
    lemma_compacts_at(kept, nodes, start, x);
    let kx = reachable_below(nodes, start, x as int);
    assert(compacted(nodes, start, NodeId(x)).0 == kx);
    let prev = nodes[x as int]->Some_0->Rope_0;
    let new = kept[kx as int]->Some_0->Rope_0;
    assert(kept[kx as int]->Some_0 is Rope);
    let t = prev.target.0;
    assert(successor(nodes, x, t));
    lemma_reach_append(nodes, start, x, t);
    lemma_reachable_below_le(nodes, start, t as int);
    lemma_compacts_at(kept, nodes, start, t);
    assert(new.target == compacted(nodes, start, prev.target));
    assert(NodeId(t) == prev.target);
    if req > 0 {
        lemma_star_chain_compacted(nodes, kept, start, t, classes, (req - 1) as nat, target);
    } else {
        assert(successor(nodes, x, target.0));
        lemma_reach_append(nodes, start, x, target.0);
        let kt = reachable_below(nodes, start, t as int);
        assert(kept[kt as int]->Some_0 is Rope);
    }
}

/// A chain of ropes (see [`loop_chain`]) reachable from the start is still a
/// chain once the unreachable slots are removed and the rest renumbered.
proof fn lemma_loop_chain_compacted<'a, T: VariantMatch>(
    nodes: Seq<Option<Node<'a, T>>>,
    kept: Seq<Option<Node<'a, T>>>,
    start: usize,
    x: usize,
    classes: Seq<Specification>,
    k: nat,
    req: nat,
    target: NodeId,
)
    requires
        nodes.len() <= usize::MAX,
        compacts(kept, nodes, start),
        x < nodes.len(),
        reachable(nodes, start, x),
        nodes[x as int] is Some,
        loop_chain(nodes, nodes[x as int]->Some_0, classes, k, req, target),
        target.0 < nodes.len(),
    ensures
        reachable(nodes, start, target.0),
        compacted(nodes, start, NodeId(x)).0 < kept.len(),
        kept[compacted(nodes, start, NodeId(x)).0 as int] is Some,
        loop_chain(
            kept,
            kept[compacted(nodes, start, NodeId(x)).0 as int]->Some_0,
            classes,
            k,
            req,
            compacted(nodes, start, target),
        ),
    decreases k,
{
    lemma_reachable_below_le(nodes, start, x as int);
    lemma_compacts_at(kept, nodes, start, x);
    let kx = reachable_below(nodes, start, x as int);
    assert(compacted(nodes, start, NodeId(x)).0 == kx);
    let prev = nodes[x as int]->Some_0->Rope_0;
    let new = kept[kx as int]->Some_0->Rope_0;
    assert(kept[kx as int]->Some_0 is Rope);
    if k == 1 || req == 0 {
        assert(successor(nodes, x, target.0));
        lemma_reach_append(nodes, start, x, target.0);
    }
    if k > 1 {
        let t = prev.target.0;
        assert(successor(nodes, x, t));
        lemma_reach_append(nodes, start, x, t);
        let req1: nat = if req > 0 {
            (req - 1) as nat
        } else {
            0
        };
        lemma_loop_chain_compacted(nodes, kept, start, t, classes, (k - 1) as nat, req1, target);
        assert(new.target == compacted(nodes, start, prev.target));
        assert(NodeId(t) == prev.target);
    }
}

/// A chain of class ropes is kept by [`GraphBuilder::shake`], with its ids
/// compacted.
proof fn lemma_chain_compacted<'a, T: VariantMatch>(
    nodes: Seq<Option<Node<'a, T>>>,
    kept: Seq<Option<Node<'a, T>>>,
    start: usize,
    classes: Seq<Specification>,
    m: T,
)
    requires
        nodes.len() <= usize::MAX,
        classes.len() > 0,
        class_chain(nodes, start, classes, m),
        forall|j: usize|
            j < nodes.len() && #[trigger] reachable(nodes, start, j) ==> {
                let k = reachable_below(nodes, start, j as int);
                &&& k < kept.len()
                &&& match (nodes[j as int], kept[k as int]) {
                    (Some(prev), Some(new)) => is_compacted(new, prev, nodes, start),
                    (None, None) => true,
                    _ => false,
                }
            },
    ensures
        class_chain(kept, reachable_below(nodes, start, start as int) as usize, classes, m),
{
    let t = choose|t: NodeId|
        #![trigger nodes[t.0 as int]]
        {
            &&& t.0 < nodes.len()
            &&& start < nodes.len()
            &&& class_rope(nodes[start as int], classes.take(1), t)
            &&& classes.len() == 1 ==> (nodes[t.0 as int] matches Some(Node::VariantMatch(x)) && *x == m)
            &&& classes.len() > 1 ==> exists|u: NodeId|
                #![trigger nodes[u.0 as int]]
                {
                    &&& u.0 < nodes.len()
                    &&& class_rope(nodes[t.0 as int], classes.drop_first(), u)
                    &&& nodes[u.0 as int] matches Some(Node::VariantMatch(x)) && *x == m
                }
        };
    lemma_reach_self(nodes, start);
    assert(successor(nodes, start, t.0));
    lemma_reach_append(nodes, start, start, t.0);
    lemma_reachable_below_le(nodes, start, start as int);
    lemma_reachable_below_le(nodes, start, t.0 as int);
    let ks = reachable_below(nodes, start, start as int) as int;
    let kt = reachable_below(nodes, start, t.0 as int) as int;
    assert(reachable(nodes, start, start));
    lemma_class_rope_compacted(nodes, kept, start, start, ks, classes.take(1), t);
    let ct = compacted(nodes, start, t);
    assert(ct.0 as int == kt);
    if classes.len() == 1 {
        assert(kept[kt] matches Some(Node::VariantMatch(x)) && *x == m);
        assert(kept[ct.0 as int] matches Some(Node::VariantMatch(x)) && *x == m);
    } else {
        let u = choose|u: NodeId|
            #![trigger nodes[u.0 as int]]
            {
                &&& u.0 < nodes.len()
                &&& class_rope(nodes[t.0 as int], classes.drop_first(), u)
                &&& nodes[u.0 as int] matches Some(Node::VariantMatch(x)) && *x == m
            };
        assert(successor(nodes, t.0, u.0));
        lemma_reach_append(nodes, start, t.0, u.0);
        lemma_reachable_below_le(nodes, start, u.0 as int);
        let ku = reachable_below(nodes, start, u.0 as int) as int;
        lemma_class_rope_compacted(nodes, kept, start, t.0, kt, classes.drop_first(), u);
        let cu = compacted(nodes, start, u);
        assert(kept[ku] matches Some(Node::VariantMatch(x)) && *x == m);
        assert(kept[cu.0 as int] matches Some(Node::VariantMatch(x)) && *x == m);
        assert(class_rope(kept[ct.0 as int], classes.drop_first(), cu));
    }
    assert(class_rope(kept[ks], classes.take(1), ct));
}

/// The lexer has one variant match, whose specification is a non-empty
/// sequence of byte classes, the first of which holds a byte.
pub open spec fn single_class_sequence<T>(variant_matches: Seq<(Specification, T)>) -> bool {
    &&& variant_matches.len() == 1
    &&& is_class_sequence(variant_matches[0].0)
    &&& exists|b: u8| in_byte_class(classes_of(variant_matches[0].0)[0], b)
}

/// The start node made from a fork of the classes, inserted, begins a chain
/// of the classes.
proof fn lemma_class_start<'a, T: VariantMatch>(
    pre: Seq<Option<Node<'a, T>>>,
    post: Seq<Option<Node<'a, T>>>,
    fork: Fork,
    node: Node<'a, T>,
    id: NodeId,
    classes: Seq<Specification>,
    m: T,
)
    requires
        classes.len() > 0,
        exists|b: u8| in_byte_class(classes[0], b),
        class_fork(fork, classes, NodeId(0), pre),
        pre.len() > 0,
        pre[0] matches Some(Node::VariantMatch(x)) && *x == m,
        (exists|t: NodeId| single_target(&fork, t)) ==> (node matches Node::Rope(r) && {
            &&& r.pattern@.len() == 1
            &&& single_target(&fork, r.target)
            &&& forall|b: u8| #[trigger] r.pattern@[0].has(b) <==> fork.lookup_table@[b as int] is Some
            &&& r.miss == fork.miss
            &&& r.record_miss_backtrack_idx == fork.record_miss_backtrack_idx
        }),
        id.0 < post.len(),
        holds_same(post, id.0 as int, node),
        pre.len() <= post.len(),
        forall|i: int| 0 <= i < pre.len() ==> #[trigger] post[i] == pre[i],
    ensures
        class_chain(post, id.0, classes, m),
{
    let b0 = choose|b: u8| in_byte_class(classes[0], b);
    let t = if classes.len() == 1 {
        NodeId(0)
    } else {
        choose|t: NodeId|
            #![trigger pre[t.0 as int]]
            {
                &&& t.0 < pre.len()
                &&& class_rope(pre[t.0 as int], classes.drop_first(), NodeId(0))
                &&& forall|b: u8|
                    #![trigger fork.lookup_table@[b as int]]
                    fork.lookup_table@[b as int] == if in_byte_class(classes[0], b) {
                        Some(t)
                    } else {
                        None
                    }
            }
    };
    assert(fork.lookup_table@[b0 as int] == Some(t));
    assert forall|b: int|
        0 <= b < 256 && (#[trigger] fork.lookup_table@[b]) is Some implies fork.lookup_table@[b] == Some(t) by {
        assert(fork.lookup_table@[(b as u8) as int] == fork.lookup_table@[b]);
    }
    assert(single_target(&fork, t));
    let r = node->Rope_0;
    assert(r.target == t) by {
        let c = choose|c: int| 0 <= c < 256 && #[trigger] fork.lookup_table@[c] == Some(r.target);
    }
    let s = post[id.0 as int]->Some_0->Rope_0;
    assert(s.pattern@.len() == 1);
    assert forall|i: int, b: u8|
        0 <= i < s.pattern@.len() implies (#[trigger] s.pattern@[i].has(b) <==> in_byte_class(classes.take(1)[i], b)) by {
        assert(s.pattern@[0].same(&r.pattern@[0]));
        assert(r.pattern@[0].has(b) <==> fork.lookup_table@[b as int] is Some);
    }
    assert(class_rope(post[id.0 as int], classes.take(1), t));
    assert(post[t.0 as int] == pre[t.0 as int]);
    assert(post[0] == pre[0]);
    if classes.len() > 1 {
        assert(class_rope(post[t.0 as int], classes.drop_first(), NodeId(0)));
        let u = NodeId(0);
        assert(u.0 < post.len() && class_rope(post[t.0 as int], classes.drop_first(), u) && (post[u.0 as int] matches Some(Node::VariantMatch(x)) && *x == m));
    } else {
        assert(post[t.0 as int] matches Some(Node::VariantMatch(x)) && *x == m);
    }
    assert(id.0 < post.len() && class_rope(post[id.0 as int], classes.take(1), t));
}

/// The first byte class of the specification of variant `k`.
pub open spec fn first_class<T>(variant_matches: Seq<(Specification, T)>, k: int) -> Specification {
    classes_of(variant_matches[k].0)[0]
}

/// Every variant reads a fixed number of bytes from byte classes (see
/// [`is_class_sequence`]), every first class holds a byte, and no byte is
/// in the first classes of two variants.
pub open spec fn class_lexer<T>(variant_matches: Seq<(Specification, T)>) -> bool {
    &&& variant_matches.len() >= 2
    &&& forall|k: int| 0 <= k < variant_matches.len() ==> is_class_sequence(#[trigger] variant_matches[k].0)
    &&& forall|k: int|
        0 <= k < variant_matches.len() ==> exists|b: u8| in_byte_class(#[trigger] first_class(variant_matches, k), b)
    &&& forall|j: int, k: int, b: u8|
        #![trigger in_byte_class(first_class(variant_matches, j), b), in_byte_class(first_class(variant_matches, k), b)]
        0 <= j < variant_matches.len() && 0 <= k < variant_matches.len() && j != k && in_byte_class(
            first_class(variant_matches, j),
            b,
        ) ==> !in_byte_class(first_class(variant_matches, k), b)
}

/// Two variants, each one byte class, whose classes share a byte.
pub open spec fn byte_class_pair<T: VariantMatch>(variant_matches: Seq<(Specification, T)>) -> bool {
    &&& variant_matches.len() == 2
    &&& forall|k: int|
        0 <= k < 2 ==> is_class_sequence(#[trigger] variant_matches[k].0) && classes_of(
            variant_matches[k].0,
        ).len() == 1
    &&& exists|b: u8|
        in_byte_class(first_class(variant_matches, 0), b) && in_byte_class(first_class(variant_matches, 1), b)
}

/// Two variants, each one byte class, whose classes share a byte, and
/// whose priorities are equal.
pub open spec fn overlapping_pair<T: VariantMatch>(variant_matches: Seq<(Specification, T)>) -> bool {
    &&& byte_class_pair(variant_matches)
    &&& variant_matches[0].1.spec_priority() == variant_matches[1].1.spec_priority()
}

/// From slot `t` the slots read the classes `rest` and reach the variant
/// match in slot `term`: `t` is that slot when `rest` is empty, else a rope
/// of `rest` going to it.
pub open spec fn class_tail<'a, T: VariantMatch>(
    nodes: Seq<Option<Node<'a, T>>>,
    t: usize,
    rest: Seq<Specification>,
    term: usize,
    m: T,
) -> bool {
    &&& t < nodes.len()
    &&& term < nodes.len()
    &&& nodes[term as int] matches Some(Node::VariantMatch(x)) && *x == m
    &&& rest.len() == 0 ==> t == term
    &&& rest.len() > 0 ==> class_rope(nodes[t as int], rest, NodeId(term))
}

/// The start slot is a fork without a miss that sends a byte of the first
/// class of variant `k` to where the rest of that variant is read, and any
/// other byte nowhere.
pub open spec fn class_lexer_start<'a, T: VariantMatch>(
    nodes: Seq<Option<Node<'a, T>>>,
    start: usize,
    variant_matches: Seq<(Specification, T)>,
) -> bool {
    &&& start < nodes.len()
    &&& nodes[start as int] matches Some(Node::Fork(f))
    &&& nodes[start as int]->Some_0->Fork_0.miss is None
    &&& nodes[start as int]->Some_0->Fork_0.record_miss_backtrack_idx is None
    &&& forall|b: u8|
        #![trigger nodes[start as int]->Some_0->Fork_0.lookup_table@[b as int]]
        (forall|k: int| 0 <= k < variant_matches.len() ==> !in_byte_class(first_class(variant_matches, k), b))
            ==> nodes[start as int]->Some_0->Fork_0.lookup_table@[b as int] is None
    &&& forall|k: int, b: u8|
        0 <= k < variant_matches.len() && #[trigger] in_byte_class(first_class(variant_matches, k), b)
            ==> (nodes[start as int]->Some_0->Fork_0.lookup_table@[b as int] is Some && exists|term: usize|
            class_tail(
                nodes,
                (nodes[start as int]->Some_0->Fork_0.lookup_table@[b as int]->0).0,
                classes_of(variant_matches[k].0).drop_first(),
                term,
                variant_matches[k].1,
            ))
}

/// A tail of class ropes stays as it is while the slots it uses stay.
proof fn lemma_class_tail_kept<'a, T: VariantMatch>(
    nodes: Seq<Option<Node<'a, T>>>,
    later: Seq<Option<Node<'a, T>>>,
    t: usize,
    rest: Seq<Specification>,
    term: usize,
    m: T,
)
    requires
        class_tail(nodes, t, rest, term, m),
        nodes.len() <= later.len(),
        forall|i: int| 0 <= i < nodes.len() ==> #[trigger] later[i] == nodes[i],
    ensures
        class_tail(later, t, rest, term, m),
{
    assert(later[t as int] == nodes[t as int]);
    assert(later[term as int] == nodes[term as int]);
}

/// Tails that end in different slots start in different slots.
proof fn lemma_class_tails_differ<'a, T: VariantMatch>(
    nodes: Seq<Option<Node<'a, T>>>,
    t: usize,
    rest: Seq<Specification>,
    term: usize,
    m: T,
    u: usize,
    rest2: Seq<Specification>,
    term2: usize,
    m2: T,
)
    requires
        class_tail(nodes, t, rest, term, m),
        class_tail(nodes, u, rest2, term2, m2),
        term != term2,
    ensures
        t != u,
{
}

/// After taking in the forks of the first `i` variants of a class lexer,
/// the start fork has no miss, sends a byte of the first class of variant
/// `k < i` to the rest of that variant, ending in slot `terms[k]`, and any
/// other byte nowhere.
pub open spec fn lexer_fork_so_far<'a, T: VariantMatch>(
    f: Fork,
    nodes: Seq<Option<Node<'a, T>>>,
    variant_matches: Seq<(Specification, T)>,
    terms: Seq<usize>,
    i: int,
) -> bool {
    &&& f.miss is None
    &&& f.record_miss_backtrack_idx is None
    &&& forall|b: u8|
        #![trigger f.lookup_table@[b as int]]
        (forall|k: int| 0 <= k < i ==> !in_byte_class(first_class(variant_matches, k), b))
            ==> f.lookup_table@[b as int] is None
    &&& forall|k: int, b: u8|
        0 <= k < i && #[trigger] in_byte_class(first_class(variant_matches, k), b) ==> {
            &&& f.lookup_table@[b as int] is Some
            &&& class_tail(
                nodes,
                (f.lookup_table@[b as int]->0).0,
                classes_of(variant_matches[k].0).drop_first(),
                terms[k],
                variant_matches[k].1,
            )
        }
}

/// Taking in the fork of variant `i` keeps [`lexer_fork_so_far`].
proof fn lemma_lexer_fork_step<'a, T: VariantMatch>(
    old_f: Fork,
    f_i: Fork,
    new_f: Fork,
    before: Seq<Option<Node<'a, T>>>,
    middle: Seq<Option<Node<'a, T>>>,
    after: Seq<Option<Node<'a, T>>>,
    variant_matches: Seq<(Specification, T)>,
    terms: Seq<usize>,
    i: int,
)
    requires
        class_lexer(variant_matches),
        0 <= i < variant_matches.len(),
        terms.len() == i + 1,
        terms[i] < middle.len(),
        lexer_fork_so_far(old_f, before, variant_matches, terms, i),
        class_fork(f_i, classes_of(variant_matches[i].0), NodeId(terms[i]), middle),
        middle[terms[i] as int] matches Some(Node::VariantMatch(x)) && *x == variant_matches[i].1,
        before.len() <= middle.len(),
        middle.len() <= after.len(),
        forall|j: int| 0 <= j < before.len() ==> #[trigger] middle[j] == before[j],
        forall|j: int| 0 <= j < middle.len() ==> #[trigger] after[j] == middle[j],
        new_f.miss is None,
        new_f.record_miss_backtrack_idx is None,
        forall|b: int|
            0 <= b < 256 ==> {
                &&& (old_f.lookup_table@[b] is None ==> #[trigger] new_f.lookup_table@[b] == f_i.lookup_table@[b])
                &&& (f_i.lookup_table@[b] is None ==> new_f.lookup_table@[b] == old_f.lookup_table@[b])
                &&& (new_f.lookup_table@[b] is Some <==> (old_f.lookup_table@[b] is Some
                    || f_i.lookup_table@[b] is Some))
            },
    ensures
        lexer_fork_so_far(new_f, after, variant_matches, terms, i + 1),
{
    let classes = classes_of(variant_matches[i].0);
    assert(is_class_sequence(variant_matches[i].0));
    assert(classes.len() > 0);
    assert forall|b: u8| #![trigger new_f.lookup_table@[b as int]]
        (forall|k: int| 0 <= k < i + 1 ==> !in_byte_class(first_class(variant_matches, k), b))
            implies new_f.lookup_table@[b as int] is None by {
        assert(!in_byte_class(first_class(variant_matches, i), b));
        assert(old_f.lookup_table@[b as int] is None);
        if classes.len() > 1 {
            let t = choose|t: NodeId|
                #![trigger middle[t.0 as int]]
                {
                    &&& t.0 < middle.len()
                    &&& class_rope(middle[t.0 as int], classes.drop_first(), NodeId(terms[i]))
                    &&& forall|c: u8|
                        #![trigger f_i.lookup_table@[c as int]]
                        f_i.lookup_table@[c as int] == if in_byte_class(classes[0], c) {
                            Some(t)
                        } else {
                            None
                        }
                };
        }
        assert(f_i.lookup_table@[b as int] is None);
    }
    assert forall|k: int, b: u8|
        0 <= k < i + 1 && #[trigger] in_byte_class(first_class(variant_matches, k), b) implies {
            &&& new_f.lookup_table@[b as int] is Some
            &&& class_tail(
                after,
                (new_f.lookup_table@[b as int]->0).0,
                classes_of(variant_matches[k].0).drop_first(),
                terms[k],
                variant_matches[k].1,
            )
        } by {
        if k == i {
            if k > 0 {
                assert forall|j: int| 0 <= j < i implies !in_byte_class(first_class(variant_matches, j), b) by {
                    assert(in_byte_class(first_class(variant_matches, i), b));
                }
            }
            assert(old_f.lookup_table@[b as int] is None);
            if classes.len() == 1 {
                assert(f_i.lookup_table@[b as int] == Some(NodeId(terms[i])));
                assert(class_tail(middle, terms[i], classes.drop_first(), terms[i], variant_matches[i].1));
                lemma_class_tail_kept(middle, after, terms[i], classes.drop_first(), terms[i], variant_matches[i].1);
            } else {
                let t = choose|t: NodeId|
                    #![trigger middle[t.0 as int]]
                    {
                        &&& t.0 < middle.len()
                        &&& class_rope(middle[t.0 as int], classes.drop_first(), NodeId(terms[i]))
                        &&& forall|c: u8|
                            #![trigger f_i.lookup_table@[c as int]]
                            f_i.lookup_table@[c as int] == if in_byte_class(classes[0], c) {
                                Some(t)
                            } else {
                                None
                            }
                    };
                assert(f_i.lookup_table@[b as int] == Some(t));
                assert(class_tail(middle, t.0, classes.drop_first(), terms[i], variant_matches[i].1));
                lemma_class_tail_kept(middle, after, t.0, classes.drop_first(), terms[i], variant_matches[i].1);
            }
        } else {
            assert(!in_byte_class(first_class(variant_matches, i), b));
            if classes.len() > 1 {
                let t = choose|t: NodeId|
                    #![trigger middle[t.0 as int]]
                    {
                        &&& t.0 < middle.len()
                        &&& class_rope(middle[t.0 as int], classes.drop_first(), NodeId(terms[i]))
                        &&& forall|c: u8|
                            #![trigger f_i.lookup_table@[c as int]]
                            f_i.lookup_table@[c as int] == if in_byte_class(classes[0], c) {
                                Some(t)
                            } else {
                                None
                            }
                    };
            }
            assert(f_i.lookup_table@[b as int] is None);
            let t = (old_f.lookup_table@[b as int]->0).0;
            let rest = classes_of(variant_matches[k].0).drop_first();
            lemma_class_tail_kept(before, middle, t, rest, terms[k], variant_matches[k].1);
            lemma_class_tail_kept(middle, after, t, rest, terms[k], variant_matches[k].1);
        }
    }
}

/// The start node made from the fork of a class lexer, inserted, is a fork
/// that begins every variant (see [`class_lexer_start`]).
proof fn lemma_class_lexer_start<'a, T: VariantMatch>(
    pre: Seq<Option<Node<'a, T>>>,
    post: Seq<Option<Node<'a, T>>>,
    fork: Fork,
    node: Node<'a, T>,
    id: NodeId,
    variant_matches: Seq<(Specification, T)>,
    terms: Seq<usize>,
)
    requires
        class_lexer(variant_matches),
        terms.len() == variant_matches.len(),
        forall|j: int, k: int| 0 <= j < k < terms.len() ==> #[trigger] terms[j] < #[trigger] terms[k],
        lexer_fork_so_far(fork, pre, variant_matches, terms, variant_matches.len() as int),
        !(exists|t: NodeId| single_target(&fork, t)) ==> node == Node::<'a, T>::Fork(fork),
        id.0 < post.len(),
        holds_same(post, id.0 as int, node),
        pre.len() <= post.len(),
        forall|i: int| 0 <= i < pre.len() ==> #[trigger] post[i] == pre[i],
    ensures
        class_lexer_start(post, id.0, variant_matches),
{
    let vms = variant_matches;
    assert(exists|b: u8| in_byte_class(first_class(vms, 0), b));
    assert(exists|b: u8| in_byte_class(first_class(vms, 1), b));
    let b0 = choose|b: u8| in_byte_class(first_class(vms, 0), b);
    let b1 = choose|b: u8| in_byte_class(first_class(vms, 1), b);
    let t0 = fork.lookup_table@[b0 as int]->0;
    let t1 = fork.lookup_table@[b1 as int]->0;
    assert(class_tail(pre, t0.0, classes_of(vms[0].0).drop_first(), terms[0], vms[0].1));
    assert(class_tail(pre, t1.0, classes_of(vms[1].0).drop_first(), terms[1], vms[1].1));
    assert(terms[0] < terms[1]);
    lemma_class_tails_differ(
        pre,
        t0.0,
        classes_of(vms[0].0).drop_first(),
        terms[0],
        vms[0].1,
        t1.0,
        classes_of(vms[1].0).drop_first(),
        terms[1],
        vms[1].1,
    );
    if exists|t: NodeId| single_target(&fork, t) {
        let t = choose|t: NodeId| single_target(&fork, t);
        assert(fork.lookup_table@[b0 as int] == Some(t));
        assert(fork.lookup_table@[b1 as int] == Some(t));
        assert(false);
    }
    assert(node == Node::<'a, T>::Fork(fork));
    let g = post[id.0 as int]->Some_0->Fork_0;
    assert(g.lookup_table@ == fork.lookup_table@);
    assert forall|k: int, b: u8|
        0 <= k < vms.len() && #[trigger] in_byte_class(first_class(vms, k), b) implies (g.lookup_table@[b as int] is Some
            && exists|term: usize|
            class_tail(
                post,
                (g.lookup_table@[b as int]->0).0,
                classes_of(vms[k].0).drop_first(),
                term,
                vms[k].1,
            )) by {
        let t = (fork.lookup_table@[b as int]->0).0;
        lemma_class_tail_kept(pre, post, t, classes_of(vms[k].0).drop_first(), terms[k], vms[k].1);
    }
    assert forall|b: u8|
        #![trigger post[id.0 as int]->Some_0->Fork_0.lookup_table@[b as int]]
        (forall|k: int| 0 <= k < vms.len() ==> !in_byte_class(first_class(vms, k), b))
            implies post[id.0 as int]->Some_0->Fork_0.lookup_table@[b as int] is None by {
        assert(fork.lookup_table@[b as int] is None);
    }
}

/// A tail of class ropes from a reachable slot is kept by compaction.
proof fn lemma_tail_compacted<'a, T: VariantMatch>(
    nodes: Seq<Option<Node<'a, T>>>,
    kept: Seq<Option<Node<'a, T>>>,
    start: usize,
    t: usize,
    rest: Seq<Specification>,
    term: usize,
    m: T,
)
    requires
        nodes.len() <= usize::MAX,
        compacts(kept, nodes, start),
        reachable(nodes, start, t),
        class_tail(nodes, t, rest, term, m),
    ensures
        class_tail(
            kept,
            compacted(nodes, start, NodeId(t)).0,
            rest,
            compacted(nodes, start, NodeId(term)).0,
            m,
        ),
{
    lemma_reachable_below_le(nodes, start, t as int);
    lemma_reachable_below_le(nodes, start, term as int);
    lemma_compacts_at(kept, nodes, start, t);
    let kt = reachable_below(nodes, start, t as int) as int;
    if rest.len() > 0 {
        assert(successor(nodes, t, term));
        lemma_reach_append(nodes, start, t, term);
        lemma_class_rope_compacted(nodes, kept, start, t, kt, rest, NodeId(term));
    }
    lemma_compacts_at(kept, nodes, start, term);
}

/// The start of a class lexer is kept by [`GraphBuilder::shake`], with its
/// ids compacted.
proof fn lemma_lexer_start_compacted<'a, T: VariantMatch>(
    nodes: Seq<Option<Node<'a, T>>>,
    kept: Seq<Option<Node<'a, T>>>,
    start: usize,
    variant_matches: Seq<(Specification, T)>,
)
    requires
        nodes.len() <= usize::MAX,
        forall|i: int| 0 <= i < nodes.len() ==> slot_below(#[trigger] nodes[i], nodes.len()),
        class_lexer_start(nodes, start, variant_matches),
        compacts(kept, nodes, start),
    ensures
        class_lexer_start(kept, reachable_below(nodes, start, start as int) as usize, variant_matches),
{
    let vms = variant_matches;
    lemma_reach_self(nodes, start);
    lemma_reachable_below_le(nodes, start, start as int);
    lemma_compacts_at(kept, nodes, start, start);
    let ks = reachable_below(nodes, start, start as int) as int;
    let f = nodes[start as int]->Some_0->Fork_0;
    assert(f.wf()) by {
        assert(slot_below(nodes[start as int], nodes.len()));
    }
    let g = kept[ks]->Some_0->Fork_0;
    assert(kept[ks] matches Some(Node::Fork(_)));
    assert forall|b: u8|
        #![trigger kept[ks]->Some_0->Fork_0.lookup_table@[b as int]]
        (forall|k: int| 0 <= k < vms.len() ==> !in_byte_class(first_class(vms, k), b))
            implies kept[ks]->Some_0->Fork_0.lookup_table@[b as int] is None by {
        assert(f.lookup_table@[b as int] is None);
        assert(g.lookup_table@[b as int] == compacted_opt(nodes, start, f.lookup_table@[b as int]));
    }
    assert forall|k: int, b: u8|
        0 <= k < vms.len() && #[trigger] in_byte_class(first_class(vms, k), b) implies (g.lookup_table@[b as int] is Some
            && exists|term: usize|
            class_tail(kept, (g.lookup_table@[b as int]->0).0, classes_of(vms[k].0).drop_first(), term, vms[k].1)) by {
        let rest = classes_of(vms[k].0).drop_first();
        let t = (f.lookup_table@[b as int]->0).0;
        let term = choose|term: usize| class_tail(nodes, t, rest, term, vms[k].1);
        assert(g.lookup_table@[b as int] == compacted_opt(nodes, start, f.lookup_table@[b as int]));
        assert(successor(nodes, start, t)) by {
            assert(f.lookup_table@[b as int] == Some(NodeId(t)));
        }
        lemma_reach_append(nodes, start, start, t);
        lemma_tail_compacted(nodes, kept, start, t, rest, term, vms[k].1);
        let ct = compacted(nodes, start, NodeId(t));
        let cterm = compacted(nodes, start, NodeId(term)).0;
        assert(f.lookup_table@[b as int] == Some(NodeId(t)));
        assert(g.lookup_table@[b as int] == Some(ct));
        assert(class_tail(kept, (g.lookup_table@[b as int]->0).0, rest, cterm, vms[k].1));
    }
}

/// The slot `x` holds a node that refers to `y`.
pub open spec fn successor<'a, T: VariantMatch>(
    nodes: Seq<Option<Node<'a, T>>>,
    x: usize,
    y: usize,
) -> bool {
    &&& x < nodes.len()
    &&& match nodes[x as int] {
        Some(Node::Fork(f)) => {
            ||| exists|b: int| 0 <= b < 256 && #[trigger] f.lookup_table@[b] == Some(NodeId(y))
            ||| f.miss == Some(NodeId(y))
            ||| f.record_miss_backtrack_idx == Some(NodeId(y))
        },
        Some(Node::Rope(r)) => {
            ||| r.target == NodeId(y)
            ||| r.miss == Some(NodeId(y))
            ||| r.record_miss_backtrack_idx == Some(NodeId(y))
        },
        _ => false,
    }
}

/// `p` is a walk along [`successor`] links.
pub open spec fn is_walk<'a, T: VariantMatch>(nodes: Seq<Option<Node<'a, T>>>, p: Seq<usize>) -> bool {
    &&& p.len() >= 1
    &&& forall|i: int| 0 <= i < p.len() - 1 ==> #[trigger] successor(nodes, p[i], p[i + 1])
}

/// Some walk leads from `from` to `to`.
pub open spec fn reachable<'a, T: VariantMatch>(
    nodes: Seq<Option<Node<'a, T>>>,
    from: usize,
    to: usize,
) -> bool {
    exists|p: Seq<usize>| #[trigger] is_walk(nodes, p) && p[0] == from && p.last() == to
}

/// The number of slots below `x` that are reachable from `start`.
pub open spec fn reachable_below<'a, T: VariantMatch>(
    nodes: Seq<Option<Node<'a, T>>>,
    start: usize,
    x: int,
) -> nat
    decreases x,
{
    if x <= 0 {
        0
    } else {
        reachable_below(nodes, start, x - 1) + if reachable(nodes, start, (x - 1) as usize) {
            1nat
        } else {
            0nat
        }
    }
}

/// The number of values below `n` in `s`.
pub open spec fn count_in(s: Set<usize>, n: nat) -> nat
    decreases n,
{
    if n == 0 {
        0
    } else {
        count_in(s, (n - 1) as nat) + if s.contains((n - 1) as usize) {
            1nat
        } else {
            0nat
        }
    }
}

proof fn lemma_count_le(s: Set<usize>, n: nat)
    ensures
        count_in(s, n) <= n,
    decreases n,
{
    if n > 0 {
        lemma_count_le(s, (n - 1) as nat);
    }
}

proof fn lemma_count_mono(s: Set<usize>, t: Set<usize>, n: nat)
    requires
        s.subset_of(t),
    ensures
        count_in(s, n) <= count_in(t, n),
    decreases n,
{
    if n > 0 {
        lemma_count_mono(s, t, (n - 1) as nat);
    }
}

proof fn lemma_count_insert(s: Set<usize>, x: usize, n: nat)
    requires
        x < n,
        n <= usize::MAX + 1,
        !s.contains(x),
    ensures
        count_in(s.insert(x), n) == count_in(s, n) + 1,
    decreases n,
{
    if n - 1 > x {
        lemma_count_insert(s, x, (n - 1) as nat);
    } else {
        lemma_count_eq_below(s, s.insert(x), (n - 1) as nat);
    }
}

proof fn lemma_count_eq_below(s: Set<usize>, t: Set<usize>, n: nat)
    requires
        forall|y: usize| y < n ==> (s.contains(y) <==> t.contains(y)),
    ensures
        count_in(s, n) == count_in(t, n),
    decreases n,
{
    if n > 0 {
        lemma_count_eq_below(s, t, (n - 1) as nat);
    }
}

proof fn lemma_reach_self<'a, T: VariantMatch>(nodes: Seq<Option<Node<'a, T>>>, x: usize)
    ensures
        reachable(nodes, x, x),
{
    let p = seq![x];
    assert(is_walk(nodes, p));
}

/// A walk that ends at `x` goes on to a successor of `x`.
proof fn lemma_reach_append<'a, T: VariantMatch>(
    nodes: Seq<Option<Node<'a, T>>>,
    from: usize,
    x: usize,
    z: usize,
)
    requires
        reachable(nodes, from, x),
        successor(nodes, x, z),
    ensures
        reachable(nodes, from, z),
{
    let p = choose|p: Seq<usize>| #[trigger] is_walk(nodes, p) && p[0] == from && p.last() == x;
    let q = p.push(z);
    assert forall|i: int| 0 <= i < q.len() - 1 implies #[trigger] successor(nodes, q[i], q[i + 1]) by {
        if i < p.len() - 1 {
            assert(q[i] == p[i] && q[i + 1] == p[i + 1]);
        }
    }
    assert(is_walk(nodes, q));
}

/// The slots that the node of slot `x` refers to are slots of `nodes`.
proof fn lemma_successor_below<'a, T: VariantMatch>(
    nodes: Seq<Option<Node<'a, T>>>,
    x: usize,
    y: usize,
)
    requires
        forall|i: int| 0 <= i < nodes.len() ==> slot_below(#[trigger] nodes[i], nodes.len()),
        successor(nodes, x, y),
    ensures
        y < nodes.len(),
{
    assert(slot_below(nodes[x as int], nodes.len()));
    if let Some(Node::Fork(f)) = nodes[x as int] {
        if exists|b: int| 0 <= b < 256 && #[trigger] f.lookup_table@[b] == Some(NodeId(y)) {
            let b = choose|b: int| 0 <= b < 256 && #[trigger] f.lookup_table@[b] == Some(NodeId(y));
            assert(opt_below(f.lookup_table@[b], nodes.len()));
        }
    }
}

/// The slots of `kept` are those of `nodes` reachable from `start`, in
/// order and with their ids compacted.
#[verifier::opaque]
pub open spec fn compacts<'a, T: VariantMatch>(
    kept: Seq<Option<Node<'a, T>>>,
    nodes: Seq<Option<Node<'a, T>>>,
    start: usize,
) -> bool {
    &&& kept.len() == reachable_below(nodes, start, nodes.len() as int)
    &&& forall|j: usize|
        j < nodes.len() && #[trigger] reachable(nodes, start, j) ==> {
            let k = reachable_below(nodes, start, j as int);
            &&& k < kept.len()
            &&& match (nodes[j as int], kept[k as int]) {
                (Some(prev), Some(new)) => is_compacted(new, prev, nodes, start),
                (None, None) => true,
                _ => false,
            }
        }
}

/// At most `x` slots below `x` are reachable.
proof fn lemma_reachable_below_le<'a, T: VariantMatch>(
    nodes: Seq<Option<Node<'a, T>>>,
    start: usize,
    x: int,
)
    requires
        0 <= x,
    ensures
        reachable_below(nodes, start, x) <= x,
    decreases x,
{
    if x > 0 {
        lemma_reachable_below_le(nodes, start, x - 1);
    }
}

/// What [`compacts`] says of one reachable slot.
proof fn lemma_compacts_at<'a, T: VariantMatch>(
    kept: Seq<Option<Node<'a, T>>>,
    nodes: Seq<Option<Node<'a, T>>>,
    start: usize,
    j: usize,
)
    requires
        compacts(kept, nodes, start),
        j < nodes.len(),
        reachable(nodes, start, j),
    ensures
        ({
            let k = reachable_below(nodes, start, j as int);
            &&& k < kept.len()
            &&& match (nodes[j as int], kept[k as int]) {
                (Some(prev), Some(new)) => is_compacted(new, prev, nodes, start),
                (None, None) => true,
                _ => false,
            }
        }),
{
    reveal(compacts);
}

/// A step from a slot is a step, between compacted ids, from the slot that
/// it is compacted into.
proof fn lemma_compacted_successor<'a, T: VariantMatch>(
    kept: Seq<Option<Node<'a, T>>>,
    nodes: Seq<Option<Node<'a, T>>>,
    start: usize,
    x: usize,
    k: usize,
    y: usize,
)
    requires
        x < nodes.len(),
        k < kept.len(),
        slot_below(nodes[x as int], nodes.len()),
        match (nodes[x as int], kept[k as int]) {
            (Some(prev), Some(new)) => is_compacted(new, prev, nodes, start),
            (None, None) => true,
            _ => false,
        },
        successor(nodes, x, y),
    ensures
        successor(kept, k, compacted(nodes, start, NodeId(y)).0),
{
    let ky = compacted(nodes, start, NodeId(y));
    match (nodes[x as int], kept[k as int]) {
        (Some(Node::Fork(g)), Some(Node::Fork(f))) => {
            if exists|b: int| 0 <= b < 256 && #[trigger] g.lookup_table@[b] == Some(NodeId(y)) {
                let b = choose|b: int| 0 <= b < 256 && #[trigger] g.lookup_table@[b] == Some(NodeId(y));
                assert(f.lookup_table@[b] == compacted_opt(nodes, start, g.lookup_table@[b]));
                assert(f.lookup_table@[b] == Some(ky));
            } else if g.miss == Some(NodeId(y)) {
                assert(f.miss == Some(ky));
            } else {
                assert(f.record_miss_backtrack_idx == Some(ky));
            }
        },
        (Some(Node::Rope(q)), Some(Node::Rope(r))) => {
            if q.target == NodeId(y) {
                assert(r.target == ky);
            } else if q.miss == Some(NodeId(y)) {
                assert(r.miss == Some(ky));
            } else {
                assert(r.record_miss_backtrack_idx == Some(ky));
            }
        },
        _ => {},
    }
}

/// Every slot reachable from `start` keeps being reachable, from the
/// compacted start, once the slots are compacted.
proof fn lemma_compacted_reachable<'a, T: VariantMatch>(
    kept: Seq<Option<Node<'a, T>>>,
    nodes: Seq<Option<Node<'a, T>>>,
    start: usize,
    p: Seq<usize>,
)
    requires
        compacts(kept, nodes, start),
        forall|i: int| 0 <= i < nodes.len() ==> slot_below(#[trigger] nodes[i], nodes.len()),
        start < nodes.len(),
        nodes.len() <= usize::MAX,
        is_walk(nodes, p),
        p[0] == start,
    ensures
        reachable(
            kept,
            reachable_below(nodes, start, start as int) as usize,
            reachable_below(nodes, start, p.last() as int) as usize,
        ),
    decreases p.len(),
{
    let r = reachable_below(nodes, start, start as int) as usize;
    if p.len() == 1 {
        lemma_reach_self(kept, r);
    } else {
        let q = p.drop_last();
        assert forall|i: int| 0 <= i < q.len() - 1 implies #[trigger] successor(nodes, q[i], q[i + 1]) by {
            assert(successor(nodes, p[i], p[i + 1]));
        }
        assert(is_walk(nodes, q));
        lemma_compacted_reachable(kept, nodes, start, q);
        let x = q.last();
        assert(successor(nodes, p[p.len() - 2], p[p.len() - 2 + 1]));
        assert(reachable(nodes, start, x));
        if p.len() > 2 {
            assert(successor(nodes, p[p.len() - 3], p[p.len() - 3 + 1]));
            lemma_successor_below(nodes, p[p.len() - 3], x);
        }
        let kx = reachable_below(nodes, start, x as int) as usize;
        lemma_reachable_below_le(nodes, start, x as int);
        assert(kx as int == reachable_below(nodes, start, x as int));
        lemma_compacts_at(kept, nodes, start, x);
        assert(slot_below(nodes[x as int], nodes.len()));
        lemma_compacted_successor(kept, nodes, start, x, kx, p.last());
        lemma_reach_append(
            kept,
            r,
            reachable_below(nodes, start, x as int) as usize,
            reachable_below(nodes, start, p.last() as int) as usize,
        );
    }
}

/// Every compacted slot is the compacted id of a reachable slot.
proof fn lemma_compacted_onto<'a, T: VariantMatch>(
    nodes: Seq<Option<Node<'a, T>>>,
    start: usize,
    x: int,
    k: int,
)
    requires
        0 <= x <= nodes.len(),
        nodes.len() <= usize::MAX,
        0 <= k < reachable_below(nodes, start, x),
    ensures
        exists|j: usize|
            j < x && #[trigger] reachable(nodes, start, j) && reachable_below(nodes, start, j as int) == k,
    decreases x,
{
    if k < reachable_below(nodes, start, x - 1) {
        lemma_compacted_onto(nodes, start, x - 1, k);
    } else {
        let j = (x - 1) as usize;
        assert(reachable(nodes, start, j));
    }
}

proof fn lemma_reach_prepend<'a, T: VariantMatch>(
    nodes: Seq<Option<Node<'a, T>>>,
    x: usize,
    c: usize,
    z: usize,
)
    requires
        successor(nodes, x, c),
        reachable(nodes, c, z),
    ensures
        reachable(nodes, x, z),
{
    let p = choose|p: Seq<usize>| #[trigger] is_walk(nodes, p) && p[0] == c && p.last() == z;
    let q = seq![x] + p;
    assert forall|i: int| 0 <= i < q.len() - 1 implies #[trigger] successor(nodes, q[i], q[i + 1]) by {
        if i > 0 {
            assert(q[i] == p[i - 1]);
            assert(q[i + 1] == p[i]);
            assert(successor(nodes, p[i - 1], p[(i - 1) + 1]));
        }
    }
    assert(is_walk(nodes, q));
    assert(q.last() == z);
}

impl<'a, T: VariantMatch> GraphBuilder<'a, T> {
    /// Marks in `seen` every slot reachable from `node_id` that is not
    /// marked yet.
    pub fn visit_node(&self, node_id: NodeId, seen: &mut HashSet<usize>)
        requires
            self.wf(),
            node_id.0 < self.nodes@.len(),
            forall|x: usize| #[trigger] old(seen)@.contains(x) ==> x < self.nodes@.len(),
        ensures
            old(seen)@.subset_of(final(seen)@),
            final(seen)@.contains(node_id.0),
            forall|x: usize| #[trigger] final(seen)@.contains(x) ==> x < self.nodes@.len(),
            forall|x: usize|
                #[trigger] final(seen)@.contains(x) && !old(seen)@.contains(x) ==> reachable(
                    self.nodes@,
                    node_id.0,
                    x,
                ),
            forall|x: usize, y: usize|
                final(seen)@.contains(x) && !old(seen)@.contains(x) && #[trigger] successor(
                    self.nodes@,
                    x,
                    y,
                ) ==> final(seen)@.contains(y),
        decreases self.nodes@.len() - count_in(old(seen)@, self.nodes@.len()), 1nat,
    {
        let len = self.nodes.len();
        let ghost n = self.nodes@.len();
        let ghost start = seen@;
        if !seen.insert(node_id.0) {
            return;
        }
        proof {
            lemma_count_insert(start, node_id.0, n);
            lemma_count_le(seen@, n);
            lemma_reach_self(self.nodes@, node_id.0);
        }
        match self.nodes.get(node_id) {
            Some(Node::Fork(fork)) => {
                let mut b: usize = 0;
                while b < 256
                    invariant
                        b <= 256,
                        self.wf(),
                        node_id.0 < n,
                        n == self.nodes@.len(),
                        self.nodes@[node_id.0 as int] == Some(Node::<'a, T>::Fork(*fork)),
                        start == old(seen)@,
                        start.subset_of(seen@),
                        seen@.contains(node_id.0),
                        count_in(seen@, n) > count_in(start, n),
                        forall|x: usize| #[trigger] seen@.contains(x) ==> x < n,
                        forall|x: usize|
                            #[trigger] seen@.contains(x) && !start.contains(x) ==> reachable(
                                self.nodes@,
                                node_id.0,
                                x,
                            ),
                        forall|x: usize, y: usize|
                            seen@.contains(x) && !start.contains(x) && x != node_id.0
                                && #[trigger] successor(self.nodes@, x, y) ==> seen@.contains(y),
                        forall|c: int|
                            0 <= c < b ==> (#[trigger] fork.lookup_table@[c] matches Some(t)
                                ==> seen@.contains(t.0)),
                    decreases 256 - b,
                {
                    match fork.lookup_table[b] {
                        Some(child) => {
                            assert(successor(self.nodes@, node_id.0, child.0));
                            self.visit_child(node_id, child, seen, Ghost(start));
                        },
                        None => {},
                    }
                    b = b + 1;
                }
                match fork.miss {
                    Some(child) => {
                        assert(successor(self.nodes@, node_id.0, child.0));
                        self.visit_child(node_id, child, seen, Ghost(start));
                    },
                    None => {},
                }
                match fork.record_miss_backtrack_idx {
                    Some(child) => {
                        assert(successor(self.nodes@, node_id.0, child.0));
                        self.visit_child(node_id, child, seen, Ghost(start));
                    },
                    None => {},
                }
                assert forall|y: usize| #[trigger] successor(self.nodes@, node_id.0, y) implies seen@.contains(y) by {
                    if exists|c: int| 0 <= c < 256 && #[trigger] fork.lookup_table@[c] == Some(NodeId(y)) {
                        let c = choose|c: int| 0 <= c < 256 && #[trigger] fork.lookup_table@[c] == Some(NodeId(y));
                    }
                }
            },
            Some(Node::Rope(rope)) => {
                assert(successor(self.nodes@, node_id.0, rope.target.0));
                self.visit_child(node_id, rope.target, seen, Ghost(start));
                match rope.miss {
                    Some(child) => {
                        assert(successor(self.nodes@, node_id.0, child.0));
                        self.visit_child(node_id, child, seen, Ghost(start));
                    },
                    None => {},
                }
                match rope.record_miss_backtrack_idx {
                    Some(child) => {
                        assert(successor(self.nodes@, node_id.0, child.0));
                        self.visit_child(node_id, child, seen, Ghost(start));
                    },
                    None => {},
                }
            },
            _ => {},
        }
    }

    /// Visits `child`, a successor of `parent`, during the visit of
    /// `parent` that started from the marks `start`.
    fn visit_child(
        &self,
        parent: NodeId,
        child: NodeId,
        seen: &mut HashSet<usize>,
        Ghost(start): Ghost<Set<usize>>,
    )
        requires
            self.wf(),
            parent.0 < self.nodes@.len(),
            successor(self.nodes@, parent.0, child.0),
            child.0 < self.nodes@.len(),
            start.subset_of(old(seen)@),
            old(seen)@.contains(parent.0),
            count_in(old(seen)@, self.nodes@.len()) > count_in(start, self.nodes@.len()),
            forall|x: usize| #[trigger] old(seen)@.contains(x) ==> x < self.nodes@.len(),
            forall|x: usize|
                #[trigger] old(seen)@.contains(x) && !start.contains(x) ==> reachable(
                    self.nodes@,
                    parent.0,
                    x,
                ),
            forall|x: usize, y: usize|
                old(seen)@.contains(x) && !start.contains(x) && x != parent.0
                    && #[trigger] successor(self.nodes@, x, y) ==> old(seen)@.contains(y),
        ensures
            old(seen)@.subset_of(final(seen)@),
            final(seen)@.contains(child.0),
            count_in(final(seen)@, self.nodes@.len()) > count_in(start, self.nodes@.len()),
            forall|x: usize| #[trigger] final(seen)@.contains(x) ==> x < self.nodes@.len(),
            forall|x: usize|
                #[trigger] final(seen)@.contains(x) && !start.contains(x) ==> reachable(
                    self.nodes@,
                    parent.0,
                    x,
                ),
            forall|x: usize, y: usize|
                final(seen)@.contains(x) && !start.contains(x) && x != parent.0
                    && #[trigger] successor(self.nodes@, x, y) ==> final(seen)@.contains(y),
        decreases self.nodes@.len() - count_in(start, self.nodes@.len()), 0nat,
    {
        let ghost before = seen@;
        proof {
            lemma_count_le(seen@, self.nodes@.len());
            lemma_count_le(start, self.nodes@.len());
        }
        self.visit_node(child, seen);
        proof {
            lemma_count_mono(before, seen@, self.nodes@.len());
            assert forall|x: usize|
                #[trigger] seen@.contains(x) && !start.contains(x) implies reachable(
                self.nodes@,
                parent.0,
                x,
            ) by {
                if !before.contains(x) {
                    lemma_reach_prepend(self.nodes@, parent.0, child.0, x);
                }
            }
        }
    }
}

/// The lexer graph: nodes that only refer to each other, and where lexing
/// starts.
#[derive(Debug)]
pub struct Graph<'a, T: VariantMatch> {
    pub nodes: Arena<Node<'a, T>>,
    pub start_node_id: NodeId,
}

/// `o`, when present, is an id below `n`.
pub open spec fn opt_below(o: Option<NodeId>, n: nat) -> bool {
    o matches Some(id) ==> id.0 < n
}

/// The id of `x` once only the slots reachable from `start` are kept: the
/// number of reachable slots below it.
pub open spec fn compacted<'a, T: VariantMatch>(
    nodes: Seq<Option<Node<'a, T>>>,
    start: usize,
    x: NodeId,
) -> NodeId {
    NodeId(reachable_below(nodes, start, x.0 as int) as usize)
}

pub open spec fn compacted_opt<'a, T: VariantMatch>(
    nodes: Seq<Option<Node<'a, T>>>,
    start: usize,
    x: Option<NodeId>,
) -> Option<NodeId> {
    match x {
        Some(id) => Some(compacted(nodes, start, id)),
        None => None,
    }
}

/// `new` is `prev` with every id replaced by its [`compacted`] id.
pub open spec fn is_compacted<'a, T: VariantMatch>(
    new: Node<'a, T>,
    prev: Node<'a, T>,
    nodes: Seq<Option<Node<'a, T>>>,
    start: usize,
) -> bool {
    match (new, prev) {
        (Node::Fork(f), Node::Fork(g)) => {
            &&& f.lookup_table@.len() == g.lookup_table@.len()
            &&& forall|b: int|
                0 <= b < g.lookup_table@.len() ==> #[trigger] f.lookup_table@[b] == compacted_opt(
                    nodes,
                    start,
                    g.lookup_table@[b],
                )
            &&& f.miss == compacted_opt(nodes, start, g.miss)
            &&& f.record_miss_backtrack_idx == compacted_opt(
                nodes,
                start,
                g.record_miss_backtrack_idx,
            )
        },
        (Node::Rope(r), Node::Rope(q)) => {
            &&& r.pattern@ == q.pattern@
            &&& r.target == compacted(nodes, start, q.target)
            &&& r.miss == compacted_opt(nodes, start, q.miss)
            &&& r.record_miss_backtrack_idx == compacted_opt(
                nodes,
                start,
                q.record_miss_backtrack_idx,
            )
        },
        (Node::VariantMatch(x), Node::VariantMatch(y)) => x == y,
        _ => false,
    }
}

/// Every slot reachable from the start of a set closed under
/// [`successor`] lies in it.
proof fn lemma_closed_holds_reachable<'a, T: VariantMatch>(
    nodes: Seq<Option<Node<'a, T>>>,
    s: Set<usize>,
    start: usize,
    x: usize,
)
    requires
        s.contains(start),
        forall|a: usize, b: usize| s.contains(a) && #[trigger] successor(nodes, a, b) ==> s.contains(b),
        reachable(nodes, start, x),
    ensures
        s.contains(x),
{
    let p = choose|p: Seq<usize>| #[trigger] is_walk(nodes, p) && p[0] == start && p.last() == x;
    lemma_walk_stays(nodes, s, p, p.len() - 1);
}

proof fn lemma_walk_stays<'a, T: VariantMatch>(
    nodes: Seq<Option<Node<'a, T>>>,
    s: Set<usize>,
    p: Seq<usize>,
    k: int,
)
    requires
        is_walk(nodes, p),
        0 <= k < p.len(),
        s.contains(p[0]),
        forall|a: usize, b: usize| s.contains(a) && #[trigger] successor(nodes, a, b) ==> s.contains(b),
    ensures
        s.contains(p[k]),
    decreases k,
{
    if k > 0 {
        lemma_walk_stays(nodes, s, p, k - 1);
        assert(successor(nodes, p[k - 1], p[(k - 1) + 1]));
    }
}

/// Below `x`, every slot is either listed or reachable, never both.
proof fn lemma_listed_plus_reachable<'a, T: VariantMatch>(
    nodes: Seq<Option<Node<'a, T>>>,
    start: usize,
    ids: Seq<NodeId>,
    n: int,
    x: int,
)
    requires
        0 <= x <= n <= usize::MAX,
        forall|y: usize| y < n ==> (is_listed(ids, y as int) <==> !reachable(nodes, start, y)),
    ensures
        listed_below(ids, x) + reachable_below(nodes, start, x) == x,
    decreases x,
{
    if x > 0 {
        lemma_listed_plus_reachable(nodes, start, ids, n, x - 1);
        assert(is_listed(ids, x - 1) <==> !reachable(nodes, start, (x - 1) as usize));
    }
}

impl<'a, T: VariantMatch> GraphBuilder<'a, T> {
    /// Deletes every slot that cannot be reached from `start_node_id` and
    /// renumbers the rest, keeping their order; returns the new id of the
    /// start.
    pub fn shake(&mut self, start_node_id: NodeId) -> (r: NodeId)
        requires
            old(self).wf(),
            start_node_id.0 < old(self).nodes@.len(),
        ensures
            ({
                let nodes = old(self).nodes@;
                let start = start_node_id.0;
                &&& final(self).nodes@.len() == reachable_below(nodes, start, nodes.len() as int)
                &&& r == compacted(nodes, start, start_node_id)
                &&& r.0 < final(self).nodes@.len()
                &&& forall|j: usize|
                    j < nodes.len() && #[trigger] reachable(nodes, start, j) ==> {
                        let k = reachable_below(nodes, start, j as int);
                        &&& k < final(self).nodes@.len()
                        &&& match (nodes[j as int], final(self).nodes@[k as int]) {
                            (Some(prev), Some(new)) => is_compacted(new, prev, nodes, start),
                            (None, None) => true,
                            _ => false,
                        }
                    }
                &&& forall|k: int|
                    0 <= k < final(self).nodes@.len() ==> (#[trigger] final(self).nodes@[k] matches Some(
                        node,
                    ) ==> node.ids_below(final(self).nodes@.len()))
            }),
            all_built(old(self).nodes@) ==> all_built(final(self).nodes@),
            forall|k: usize| k < final(self).nodes@.len() ==> #[trigger] reachable(final(self).nodes@, r.0, k),
    {
        let ghost nodes = self.nodes@;
        let ghost start = start_node_id.0;
        let total = self.nodes.len();
        let mut seen: HashSet<usize> = HashSet::new();
        self.visit_node(start_node_id, &mut seen);
        proof {
            assert forall|y: usize| y < nodes.len() implies (seen@.contains(y) <==> reachable(nodes, start, y)) by {
                if reachable(nodes, start, y) {
                    lemma_closed_holds_reachable(nodes, seen@, start, y);
                }
            }
        }
        let ids = self.nodes.iter_ids();
        let mut to_delete: Vec<NodeId> = Vec::new();
        let mut i: usize = 0;
        while i < ids.len()
            invariant
                i <= ids@.len(),
                ids@.len() == nodes.len(),
                forall|j: int| 0 <= j < ids@.len() ==> (#[trigger] ids@[j]).0 == j,
                forall|j: int| 0 <= j < to_delete@.len() ==> (#[trigger] to_delete@[j]).0 < nodes.len(),
                forall|y: usize|
                    y < nodes.len() ==> (is_listed(to_delete@, y as int) <==> (y < i
                        && !seen@.contains(y))),
            decreases ids@.len() - i,
        {
            let id = ids[i];
            assert(id.0 == i);
            if !seen.contains(&id.0) {
                let ghost prev = to_delete@;
                to_delete.push(id);
                proof {
                    assert forall|y: usize| y < nodes.len() implies (is_listed(to_delete@, y as int) <==> (y < i + 1
                        && !seen@.contains(y))) by {
                        if is_listed(to_delete@, y as int) {
                            let w = choose|w: int| 0 <= w < to_delete@.len() && #[trigger] to_delete@[w].0 == y as int;
                            if w < prev.len() {
                                assert(prev[w].0 == y);
                            }
                        }
                        if y < i && !seen@.contains(y) {
                            let w = choose|w: int| 0 <= w < prev.len() && #[trigger] prev[w].0 == y as int;
                            assert(to_delete@[w].0 == y);
                        }
                        if y == i {
                            assert(to_delete@[prev.len() as int].0 == y);
                        }
                    }
                }
            } else {
                proof {
                    assert forall|y: usize| y < nodes.len() implies (is_listed(to_delete@, y as int) <==> (y < i + 1
                        && !seen@.contains(y))) by {
                        if is_listed(to_delete@, y as int) {
                            let w = choose|w: int| 0 <= w < to_delete@.len() && #[trigger] to_delete@[w].0 == y as int;
                        }
                    }
                }
            }
            i = i + 1;
        }
        let ghost listed = to_delete@;
        proof {
            assert forall|j: int|
                0 <= j < nodes.len() && !is_listed(listed, j) implies (#[trigger] nodes[j] matches Some(node)
                ==> node.ids_below(nodes.len()) && avoids(node, listed)) by {
                assert(seen@.contains(j as usize));
                assert(slot_below(nodes[j], nodes.len()));
                if let Some(node) = nodes[j] {
                    match node {
                        Node::Fork(f) => {
                            assert forall|b: int| 0 <= b < 256 implies opt_unlisted(listed, #[trigger] f.lookup_table@[b]) by {
                                if let Some(y) = f.lookup_table@[b] {
                                    assert(successor(nodes, j as usize, y.0));
                                    assert(seen@.contains(y.0));
                                }
                            }
                            if let Some(y) = f.miss {
                                assert(successor(nodes, j as usize, y.0));
                            }
                            if let Some(y) = f.record_miss_backtrack_idx {
                                assert(successor(nodes, j as usize, y.0));
                            }
                        },
                        Node::Rope(r) => {
                            assert(successor(nodes, j as usize, r.target.0));
                            if let Some(y) = r.miss {
                                assert(successor(nodes, j as usize, y.0));
                            }
                            if let Some(y) = r.record_miss_backtrack_idx {
                                assert(successor(nodes, j as usize, y.0));
                            }
                        },
                        _ => {},
                    }
                }
            }
            assert(seen@.contains(start));
        }
        let r = self.nodes.delete_nodes(to_delete, start_node_id);
        proof {
            let n = nodes.len() as int;
            assert forall|y: usize| y < n implies (is_listed(listed, y as int) <==> !reachable(nodes, start, y)) by {}
            assert forall|x: int| 0 <= x <= n implies listed_below(listed, x) + reachable_below(nodes, start, x) == x by {
                lemma_listed_plus_reachable(nodes, start, listed, n, x);
            }
            assert forall|y: usize| y < n implies #[trigger] renumbered(listed, NodeId(y)) == compacted(nodes, start, NodeId(y)) by {}
            assert forall|j: usize|
                j < nodes.len() && #[trigger] reachable(nodes, start, j) implies {
                    let k = reachable_below(nodes, start, j as int);
                    &&& k < self.nodes@.len()
                    &&& match (nodes[j as int], self.nodes@[k as int]) {
                        (Some(prev), Some(new)) => is_compacted(new, prev, nodes, start),
                        (None, None) => true,
                        _ => false,
                    }
                } by {
                assert(!is_listed(listed, j as int));
                assert(slot_below(nodes[j as int], nodes.len()));
                let k = reachable_below(nodes, start, j as int);
                if let (Some(prev), Some(new)) = (nodes[j as int], self.nodes@[k as int]) {
                    match (new, prev) {
                        (Node::Fork(f), Node::Fork(g)) => {
                            assert forall|b: int| 0 <= b < g.lookup_table@.len() implies #[trigger] f.lookup_table@[b]
                                == compacted_opt(nodes, start, g.lookup_table@[b]) by {
                                assert(f.lookup_table@[b] == renumbered_opt(listed, g.lookup_table@[b]));
                                if let Some(y) = g.lookup_table@[b] {
                                    assert(opt_below(g.lookup_table@[b], nodes.len()));
                                }
                            }
                        },
                        _ => {},
                    }
                }
            }
        }
        proof {
            let kept = self.nodes@;
            reveal(compacts);
            assert(compacts(kept, nodes, start));
            assert forall|k: usize| k < kept.len() implies #[trigger] reachable(kept, r.0, k) by {
                lemma_compacted_onto(nodes, start, nodes.len() as int, k as int);
                let j = choose|j: usize|
                    j < nodes.len() && #[trigger] reachable(nodes, start, j) && reachable_below(nodes, start, j as int) == k;
                let p = choose|p: Seq<usize>| #[trigger] is_walk(nodes, p) && p[0] == start && p.last() == j;
                lemma_compacted_reachable(kept, nodes, start, p);
            }
        }
        r
    }
}

impl<'a, T: VariantMatch> Graph<'a, T> {
    /// The nodes as built slots, for walks (see [`reachable`]).
    pub open spec fn slots(&self) -> Seq<Option<Node<'a, T>>> {
        Seq::new(self.nodes@.len(), |i: int| Some(self.nodes@[i]))
    }

    /// Every id that the graph holds names one of its nodes.
    pub open spec fn wf(&self) -> bool {
        &&& self.start_node_id.0 < self.nodes@.len()
        &&& forall|i: int| 0 <= i < self.nodes@.len() ==> (#[trigger] self.nodes@[i]).ids_below(
            self.nodes@.len(),
        )
    }

    pub fn start_node_id(&self) -> (r: NodeId)
        ensures
            r == self.start_node_id,
    {
        self.start_node_id
    }

    /// The node with id `id`.
    pub fn get(&self, id: NodeId) -> (r: &Node<'a, T>)
        requires
            id.0 < self.nodes@.len(),
        ensures
            *r == self.nodes@[id.0 as int],
    {
        self.nodes.get(id)
    }

    /// The number of nodes.
    pub fn len(&self) -> (n: usize)
        ensures
            n == self.nodes@.len(),
    {
        self.nodes.len()
    }

    /// Each node id with its node, in id order.
    pub fn iter(&self) -> (entries: Vec<(NodeId, &Node<'a, T>)>)
        ensures
            entries@.len() == self.nodes@.len(),
            forall|i: int|
                0 <= i < entries@.len() ==> (#[trigger] entries@[i]).0.0 == i && *entries@[i].1
                    == self.nodes@[i],
    {
        self.nodes.iter()
    }

    /// Compiles the specifications of `lexer` into one graph: a start fork
    /// into which the fork of every variant match is merged, with the slots
    /// that cannot be reached from it removed. Fails with the errors that
    /// building recorded, such as two variant matches that overlap with the
    /// same priority.
    ///
    /// Stated of particular lexers: a lexer whose variants read fixed runs
    /// of byte classes with pairwise disjoint first classes (or a lexer of
    /// one such variant) always builds, into a graph that reads exactly those
    /// runs; two one-byte-class variants that share a byte build when their
    /// priorities differ and fail with their overlap when they are equal.
    pub fn for_lexer(lexer: &'a Lexer<T>) -> (r: Result<Self, Vec<Error<'a, T>>>)
        requires
            forall|i: int|
                0 <= i < lexer.variant_matches@.len() ==> buildable(
                    (#[trigger] lexer.variant_matches@[i]).0,
                ),
        ensures
            r matches Ok(graph) ==> graph.wf(),
            r matches Ok(graph) ==> forall|k: usize|
                k < graph.nodes@.len() ==> #[trigger] reachable(graph.slots(), graph.start_node_id.0, k),
            r matches Err(errors) ==> errors@.len() > 0 && overlaps_have_equal_priority(errors@),
            r matches Err(errors) ==> overlaps_name_variants(errors@, lexer.variant_matches@),
            class_lexer(lexer.variant_matches@) ==> (r matches Ok(graph) ==> class_lexer_start(
                graph.slots(),
                graph.start_node_id.0,
                lexer.variant_matches@,
            )),
            single_class_sequence(lexer.variant_matches@) ==> (r matches Ok(graph) ==> class_chain(
                graph.slots(),
                graph.start_node_id.0,
                classes_of(lexer.variant_matches@[0].0),
                lexer.variant_matches@[0].1,
            )),
            (class_lexer(lexer.variant_matches@) || single_class_sequence(lexer.variant_matches@)) && 2
                * lexer.variant_matches@.len() < usize::MAX ==> r is Ok,
            overlapping_pair(lexer.variant_matches@) ==> (r matches Err(errors) && errors@ == seq![
                Error::VariantMatchesOverlapWithSamePriority(
                    &lexer.variant_matches@[1].1,
                    &lexer.variant_matches@[0].1,
                ),
            ]),
            byte_class_pair(lexer.variant_matches@) && lexer.variant_matches@[0].1.spec_priority()
                != lexer.variant_matches@[1].1.spec_priority() ==> r is Ok,
            single_bounded_loop(lexer.variant_matches@) ==> (r matches Ok(graph) && loop_lexer_start(
                graph.slots(),
                graph.start_node_id.0,
                lexer.variant_matches@,
            )),
            single_unbounded_loop(lexer.variant_matches@) ==> (r matches Ok(graph) && star_lexer_start(
                graph.slots(),
                graph.start_node_id.0,
                lexer.variant_matches@,
            )),
    {
        let ghost sp = single_unbounded_loop(lexer.variant_matches@);
        let ghost lp = single_bounded_loop(lexer.variant_matches@);
        let ghost lcl = classes_of(*lexer.variant_matches@[0].0->Loop_0.specification);
        let ghost lmax = lexer.variant_matches@[0].0->Loop_0.max->0;
        let ghost lmin = lexer.variant_matches@[0].0->Loop_0.min;
        let ghost pair = byte_class_pair(lexer.variant_matches@);
        let ghost fits = (class_lexer(lexer.variant_matches@) || single_class_sequence(
            lexer.variant_matches@,
        )) && 2 * lexer.variant_matches@.len() < usize::MAX;
        let ghost single = single_class_sequence(lexer.variant_matches@);
        let ghost classes = classes_of(lexer.variant_matches@[0].0);
        let ghost multi = class_lexer(lexer.variant_matches@);
        let ghost mut terms: Seq<usize> = Seq::empty();
        let mut builder: GraphBuilder<'a, T> = GraphBuilder::new();
        let mut start_fork = Fork::new();
        let variant_matches = lexer.variant_matches();
        let mut i: usize = 0;
        while i < variant_matches.len()
            invariant
                i <= variant_matches@.len(),
                variant_matches@ == lexer.variant_matches@,
                forall|j: int|
                    0 <= j < lexer.variant_matches@.len() ==> buildable(
                        (#[trigger] lexer.variant_matches@[j]).0,
                    ),
                builder.wf(),
                builder.in_progress@.is_empty(),
                forall|m: &'a T| #[trigger] builder.matches@.contains(m) ==> is_variant_of(*m, lexer.variant_matches@),
                start_fork.ids_below(builder.nodes@.len()),
                single == single_class_sequence(lexer.variant_matches@),
                classes == classes_of(lexer.variant_matches@[0].0),
                i > 0 ==> builder.nodes@.len() > 0,
                i == 0 ==> start_fork.table_is_empty() && start_fork.miss is None
                    && start_fork.record_miss_backtrack_idx is None && builder.nodes@.len() == 0,
                multi == class_lexer(lexer.variant_matches@),
                fits == ((multi || single) && 2 * lexer.variant_matches@.len() < usize::MAX),
                fits ==> !builder.step_limit_reached && builder.errors@.len() == 0
                    && builder.steps_left >= usize::MAX - 2 * i,
                pair == byte_class_pair(lexer.variant_matches@),
                lp == single_bounded_loop(lexer.variant_matches@),
                sp == single_unbounded_loop(lexer.variant_matches@),
                sp ==> !builder.step_limit_reached && builder.errors@.len() == 0 && builder.steps_left
                    >= usize::MAX - 3 * i,
                sp && i == 1 ==> {
                    &&& fork_into_star(start_fork, builder.nodes@, lcl, (lmin - 1) as nat, NodeId(terms[0]))
                    &&& builder.nodes@[terms[0] as int] == Some(
                        Node::<'a, T>::VariantMatch(&lexer.variant_matches@[0].1),
                    )
                },
                lcl == classes_of(*lexer.variant_matches@[0].0->Loop_0.specification),
                lmax == lexer.variant_matches@[0].0->Loop_0.max->0,
                lmin == lexer.variant_matches@[0].0->Loop_0.min,
                lp ==> !builder.step_limit_reached && builder.errors@.len() == 0 && builder.steps_left
                    >= usize::MAX - 2 * i,
                lp && i == 1 ==> {
                    &&& fork_into_chain(
                        start_fork,
                        builder.nodes@,
                        lcl,
                        (lmax - 1) as nat,
                        (lmin - 1) as nat,
                        NodeId(terms[0]),
                    )
                    &&& builder.nodes@[terms[0] as int] == Some(
                        Node::<'a, T>::VariantMatch(&lexer.variant_matches@[0].1),
                    )
                },
                pair ==> !builder.step_limit_reached && builder.steps_left >= usize::MAX - 3 * i,
                pair && i < 2 ==> {
                    &&& builder.errors@.len() == 0
                    &&& builder.merges@ == Map::<u128, NodeId>::empty()
                    &&& builder.joined@.len() == 0
                },
                pair && i == 1 ==> {
                    &&& start_fork.miss is None
                    &&& start_fork.record_miss_backtrack_idx is None
                    &&& forall|b: u8|
                        #![trigger start_fork.lookup_table@[b as int]]
                        start_fork.lookup_table@[b as int] == if in_byte_class(
                            first_class(lexer.variant_matches@, 0),
                            b,
                        ) {
                            Some(NodeId(terms[0]))
                        } else {
                            None
                        }
                    &&& builder.nodes@[terms[0] as int] == Some(
                        Node::<'a, T>::VariantMatch(&lexer.variant_matches@[0].1),
                    )
                    &&& builder.nodes@.len() == terms[0] + 1
                },
                pair && i == 2 ==> builder.errors@ == if lexer.variant_matches@[0].1.spec_priority()
                    == lexer.variant_matches@[1].1.spec_priority() {
                    seq![
                        Error::VariantMatchesOverlapWithSamePriority(
                            &lexer.variant_matches@[1].1,
                            &lexer.variant_matches@[0].1,
                        ),
                    ]
                } else {
                    Seq::empty()
                },
                terms.len() == i,
                forall|k: int| 0 <= k < i ==> #[trigger] terms[k] < builder.nodes@.len(),
                forall|j: int, k: int| 0 <= j < k < i ==> #[trigger] terms[j] < #[trigger] terms[k],
                multi && !builder.step_limit_reached ==> lexer_fork_so_far(
                    start_fork,
                    builder.nodes@,
                    lexer.variant_matches@,
                    terms,
                    i as int,
                ),
                single && i == 1 && !builder.step_limit_reached ==> {
                    &&& class_fork(start_fork, classes, NodeId(0), builder.nodes@)
                    &&& builder.nodes@[0] matches Some(Node::VariantMatch(x))
                        && *x == lexer.variant_matches@[0].1
                },
            decreases variant_matches@.len() - i,
        {
            let ghost before = builder;
            let ghost empty = start_fork;
            let slots_before = builder.nodes.len();
            proof {
                if fits || pair {
                    assert(is_class_sequence(lexer.variant_matches@[i as int].0));
                }
            }
            let fork_for_variant_match = builder.fork_for_variant_match(&variant_matches[i]);
            let ghost middle = builder;
            let ghost old_terms = terms;
            proof {
                terms = terms.push(slots_before);
                if fits {
                    let vms = lexer.variant_matches@;
                    let f = fork_for_variant_match;
                    assert(class_fork(f, classes_of(vms[i as int].0), NodeId(slots_before), middle.nodes@));
                    assert forall|b: int| 0 <= b < 256 implies (#[trigger] start_fork.lookup_table@[b]) is None
                        || f.lookup_table@[b] is None by {
                        let bb = b as u8;
                        assert(bb as int == b);
                        if f.lookup_table@[bb as int] is Some {
                            assert(in_byte_class(first_class(vms, i as int), bb));
                            if multi {
                                assert forall|k: int| 0 <= k < i implies !in_byte_class(
                                    first_class(vms, k),
                                    bb,
                                ) by {
                                    if in_byte_class(first_class(vms, k), bb) {
                                        assert(in_byte_class(first_class(vms, i as int), bb));
                                    }
                                }
                                assert(start_fork.lookup_table@[bb as int] is None);
                            } else {
                                assert(start_fork.lookup_table@[bb as int] is None);
                            }
                        }
                    }
                }
            }
            let ghost start_before = start_fork;
            proof {
                if lp || sp {
                    let f = fork_for_variant_match;
                    assert forall|b: int| 0 <= b < 256 implies (#[trigger] start_fork.lookup_table@[b]) is None
                        || f.lookup_table@[b] is None by {
                        assert(start_fork.lookup_table@[(b as u8) as int] is None);
                    }
                }
                if pair && i == 0 {
                    let f = fork_for_variant_match;
                    assert(class_fork(f, classes_of(lexer.variant_matches@[0].0), NodeId(slots_before), middle.nodes@));
                    assert forall|b: int| 0 <= b < 256 implies (#[trigger] start_fork.lookup_table@[b]) is None
                        || f.lookup_table@[b] is None by {
                        assert(start_fork.lookup_table@[(b as u8) as int] is None);
                    }
                }
                if pair && i == 1 {
                    let vms = lexer.variant_matches@;
                    let f = fork_for_variant_match;
                    let x = NodeId(old_terms[0]);
                    let y = NodeId(slots_before);
                    assert(class_fork(f, classes_of(vms[1].0), y, middle.nodes@));
                    let b0 = choose|b: u8| in_byte_class(first_class(vms, 0), b) && in_byte_class(first_class(vms, 1), b);
                    assert(both_at(start_fork, f, b0 as int));
                    assert forall|d: int| 0 <= d < 256 && #[trigger] both_at(start_fork, f, d) implies start_fork.lookup_table@[d]
                        == Some(x) && f.lookup_table@[d] == Some(y) by {
                        let bd = d as u8;
                        assert(bd as int == d);
                        assert(start_fork.lookup_table@[bd as int] is Some);
                        assert(f.lookup_table@[bd as int] is Some);
                    }
                    assert(one_shared_pair(start_fork, f) == Some((x, y)));
                    assert(middle.nodes@[x.0 as int] == before.nodes@[x.0 as int]);
                    assert(middle.memo(y, x) is None);
                    assert(middle.parts(x) == set![x.0]);
                    assert(middle.parts(y) == set![y.0]);
                    assert(x.0 != y.0);
                    assert(middle.parts(y).union(middle.parts(x)) != middle.parts(y)) by {
                        assert(middle.parts(y).union(middle.parts(x)).contains(x.0));
                        assert(!middle.parts(y).contains(x.0));
                    }
                    assert(middle.parts(y).union(middle.parts(x)) != middle.parts(x)) by {
                        assert(middle.parts(y).union(middle.parts(x)).contains(y.0));
                    }
                    assert(middle.canonical(y, x) is None);
                }
            }
            start_fork.merge(fork_for_variant_match, &mut builder);
            proof {
                if sp {
                    let f = fork_for_variant_match;
                    assert(i == 0);
                    assert(fork_into_star(f, middle.nodes@, lcl, (lmin - 1) as nat, NodeId(slots_before)));
                    let t = choose|t: NodeId|
                        #![trigger middle.nodes@[t.0 as int]]
                        {
                            &&& t.0 < middle.nodes@.len()
                            &&& middle.nodes@[t.0 as int] is Some
                            &&& star_chain(middle.nodes@, middle.nodes@[t.0 as int]->Some_0, lcl, (lmin - 1) as nat, NodeId(slots_before))
                            &&& forall|b: u8|
                                #![trigger f.lookup_table@[b as int]]
                                f.lookup_table@[b as int] == if in_byte_class(lcl[0], b) {
                                    Some(t)
                                } else {
                                    None
                                }
                        };
                    assert(builder.nodes@ == middle.nodes@);
                    assert forall|b: u8| #![trigger start_fork.lookup_table@[b as int]]
                        start_fork.lookup_table@[b as int] == if in_byte_class(lcl[0], b) {
                            Some(t)
                        } else {
                            None
                        } by {
                        assert(start_before.lookup_table@[b as int] is None);
                    }
                    assert(builder.nodes@[t.0 as int] is Some);
                }
            }
            proof {
                if lp {
                    let f = fork_for_variant_match;
                    assert(i == 0);
                    assert(fork_into_chain(f, middle.nodes@, lcl, (lmax - 1) as nat, (lmin - 1) as nat, NodeId(slots_before)));
                    let t = choose|t: NodeId|
                        #![trigger middle.nodes@[t.0 as int]]
                        {
                            &&& t.0 < middle.nodes@.len()
                            &&& middle.nodes@[t.0 as int] is Some
                            &&& loop_chain(middle.nodes@, middle.nodes@[t.0 as int]->Some_0, lcl, (lmax - 1) as nat, (lmin - 1) as nat, NodeId(slots_before))
                            &&& forall|b: u8|
                                #![trigger f.lookup_table@[b as int]]
                                f.lookup_table@[b as int] == if in_byte_class(lcl[0], b) {
                                    Some(t)
                                } else {
                                    None
                                }
                        };
                    assert(builder.nodes@ == middle.nodes@);
                    assert forall|b: u8| #![trigger start_fork.lookup_table@[b as int]]
                        start_fork.lookup_table@[b as int] == if in_byte_class(lcl[0], b) {
                            Some(t)
                        } else {
                            None
                        } by {
                        assert(start_before.lookup_table@[b as int] is None);
                    }
                    assert(builder.nodes@[t.0 as int] is Some);
                }
            }
            proof {
                if pair && i == 0 {
                    let f = fork_for_variant_match;
                    assert forall|b: u8| #![trigger start_fork.lookup_table@[b as int]]
                        start_fork.lookup_table@[b as int] == if in_byte_class(
                            first_class(lexer.variant_matches@, 0),
                            b,
                        ) {
                            Some(NodeId(terms[0]))
                        } else {
                            None
                        } by {
                        assert(start_before.lookup_table@[b as int] is None);
                    }
                }
            }
            proof {
                assert forall|k: int| 0 <= k < i + 1 implies #[trigger] terms[k] < builder.nodes@.len() by {
                    if k < i {
                        assert(terms[k] == old_terms[k]);
                    }
                }
                assert forall|j: int, k: int| 0 <= j < k < i + 1 implies #[trigger] terms[j] < #[trigger] terms[k] by {
                    assert(terms[j] == old_terms[j]);
                    if k < i {
                        assert(terms[k] == old_terms[k]);
                    }
                }
                if multi && !builder.step_limit_reached {
                    let vms = lexer.variant_matches@;
                    assert(lexer_fork_so_far(empty, before.nodes@, vms, old_terms, i as int));
                    assert forall|k: int| 0 <= k < i implies #[trigger] terms[k] == old_terms[k] by {}
                    assert(lexer_fork_so_far(empty, before.nodes@, vms, terms, i as int));
                    assert(is_class_sequence(vms[i as int].0));
                    lemma_lexer_fork_step(
                        empty,
                        fork_for_variant_match,
                        start_fork,
                        before.nodes@,
                        middle.nodes@,
                        builder.nodes@,
                        vms,
                        terms,
                        i as int,
                    );
                }
            }
            proof {
                if single && i == 0 && !builder.step_limit_reached {
                    let f = fork_for_variant_match;
                    assert(class_fork(f, classes, NodeId(0), middle.nodes@));
                    assert forall|b: u8| #![trigger start_fork.lookup_table@[b as int]]
                        start_fork.lookup_table@[b as int] == f.lookup_table@[b as int] by {
                        assert(empty.lookup_table@[b as int] is None);
                    }
                    assert(builder.nodes@[0] == middle.nodes@[0]);
                    if classes.len() > 1 {
                        let t = choose|t: NodeId|
                            #![trigger middle.nodes@[t.0 as int]]
                            {
                                &&& t.0 < middle.nodes@.len()
                                &&& class_rope(middle.nodes@[t.0 as int], classes.drop_first(), NodeId(0))
                                &&& forall|b: u8|
                                    #![trigger f.lookup_table@[b as int]]
                                    f.lookup_table@[b as int] == if in_byte_class(classes[0], b) {
                                        Some(t)
                                    } else {
                                        None
                                    }
                            };
                        assert(builder.nodes@[t.0 as int] == middle.nodes@[t.0 as int]);
                    }
                }
            }
            i = i + 1;
        }
        let ghost pre_insert = builder;
        let start_node = Node::from_fork(start_fork);
        let start_node_id = builder.insert(start_node);
        proof {
            if sp {
                let t = choose|t: NodeId|
                    #![trigger pre_insert.nodes@[t.0 as int]]
                    {
                        &&& t.0 < pre_insert.nodes@.len()
                        &&& pre_insert.nodes@[t.0 as int] is Some
                        &&& star_chain(pre_insert.nodes@, pre_insert.nodes@[t.0 as int]->Some_0, lcl, (lmin - 1) as nat, NodeId(terms[0]))
                        &&& forall|b: u8|
                            #![trigger start_fork.lookup_table@[b as int]]
                            start_fork.lookup_table@[b as int] == if in_byte_class(lcl[0], b) {
                                Some(t)
                            } else {
                                None
                            }
                    };
                let b0 = choose|b: u8| in_byte_class(lcl[0], b);
                assert(start_fork.lookup_table@[b0 as int] == Some(t));
                assert(single_target(&start_fork, t));
                let rs = start_node->Rope_0;
                assert(rs.target == t) by {
                    assert(start_fork.lookup_table@[b0 as int] is Some);
                }
                assert(reads_classes(rs.pattern@, lcl)) by {
                    assert forall|q: int, b: u8| 0 <= q < rs.pattern@.len() implies (#[trigger] rs.pattern@[q].has(b)
                        <==> in_byte_class(lcl[q], b)) by {
                        assert(q == 0);
                        assert(rs.pattern@[0].has(b) <==> start_fork.lookup_table@[b as int] is Some);
                    }
                }
                assert(star_chain(pre_insert.nodes@, start_node, lcl, lmin as nat, NodeId(terms[0])));
                lemma_node_same_itself(start_node);
                assert(holds_same(builder.nodes@, start_node_id.0 as int, start_node));
                assert forall|q: int| 0 <= q < pre_insert.nodes@.len() implies #[trigger] builder.nodes@[q]
                    == pre_insert.nodes@[q] by {}
                lemma_star_chain_extend(pre_insert.nodes@, builder.nodes@, start_node, lcl, lmin as nat, NodeId(terms[0]));
                lemma_star_chain_same(builder.nodes@, start_node, builder.nodes@[start_node_id.0 as int]->Some_0, lcl, lmin as nat, NodeId(terms[0]));
            }
            if lp {
                let t = choose|t: NodeId|
                    #![trigger pre_insert.nodes@[t.0 as int]]
                    {
                        &&& t.0 < pre_insert.nodes@.len()
                        &&& pre_insert.nodes@[t.0 as int] is Some
                        &&& loop_chain(pre_insert.nodes@, pre_insert.nodes@[t.0 as int]->Some_0, lcl, (lmax - 1) as nat, (lmin - 1) as nat, NodeId(terms[0]))
                        &&& forall|b: u8|
                            #![trigger start_fork.lookup_table@[b as int]]
                            start_fork.lookup_table@[b as int] == if in_byte_class(lcl[0], b) {
                                Some(t)
                            } else {
                                None
                            }
                    };
                let b0 = choose|b: u8| in_byte_class(lcl[0], b);
                assert(start_fork.lookup_table@[b0 as int] == Some(t));
                assert(single_target(&start_fork, t));
                let rs = start_node->Rope_0;
                assert(rs.target == t) by {
                    assert(start_fork.lookup_table@[b0 as int] is Some);
                }
                assert(reads_classes(rs.pattern@, lcl)) by {
                    assert forall|q: int, b: u8| 0 <= q < rs.pattern@.len() implies (#[trigger] rs.pattern@[q].has(b)
                        <==> in_byte_class(lcl[q], b)) by {
                        assert(q == 0);
                        assert(rs.pattern@[0].has(b) <==> start_fork.lookup_table@[b as int] is Some);
                    }
                }
                assert(loop_chain(pre_insert.nodes@, start_node, lcl, lmax as nat, lmin as nat, NodeId(terms[0])));
                lemma_node_same_itself(start_node);
                assert(holds_same(builder.nodes@, start_node_id.0 as int, start_node));
                assert forall|q: int| 0 <= q < pre_insert.nodes@.len() implies #[trigger] builder.nodes@[q]
                    == pre_insert.nodes@[q] by {}
                lemma_loop_chain_extend(pre_insert.nodes@, builder.nodes@, start_node, lcl, lmax as nat, lmin as nat, NodeId(terms[0]));
                lemma_loop_chain_same(builder.nodes@, start_node, builder.nodes@[start_node_id.0 as int]->Some_0, lcl, lmax as nat, lmin as nat, NodeId(terms[0]));
            }
        }
        proof {
            if multi && !builder.step_limit_reached {
                lemma_class_lexer_start(
                    pre_insert.nodes@,
                    builder.nodes@,
                    start_fork,
                    start_node,
                    start_node_id,
                    lexer.variant_matches@,
                    terms,
                );
            }
            if single && !builder.step_limit_reached {
                lemma_class_start(
                    pre_insert.nodes@,
                    builder.nodes@,
                    start_fork,
                    start_node,
                    start_node_id,
                    classes,
                    lexer.variant_matches@[0].1,
                );
            }
        }
        if builder.step_limit_reached {
            builder.errors.push(Error::StepLimitReached);
        }
        if builder.errors.len() > 0 {
            return Err(builder.errors);
        }
        proof {
            builder.lemma_finished_is_built();
        }
        let ghost pre_shake = builder.nodes@;
        let ghost start0 = start_node_id.0;
        let total = builder.nodes.len();
        let start_node_id = builder.shake(start_node_id);
        proof {
            if sp {
                reveal(compacts);
                lemma_reach_self(pre_shake, start0);
                lemma_star_chain_compacted(pre_shake, builder.nodes@, start0, start0, lcl, lmin as nat, NodeId(terms[0]));
                let ct = compacted(pre_shake, start0, NodeId(terms[0]));
                lemma_reachable_below_le(pre_shake, start0, terms[0] as int);
                lemma_compacts_at(builder.nodes@, pre_shake, start0, terms[0]);
                assert(builder.nodes@[ct.0 as int] == Some(Node::<'a, T>::VariantMatch(&lexer.variant_matches@[0].1)));
            }
            if lp {
                reveal(compacts);
                lemma_reach_self(pre_shake, start0);
                lemma_loop_chain_compacted(pre_shake, builder.nodes@, start0, start0, lcl, lmax as nat, lmin as nat, NodeId(terms[0]));
                let ct = compacted(pre_shake, start0, NodeId(terms[0]));
                lemma_reachable_below_le(pre_shake, start0, terms[0] as int);
                lemma_compacts_at(builder.nodes@, pre_shake, start0, terms[0]);
                assert(builder.nodes@[ct.0 as int] == Some(Node::<'a, T>::VariantMatch(&lexer.variant_matches@[0].1)));
            }
            if single {
                lemma_chain_compacted(pre_shake, builder.nodes@, start0, classes, lexer.variant_matches@[0].1);
            }
            if multi {
                reveal(compacts);
                lemma_lexer_start_compacted(pre_shake, builder.nodes@, start0, lexer.variant_matches@);
            }
        }
        let nodes = builder.nodes.into_built();
        let graph = Graph { nodes, start_node_id };
        assert forall|i: int| 0 <= i < graph.nodes@.len() implies (#[trigger] graph.nodes@[i]).ids_below(
            graph.nodes@.len(),
        ) by {
            assert(Some(graph.nodes@[i]) == builder.nodes@[i]);
        }
        assert(graph.slots() =~= builder.nodes@);
        Ok(graph)
    }
}

} // verus!
