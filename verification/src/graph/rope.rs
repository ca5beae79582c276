//! A node that reads a fixed number of bytes, each from its own byte set.
use vstd::prelude::*;

use crate::graph::arena::NodeId;
use crate::graph::byte_set::ByteSet;
use crate::graph::fork::{absorbs_miss, all_bytes, has_byte, Fork};
use crate::graph::node::Node;
use crate::graph::{holds_same, opt_below, Error, GraphBuilder};
use crate::variant_match::VariantMatch;
use crate::specification::{Any, Sequence, Specification};

verus! {

/// Reads `pattern.len()` bytes; when the i-th byte belongs to `pattern[i]`
/// for every i, goes to `target`, otherwise to `miss`, if any. When the rope is
/// entered it records the current position for `record_miss_backtrack_idx`,
/// if any.
#[derive(Debug)]
pub struct Rope {
    pub pattern: Vec<ByteSet>,
    pub target: NodeId,
    pub miss: Option<NodeId>,
    pub record_miss_backtrack_idx: Option<NodeId>,
}

/// A specification that stands for one byte out of a set: a byte, or an
/// alternative of bytes.
pub open spec fn is_byte_class(s: Specification) -> bool {
    match s {
        Specification::Byte(_) => true,
        Specification::Any(any) => all_bytes(any.specifications@),
        _ => false,
    }
}

/// `b` belongs to the byte class `s`.
pub open spec fn in_byte_class(s: Specification, b: u8) -> bool {
    match s {
        Specification::Byte(x) => x == b,
        Specification::Any(any) => has_byte(any.specifications@, b),
        _ => false,
    }
}

/// Every pattern entry has one flag per byte value.
pub open spec fn pattern_wf(pattern: Seq<ByteSet>) -> bool {
    forall|i: int| 0 <= i < pattern.len() ==> (#[trigger] pattern[i]).wf()
}

/// The two patterns hold the same byte sets, position by position.
pub open spec fn same_pattern(a: Seq<ByteSet>, b: Seq<ByteSet>) -> bool {
    &&& a.len() == b.len()
    &&& forall|i: int| 0 <= i < a.len() ==> (#[trigger] a[i]).same(&b[i])
}

impl Rope {
    pub open spec fn wf(&self) -> bool {
        pattern_wf(self.pattern@)
    }

    /// Every node id that the rope holds is below `n`.
    pub open spec fn ids_below(&self, n: nat) -> bool {
        &&& self.wf()
        &&& self.target.0 < n
        &&& opt_below(self.miss, n)
        &&& opt_below(self.record_miss_backtrack_idx, n)
    }

    /// The two ropes have the same pattern, target, miss and backtrack record.
    pub open spec fn same(&self, other: &Rope) -> bool {
        &&& same_pattern(self.pattern@, other.pattern@)
        &&& self.target == other.target
        &&& self.miss == other.miss
        &&& self.record_miss_backtrack_idx == other.record_miss_backtrack_idx
    }

    pub fn new(pattern: Vec<ByteSet>, target: NodeId) -> (r: Self)
        ensures
            r.pattern == pattern,
            r.target == target,
            r.miss is None,
            r.record_miss_backtrack_idx is None,
    {
        Self { pattern, target, miss: None, record_miss_backtrack_idx: None }
    }

    /// When every element of `sequence` is a byte class: the rope reading
    /// those classes one after the other and target going to `target`.
    pub fn try_from_sequence(sequence: &Sequence, target: NodeId) -> (r: Option<Self>)
        ensures
            r is Some <==> forall|i: int|
                0 <= i < sequence.specifications@.len() ==> is_byte_class(
                    #[trigger] sequence.specifications@[i],
                ),
            r matches Some(rope) ==> {
                &&& rope.wf()
                &&& rope.pattern@.len() == sequence.specifications@.len()
                &&& rope.target == target
                &&& rope.miss is None
                &&& rope.record_miss_backtrack_idx is None
                &&& forall|i: int, b: u8|
                    0 <= i < rope.pattern@.len() ==> (#[trigger] rope.pattern@[i].has(b)
                        <==> in_byte_class(sequence.specifications@[i], b))
            },
    {
        let specs = sequence.iter();
        let mut pattern: Vec<ByteSet> = Vec::new();
        let mut i: usize = 0;
        while i < specs.len()
            invariant
                i <= specs@.len(),
                specs@ == sequence.specifications@,
                pattern@.len() == i,
                pattern_wf(pattern@),
                forall|j: int| 0 <= j < i ==> is_byte_class(#[trigger] specs@[j]),
                forall|j: int, b: u8|
                    0 <= j < i ==> (#[trigger] pattern@[j].has(b) <==> in_byte_class(
                        specs@[j],
                        b,
                    )),
            decreases specs@.len() - i,
        {
            let set = match &specs[i] {
                Specification::Byte(byte) => ByteSet::singleton(*byte),
                Specification::Any(any) => match byte_set_of_any(any) {
                    Some(set) => set,
                    None => {
                        assert(!is_byte_class(specs@[i as int]));
                        return None;
                    },
                },
                _ => {
                    assert(!is_byte_class(specs@[i as int]));
                    return None;
                },
            };
            pattern.push(set);
            i = i + 1;
        }
        Some(Self::new(pattern, target))
    }

    /// The same rope, with the miss and backtrack record of `fork`.
    pub fn with_fork_miss(self, fork: &Fork) -> (r: Self)
        ensures
            r.pattern == self.pattern,
            r.target == self.target,
            r.miss == fork.miss,
            r.record_miss_backtrack_idx == fork.record_miss_backtrack_idx,
    {
        let mut r = self;
        r.miss = fork.miss();
        r.record_miss_backtrack_idx = fork.record_miss_backtrack_idx();
        r
    }

    pub fn pattern(&self) -> (r: &[ByteSet])
        ensures
            r@ == self.pattern@,
    {
        self.pattern.as_slice()
    }

    pub fn miss(&self) -> (r: Option<NodeId>)
        ensures
            r == self.miss,
    {
        self.miss
    }

    pub fn target(&self) -> (r: NodeId)
        ensures
            r == self.target,
    {
        self.target
    }

    pub fn record_miss_backtrack_idx(&self) -> (r: Option<NodeId>)
        ensures
            r == self.record_miss_backtrack_idx,
    {
        self.record_miss_backtrack_idx
    }

    /// A rope equal to this one.
    pub fn duplicate(&self) -> (r: Rope)
        requires
            self.wf(),
        ensures
            r.wf(),
            r.same(self),
    {
        let pattern = duplicate_pattern(&self.pattern);
        Rope {
            pattern,
            target: self.target,
            miss: self.miss,
            record_miss_backtrack_idx: self.record_miss_backtrack_idx,
        }
    }
}

impl Rope {
    /// `f` is this rope as a fork over the slots `nodes`: it has the rope's
    /// miss and backtrack record, and each byte of the first set leads to the
    /// rope's target if the pattern is one set long, else to a slot holding a
    /// rope of the remaining sets (with the same target and miss).
    pub open spec fn splits_into<'a, T: VariantMatch>(
        &self,
        f: Fork,
        nodes: Seq<Option<Node<'a, T>>>,
    ) -> bool {
        &&& f.miss == self.miss
        &&& f.record_miss_backtrack_idx == self.record_miss_backtrack_idx
        &&& self.pattern@.len() == 1 ==> forall|b: u8|
            #![trigger f.lookup_table@[b as int]]
            f.lookup_table@[b as int] == if self.pattern@[0].has(b) {
                Some(self.target)
            } else {
                None
            }
        &&& self.pattern@.len() > 1 ==> exists|t: NodeId|
            #![trigger nodes[t.0 as int]]
            {
                &&& t.0 < nodes.len()
                &&& nodes[t.0 as int] matches Some(Node::Rope(rest)) && same_pattern(
                    rest.pattern@,
                    self.pattern@.drop_first(),
                ) && rest.target == self.target && rest.miss == self.miss
                    && rest.record_miss_backtrack_idx is None
                &&& forall|b: u8|
                    #![trigger f.lookup_table@[b as int]]
                    f.lookup_table@[b as int] == if self.pattern@[0].has(b) {
                        Some(t)
                    } else {
                        None
                    }
            }
    }

    /// Slot `j` holds the rest of this rope after its first byte set: that
    /// pattern, the same target and miss, and no backtrack record.
    pub open spec fn rest_in<'a, T: VariantMatch>(&self, nodes: Seq<Option<Node<'a, T>>>, j: int) -> bool {
        nodes[j] matches Some(Node::Rope(r)) && same_pattern(r.pattern@, self.pattern@.drop_first())
            && r.target == self.target && r.miss == self.miss && r.record_miss_backtrack_idx is None
    }

    /// The rope as a fork on its first byte set; the rest of the pattern,
    /// if any, becomes a rope (with the same miss) that the fork goes to:
    /// the first slot that holds it, or a new one.
    pub fn fork_off<'a, T: VariantMatch>(self, graph_builder: &mut GraphBuilder<'a, T>) -> (f: Fork)
        requires
            old(graph_builder).wf(),
            self.ids_below(old(graph_builder).nodes@.len()),
            self.pattern@.len() > 0,
        ensures
            final(graph_builder).extends(old(graph_builder)),
            final(graph_builder).steps_left == old(graph_builder).steps_left,
            final(graph_builder).step_limit_reached == old(graph_builder).step_limit_reached,
            final(graph_builder).errors == old(graph_builder).errors,
            final(graph_builder).merges == old(graph_builder).merges,
            final(graph_builder).joined == old(graph_builder).joined,
            self.pattern@.len() == 1 ==> final(graph_builder).nodes == old(graph_builder).nodes,
            f.ids_below(final(graph_builder).nodes@.len()),
            self.splits_into(f, final(graph_builder).nodes@),
            self.pattern@.len() > 1 ==> forall|b: u8, j: int|
                #![trigger f.lookup_table@[b as int], final(graph_builder).nodes@[j]]
                self.pattern@[0].has(b) && 0 <= j < (f.lookup_table@[b as int]->0).0 ==> !self.rest_in(
                    final(graph_builder).nodes@,
                    j,
                ),
    {
        let ghost whole = self.pattern@;
        let Rope { pattern, target, miss, record_miss_backtrack_idx } = self;
        let mut pattern = pattern;
        let first = pattern.remove(0);
        assert(pattern@ == whole.drop_first());
        let target = if pattern.len() == 0 {
            target
        } else {
            let rest = Node::Rope(Rope { pattern, target, miss, record_miss_backtrack_idx: None });
            let t = graph_builder.insert(rest);
            proof {
                if graph_builder.nodes@.len() == old(graph_builder).nodes@.len() + 1 && t.0
                    == old(graph_builder).nodes@.len() {
                    assert(graph_builder.nodes@[t.0 as int] == Some(rest));
                }
                assert(graph_builder.nodes@[t.0 as int] matches Some(Node::Rope(r)) && same_pattern(
                    r.pattern@,
                    whole.drop_first(),
                ) && r.target == self.target && r.miss == self.miss
                    && r.record_miss_backtrack_idx is None);
                assert forall|j: int| 0 <= j < t.0 implies !self.rest_in(graph_builder.nodes@, j) by {
                    assert(graph_builder.nodes@[j] == old(graph_builder).nodes@[j]);
                    if self.rest_in(graph_builder.nodes@, j) {
                        assert(holds_same(old(graph_builder).nodes@, j, rest));
                    }
                }
            }
            t
        };
        let mut fork = Fork::new().with_miss_unchecked(miss, record_miss_backtrack_idx);
        let mut b: usize = 0;
        while b < 256
            invariant
                b <= 256,
                first.wf(),
                fork.ids_below(graph_builder.nodes@.len()),
                target.0 < graph_builder.nodes@.len(),
                fork.miss == miss,
                fork.record_miss_backtrack_idx == record_miss_backtrack_idx,
                forall|x: u8|
                    #![trigger fork.lookup_table@[x as int]]
                    fork.lookup_table@[x as int] == if x < b && first.has(x) {
                        Some(target)
                    } else {
                        None
                    },
            decreases 256 - b,
        {
            if first.contains(b as u8) {
                fork.lookup_table.set(b, Some(target));
            }
            b = b + 1;
        }
        fork
    }

    /// The rope with a miss to `node_id` (recording the backtrack position
    /// for it when the flag is set). A miss to a variant match is kept on
    /// the rope; any other miss turns the rope into a fork that absorbs it.
    pub fn with_miss<'a, T: VariantMatch>(
        self,
        node_id_and_record_miss_backtrack_idx: Option<(NodeId, bool)>,
        graph_builder: &mut GraphBuilder<'a, T>,
    ) -> (node: Node<'a, T>)
        requires
            old(graph_builder).wf(),
            self.ids_below(old(graph_builder).nodes@.len()),
            node_id_and_record_miss_backtrack_idx matches Some((id, _)) ==> id.0 < old(
                graph_builder,
            ).nodes@.len(),
        ensures
            final(graph_builder).extends(old(graph_builder)),
            node.ids_below(final(graph_builder).nodes@.len()),
            !(node is VariantMatch),
            node_id_and_record_miss_backtrack_idx is None ==> node == Node::<'a, T>::Rope(self)
                && *final(graph_builder) == *old(graph_builder),
            match node_id_and_record_miss_backtrack_idx {
                Some((id, record)) => match old(graph_builder).nodes@[id.0 as int] {
                    Some(Node::VariantMatch(_)) => {
                        &&& node == Node::<'a, T>::Rope(
                            Rope {
                                pattern: self.pattern,
                                target: self.target,
                                miss: Some(id),
                                record_miss_backtrack_idx: if record {
                                    Some(id)
                                } else {
                                    None
                                },
                            },
                        )
                        &&& *final(graph_builder) == *old(graph_builder)
                    },
                    _ => true,
                },
                None => true,
            },
            node_id_and_record_miss_backtrack_idx is Some && self.pattern@.len() > 0 ==> (
            node.spec_miss() matches Some(m) ==> final(graph_builder).step_limit_reached
                || !absorbs_miss(final(graph_builder).nodes@[m.0 as int])),
    {
        let (node_id, record_miss_backtrack_idx) = match node_id_and_record_miss_backtrack_idx {
            None => {
                return Node::Rope(self);
            },
            Some(pair) => pair,
        };
        let is_variant_match = match graph_builder.get(node_id) {
            Some(Node::VariantMatch(_)) => true,
            _ => false,
        };
        if is_variant_match {
            let mut rope = self;
            rope.miss = Some(node_id);
            rope.record_miss_backtrack_idx = if record_miss_backtrack_idx {
                Some(node_id)
            } else {
                None
            };
            Node::Rope(rope)
        } else if self.pattern.len() == 0 {
            graph_builder.errors.push(Error::ForkedOffEmptyRope);
            Node::Rope(self)
        } else {
            let fork = self.fork_off(graph_builder).with_miss(
                Some((node_id, record_miss_backtrack_idx)),
                graph_builder,
            );
            Node::from_fork(fork)
        }
    }
}

/// A pattern with the same byte sets.
pub fn duplicate_pattern(pattern: &Vec<ByteSet>) -> (r: Vec<ByteSet>)
    requires
        pattern_wf(pattern@),
    ensures
        pattern_wf(r@),
        same_pattern(r@, pattern@),
{
    let mut r: Vec<ByteSet> = Vec::new();
    let mut i: usize = 0;
    while i < pattern.len()
        invariant
            i <= pattern@.len(),
            pattern_wf(pattern@),
            r@.len() == i,
            pattern_wf(r@),
            forall|j: int| 0 <= j < i ==> (#[trigger] r@[j]).same(&pattern@[j]),
        decreases pattern@.len() - i,
    {
        r.push(pattern[i].duplicate());
        i = i + 1;
    }
    r
}

/// The bytes of `any` as a set, when all of its options are bytes.
fn byte_set_of_any(any: &Any) -> (r: Option<ByteSet>)
    ensures
        r is Some <==> all_bytes(any.specifications@),
        r matches Some(set) ==> set.wf() && forall|b: u8|
            #[trigger] set.has(b) <==> has_byte(any.specifications@, b),
{
    let specs = any.iter();
    let mut set = ByteSet::empty();
    let mut i: usize = 0;
    while i < specs.len()
        invariant
            i <= specs@.len(),
            specs@ == any.specifications@,
            set.wf(),
            all_bytes(specs@.take(i as int)),
            forall|b: u8| #[trigger] set.has(b) <==> has_byte(specs@.take(i as int), b),
        decreases specs@.len() - i,
    {
        match specs[i].as_byte() {
            Some(byte) => {
                let byte = *byte;
                set.insert(byte);
                proof {
                    let next = specs@.take(i + 1);
                    assert(next =~= specs@.take(i as int).push(Specification::Byte(byte)));
                    assert forall|b: u8| has_byte(next, b) <==> (has_byte(
                        specs@.take(i as int),
                        b,
                    ) || b == byte) by {
                        if has_byte(next, b) {
                            let w = choose|w: int|
                                0 <= w < next.len() && #[trigger] next[w] == Specification::Byte(b);
                            if w < i {
                                assert(specs@.take(i as int)[w] == Specification::Byte(b));
                            }
                        }
                        if has_byte(specs@.take(i as int), b) {
                            let w = choose|w: int|
                                0 <= w < i && #[trigger] specs@.take(i as int)[w]
                                    == Specification::Byte(b);
                            assert(next[w] == Specification::Byte(b));
                        }
                        if b == byte {
                            assert(next[i as int] == Specification::Byte(b));
                        }
                    }
                    assert(all_bytes(next));
                }
            },
            None => {
                assert(!all_bytes(any.specifications@)) by {
                    assert(!(any.specifications@[i as int] is Byte));
                }
                return None;
            },
        }
        i = i + 1;
    }
    assert(specs@.take(specs@.len() as int) =~= specs@);
    Some(set)
}


/// Ropes with the same pattern, target, miss and backtrack record split into
/// the same forks.
pub proof fn lemma_same_rope_splits<'a, T: VariantMatch>(
    a: Rope,
    b: Rope,
    f: Fork,
    nodes: Seq<Option<Node<'a, T>>>,
)
    requires
        a.same(&b),
        a.splits_into(f, nodes),
    ensures
        b.splits_into(f, nodes),
{
    if a.pattern@.len() > 0 {
        assert(a.pattern@[0].same(&b.pattern@[0]));
        assert forall|x: u8| a.pattern@[0].has(x) == b.pattern@[0].has(x) by {}
    }
    if a.pattern@.len() > 1 {
        let t = choose|t: NodeId|
            #![trigger nodes[t.0 as int]]
            {
                &&& t.0 < nodes.len()
                &&& nodes[t.0 as int] matches Some(Node::Rope(rest)) && same_pattern(
                    rest.pattern@,
                    a.pattern@.drop_first(),
                ) && rest.target == a.target && rest.miss == a.miss
                    && rest.record_miss_backtrack_idx is None
                &&& forall|x: u8|
                    #![trigger f.lookup_table@[x as int]]
                    f.lookup_table@[x as int] == if a.pattern@[0].has(x) {
                        Some(t)
                    } else {
                        None
                    }
            };
        let rest = nodes[t.0 as int]->Some_0->Rope_0;
        assert forall|i: int| 0 <= i < rest.pattern@.len() implies (#[trigger] rest.pattern@[i]).same(
            &b.pattern@.drop_first()[i],
        ) by {
            assert(rest.pattern@[i].same(&a.pattern@.drop_first()[i]));
            assert(a.pattern@[i + 1].same(&b.pattern@[i + 1]));
        }
        assert(nodes[t.0 as int] matches Some(Node::Rope(rest)) && same_pattern(
            rest.pattern@,
            b.pattern@.drop_first(),
        ));
    }
}


/// A byte leads on in a rope's fork exactly when it belongs to the rope's
/// first byte set.
pub proof fn lemma_split_leads_on<'a, T: VariantMatch>(r: Rope, f: Fork, nodes: Seq<Option<Node<'a, T>>>)
    requires
        r.pattern@.len() > 0,
        r.splits_into(f, nodes),
    ensures
        forall|b: u8|
            #![trigger f.lookup_table@[b as int]]
            (f.lookup_table@[b as int] is Some <==> r.pattern@[0].has(b)),
{
    if r.pattern@.len() > 1 {
        let t = choose|t: NodeId|
            #![trigger nodes[t.0 as int]]
            {
                &&& t.0 < nodes.len()
                &&& nodes[t.0 as int] matches Some(Node::Rope(rest)) && same_pattern(
                    rest.pattern@,
                    r.pattern@.drop_first(),
                ) && rest.target == r.target && rest.miss == r.miss
                    && rest.record_miss_backtrack_idx is None
                &&& forall|b: u8|
                    #![trigger f.lookup_table@[b as int]]
                    f.lookup_table@[b as int] == if r.pattern@[0].has(b) {
                        Some(t)
                    } else {
                        None
                    }
            };
    }
}

} // verus!
