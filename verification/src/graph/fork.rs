//! A node that reads one byte and branches on it through a lookup table.
use vstd::prelude::*;

use crate::graph::arena::NodeId;
use crate::graph::node::Node;
use crate::graph::{merge_code, opt_below, Error, GraphBuilder};
use crate::variant_match::VariantMatch;
use crate::specification::{Any, Specification};

verus! {

/// The number of entries of a fork's lookup table: one per byte value.
pub const LOOKUP_TABLE_SIZE: usize = 256;

/// Reads a byte and goes to `lookup_table[byte]`; where that entry is `None`
/// (or the input ends), goes to `miss`, if any. When the fork is entered it
/// records the current position for `record_miss_backtrack_idx`, if any.
#[derive(Debug)]
pub struct Fork {
    pub lookup_table: Vec<Option<NodeId>>,
    pub miss: Option<NodeId>,
    pub record_miss_backtrack_idx: Option<NodeId>,
}

/// Every element of `specs` is a single byte.
pub open spec fn all_bytes(specs: Seq<Specification>) -> bool {
    forall|i: int| 0 <= i < specs.len() ==> (#[trigger] specs[i]) is Byte
}

/// `Byte(b)` is one of `specs`.
pub open spec fn has_byte(specs: Seq<Specification>, b: u8) -> bool {
    exists|i: int| 0 <= i < specs.len() && #[trigger] specs[i] == Specification::Byte(b)
}

/// A miss to this slot is taken into a fork: the slot holds a fork or a
/// rope that reads at least one byte.
pub open spec fn absorbs_miss<'a, T: VariantMatch>(slot: Option<Node<'a, T>>) -> bool {
    match slot {
        Some(Node::Fork(_)) => true,
        Some(Node::Rope(r)) => r.pattern@.len() > 0,
        _ => false,
    }
}

/// Where a byte goes when a fork that sends it to `x` takes in one that
/// sends it to `y` (with no miss to fall back to): to `x` when both are the
/// same node, else to the remembered merge of `y` and `x` in `builder`.
pub open spec fn merged_target<'a, T: VariantMatch>(
    builder: GraphBuilder<'a, T>,
    x: NodeId,
    y: NodeId,
) -> Option<NodeId> {
    if x == y {
        Some(x)
    } else {
        builder.memo(y, x)
    }
}

/// One of the two slots is built in `builder`.
pub open spec fn either_built<'a, T: VariantMatch>(
    builder: GraphBuilder<'a, T>,
    x: NodeId,
    y: NodeId,
) -> bool {
    builder.nodes@[x.0 as int] is Some || builder.nodes@[y.0 as int] is Some
}

/// Both tables go somewhere on byte `c`.
pub open spec fn both_at(a: Fork, b: Fork, c: int) -> bool {
    a.lookup_table@[c] is Some && b.lookup_table@[c] is Some
}

/// The targets `(x, y)` of `a` and `b` on the bytes where both go
/// somewhere, when there are such bytes and they all go to `x` in `a` and
/// to `y` in `b`.
pub open spec fn one_shared_pair(a: Fork, b: Fork) -> Option<(NodeId, NodeId)> {
    if exists|c: int| 0 <= c < 256 && #[trigger] both_at(a, b, c) {
        let c = choose|c: int| 0 <= c < 256 && #[trigger] both_at(a, b, c);
        let (x, y) = (a.lookup_table@[c]->0, b.lookup_table@[c]->0);
        if forall|d: int|
            0 <= d < 256 && #[trigger] both_at(a, b, d) ==> a.lookup_table@[d] == Some(x)
                && b.lookup_table@[d] == Some(y) {
            Some((x, y))
        } else {
            None
        }
    } else {
        None
    }
}

impl Fork {
    /// The lookup table has one entry per byte value.
    pub open spec fn wf(&self) -> bool {
        self.lookup_table@.len() == LOOKUP_TABLE_SIZE
    }

    /// Every node id that the fork holds is below `n`.
    pub open spec fn ids_below(&self, n: nat) -> bool {
        &&& self.wf()
        &&& forall|b: int| 0 <= b < 256 ==> opt_below(#[trigger] self.lookup_table@[b], n)
        &&& opt_below(self.miss, n)
        &&& opt_below(self.record_miss_backtrack_idx, n)
    }

    /// The two forks have the same table, miss and backtrack record.
    pub open spec fn same(&self, other: &Fork) -> bool {
        &&& self.lookup_table@ == other.lookup_table@
        &&& self.miss == other.miss
        &&& self.record_miss_backtrack_idx == other.record_miss_backtrack_idx
    }

    /// No byte leads anywhere.
    pub open spec fn table_is_empty(&self) -> bool {
        forall|b: int| 0 <= b < 256 ==> (#[trigger] self.lookup_table@[b]) is None
    }

    /// A fork without branches, miss or backtrack record.
    pub fn new() -> (f: Self)
        ensures
            f.wf(),
            f.table_is_empty(),
            f.miss is None,
            f.record_miss_backtrack_idx is None,
    {
        let mut lookup_table: Vec<Option<NodeId>> = Vec::new();
        let mut i: usize = 0;
        while i < LOOKUP_TABLE_SIZE
            invariant
                i <= 256,
                lookup_table@.len() == i,
                forall|j: int| 0 <= j < i ==> (#[trigger] lookup_table@[j]) is None,
            decreases 256 - i,
        {
            lookup_table.push(None);
            i = i + 1;
        }
        Self { lookup_table, miss: None, record_miss_backtrack_idx: None }
    }

    /// When every option of `any` is a byte: the fork that goes to `target` on
    /// exactly those bytes. Otherwise `None`.
    pub fn try_from_any(any: &Any, target: NodeId) -> (r: Option<Self>)
        ensures
            r is Some <==> all_bytes(any.specifications@),
            r matches Some(f) ==> {
                &&& f.wf()
                &&& f.miss is None
                &&& f.record_miss_backtrack_idx is None
                &&& forall|b: u8|
                    #![trigger f.lookup_table@[b as int]]
                    f.lookup_table@[b as int] == if has_byte(any.specifications@, b) {
                        Some(target)
                    } else {
                        None
                    }
            },
    {
        let specs = any.iter();
        let mut fork = Fork::new();
        let mut i: usize = 0;
        while i < specs.len()
            invariant
                i <= specs@.len(),
                specs@ == any.specifications@,
                fork.wf(),
                fork.miss is None,
                fork.record_miss_backtrack_idx is None,
                all_bytes(specs@.take(i as int)),
                forall|b: u8|
                    #![trigger fork.lookup_table@[b as int]]
                    fork.lookup_table@[b as int] == if has_byte(specs@.take(i as int), b) {
                        Some(target)
                    } else {
                        None
                    },
            decreases specs@.len() - i,
        {
            match specs[i].as_byte() {
                Some(byte) => {
                    let byte = *byte;
                    fork.lookup_table.set(byte as usize, Some(target));
                    proof {
                        let next = specs@.take(i + 1);
                        assert(next =~= specs@.take(i as int).push(Specification::Byte(byte)));
                        assert forall|b: u8| has_byte(next, b) <==> (has_byte(
                            specs@.take(i as int),
                            b,
                        ) || b == byte) by {
                            if has_byte(next, b) {
                                let w = choose|w: int|
                                    0 <= w < next.len() && #[trigger] next[w]
                                        == Specification::Byte(b);
                                if w < i {
                                    assert(specs@.take(i as int)[w] == Specification::Byte(b));
                                }
                            }
                            if has_byte(specs@.take(i as int), b) {
                                let w = choose|w: int|
                                    0 <= w < i && #[trigger] specs@.take(i as int)[w]
                                        == Specification::Byte(b);
                                assert(next[w] == Specification::Byte(b));
                            }
                            if b == byte {
                                assert(next[i as int] == Specification::Byte(b));
                            }
                        }
                        assert(all_bytes(next));
                    }
                },
                None => {
                    assert(!all_bytes(any.specifications@)) by {
                        assert(!(any.specifications@[i as int] is Byte));
                    }
                    return None;
                },
            }
            i = i + 1;
        }
        assert(specs@.take(specs@.len() as int) =~= specs@);
        Some(fork)
    }

    /// The same table, with the given miss and backtrack record.
    pub fn with_miss_unchecked(
        self,
        miss: Option<NodeId>,
        record_miss_backtrack_idx: Option<NodeId>,
    ) -> (f: Self)
        ensures
            f.lookup_table == self.lookup_table,
            f.miss == miss,
            f.record_miss_backtrack_idx == record_miss_backtrack_idx,
    {
        let mut f = self;
        f.miss = miss;
        f.record_miss_backtrack_idx = record_miss_backtrack_idx;
        f
    }

    /// The miss target when the fork only ever goes there: no branches, and
    /// a backtrack record equal to the miss.
    pub fn flatten_to_miss(&self) -> (r: Option<NodeId>)
        requires
            self.wf(),
        ensures
            r == (if self.miss is Some && self.table_is_empty() && self.record_miss_backtrack_idx
                == self.miss {
                self.miss
            } else {
                None
            }),
    {
        match self.miss {
            Some(miss) => {
                if self.lookup_table_is_empty() && self.record_miss_backtrack_idx == self.miss {
                    Some(miss)
                } else {
                    None
                }
            },
            None => None,
        }
    }

    pub fn lookup_table_is_empty(&self) -> (r: bool)
        requires
            self.wf(),
        ensures
            r == self.table_is_empty(),
    {
        let mut i: usize = 0;
        while i < LOOKUP_TABLE_SIZE
            invariant
                i <= 256,
                self.wf(),
                forall|j: int| 0 <= j < i ==> (#[trigger] self.lookup_table@[j]) is None,
            decreases 256 - i,
        {
            if self.lookup_table[i].is_some() {
                return false;
            }
            i = i + 1;
        }
        true
    }

    pub fn lookup_table(&self) -> (r: &[Option<NodeId>])
        ensures
            r@ == self.lookup_table@,
    {
        self.lookup_table.as_slice()
    }

    pub fn miss(&self) -> (r: Option<NodeId>)
        ensures
            r == self.miss,
    {
        self.miss
    }

    pub fn record_miss_backtrack_idx(&self) -> (r: Option<NodeId>)
        ensures
            r == self.record_miss_backtrack_idx,
    {
        self.record_miss_backtrack_idx
    }

    /// A fork equal to this one.
    pub fn duplicate(&self) -> (f: Fork)
        ensures
            f.same(self),
    {
        let mut lookup_table: Vec<Option<NodeId>> = Vec::new();
        let mut i: usize = 0;
        while i < self.lookup_table.len()
            invariant
                i <= self.lookup_table@.len(),
                lookup_table@ == self.lookup_table@.take(i as int),
            decreases self.lookup_table@.len() - i,
        {
            lookup_table.push(self.lookup_table[i]);
            assert(self.lookup_table@.take(i + 1) =~= self.lookup_table@.take(i as int).push(
                self.lookup_table@[i as int],
            ));
            i = i + 1;
        }
        assert(self.lookup_table@.take(self.lookup_table@.len() as int) =~= self.lookup_table@);
        Fork {
            lookup_table,
            miss: self.miss,
            record_miss_backtrack_idx: self.record_miss_backtrack_idx,
        }
    }
}

/// What a miss target is turned into when a fork absorbs it.
enum Absorb {
    Fork(Fork),
    Rope(crate::graph::rope::Rope),
    EmptyRope,
    Stop,
}

impl Fork {
    /// The fork with a miss to `node_id` (recording the backtrack position
    /// for it when the flag is set). While the miss leads to a fork or a
    /// rope, that node is merged into this fork in its place, so the miss
    /// ends at a variant match or a reserved slot.
    pub fn with_miss<'a, T: VariantMatch>(
        self,
        node_id_and_record_miss_backtrack_idx: Option<(NodeId, bool)>,
        graph_builder: &mut GraphBuilder<'a, T>,
    ) -> (f: Fork)
        requires
            old(graph_builder).wf(),
            self.ids_below(old(graph_builder).nodes@.len()),
            node_id_and_record_miss_backtrack_idx matches Some((id, _)) ==> id.0 < old(
                graph_builder,
            ).nodes@.len(),
        ensures
            final(graph_builder).extends(old(graph_builder)),
            f.ids_below(final(graph_builder).nodes@.len()),
            node_id_and_record_miss_backtrack_idx is None ==> f == self && *final(graph_builder)
                == *old(graph_builder),
            match node_id_and_record_miss_backtrack_idx {
                Some((id, record)) => match old(graph_builder).nodes@[id.0 as int] {
                    Some(Node::Fork(_)) => true,
                    Some(Node::Rope(_)) => true,
                    _ => {
                        &&& f.lookup_table == self.lookup_table
                        &&& f.miss == Some(id)
                        &&& f.record_miss_backtrack_idx == (if record {
                            Some(id)
                        } else {
                            None
                        })
                        &&& *final(graph_builder) == *old(graph_builder)
                    },
                },
                None => true,
            },
            forall|b: int|
                0 <= b < 256 && (#[trigger] self.lookup_table@[b]) is Some ==> f.lookup_table@[b] is Some,
            node_id_and_record_miss_backtrack_idx is Some ==> (f.miss matches Some(m)
                ==> final(graph_builder).step_limit_reached || !absorbs_miss(
                final(graph_builder).nodes@[m.0 as int],
            )),
            !final(graph_builder).step_limit_reached ==> match node_id_and_record_miss_backtrack_idx {
                Some((id, _)) => match old(graph_builder).nodes@[id.0 as int] {
                    Some(Node::Fork(g)) => forall|b: int|
                        0 <= b < 256 && (#[trigger] g.lookup_table@[b]) is Some ==> f.lookup_table@[b] is Some,
                    _ => true,
                },
                None => true,
            },
        decreases old(graph_builder).steps_left,
    {
        let (node_id, record_miss_backtrack_idx) = match node_id_and_record_miss_backtrack_idx {
            None => {
                return self;
            },
            Some(pair) => pair,
        };
        let mut fork = self;
        fork.miss = Some(node_id);
        fork.record_miss_backtrack_idx = if record_miss_backtrack_idx {
            Some(node_id)
        } else {
            None
        };
        let absorbs = match graph_builder.get(node_id) {
            Some(Node::Fork(_)) => true,
            Some(Node::Rope(_)) => true,
            _ => false,
        };
        if !absorbs {
            return fork;
        }
        let ghost mut done = false;
        let ghost start = old(graph_builder).nodes@[node_id.0 as int];
        loop
            invariant
                graph_builder.extends(old(graph_builder)),
                fork.ids_below(graph_builder.nodes@.len()),
                forall|b: int|
                    0 <= b < 256 && (#[trigger] self.lookup_table@[b]) is Some
                        ==> fork.lookup_table@[b] is Some,
                node_id.0 < old(graph_builder).nodes@.len(),
                start == old(graph_builder).nodes@[node_id.0 as int],
                !done ==> fork.miss == Some(node_id),
                done && !graph_builder.step_limit_reached ==> match start {
                    Some(Node::Fork(g)) => forall|b: int|
                        0 <= b < 256 && (#[trigger] g.lookup_table@[b]) is Some ==> fork.lookup_table@[b] is Some,
                    _ => true,
                },
            ensures
                !graph_builder.step_limit_reached ==> match start {
                    Some(Node::Fork(g)) => forall|b: int|
                        0 <= b < 256 && (#[trigger] g.lookup_table@[b]) is Some ==> fork.lookup_table@[b] is Some,
                    _ => true,
                },
                graph_builder.extends(old(graph_builder)),
                fork.ids_below(graph_builder.nodes@.len()),
                forall|b: int|
                    0 <= b < 256 && (#[trigger] self.lookup_table@[b]) is Some
                        ==> fork.lookup_table@[b] is Some,
                fork.miss matches Some(m) ==> graph_builder.step_limit_reached || !absorbs_miss(
                    graph_builder.nodes@[m.0 as int],
                ),
            decreases graph_builder.steps_left,
        {
            let miss = match fork.miss {
                Some(miss) => miss,
                None => break,
            };
            let absorb = match graph_builder.get(miss) {
                Some(Node::Fork(f)) => Absorb::Fork(f.duplicate()),
                Some(Node::Rope(r)) => if r.pattern.len() == 0 {
                    Absorb::EmptyRope
                } else {
                    Absorb::Rope(r.duplicate())
                },
                _ => Absorb::Stop,
            };
            match absorb {
                Absorb::Fork(f) => {
                    if !graph_builder.take_step() {
                        break;
                    }
                    fork.miss = None;
                    fork.record_miss_backtrack_idx = None;
                    let ghost before = fork;
                    fork.merge(f, graph_builder);
                    proof {
                        if !done {
                            assert(graph_builder.nodes@[node_id.0 as int] == start) by {
                                assert(before.miss == None::<NodeId>);
                            }
                        }
                        done = true;
                    }
                },
                Absorb::Rope(r) => {
                    if !graph_builder.take_step() {
                        break;
                    }
                    proof {
                        done = true;
                    }
                    fork.miss = None;
                    fork.record_miss_backtrack_idx = None;
                    let f = r.fork_off(graph_builder);
                    fork.merge(f, graph_builder);
                },
                Absorb::EmptyRope => {
                    graph_builder.errors.push(Error::ForkedOffEmptyRope);
                    break;
                },
                Absorb::Stop => break,
            }
        }
        fork
    }

    /// Merges `other` into this fork. When only one of the two records the
    /// current position for its miss, its miss and record win: the match it
    /// falls back to ends here and is longer than the other's. Otherwise the
    /// misses and the records are merged. Every byte goes to the merge of
    /// both targets. Each of these merges takes `other`'s node first, so an
    /// overlap of two variant matches names `other`'s match first. When
    /// there is a miss, every target is merged with a
    /// fork that misses to it so that a failure further on still falls back
    /// to the miss.
    pub fn merge<'a, T: VariantMatch>(&mut self, other: Fork, graph_builder: &mut GraphBuilder<'a, T>)
        requires
            old(graph_builder).wf(),
            old(self).ids_below(old(graph_builder).nodes@.len()),
            other.ids_below(old(graph_builder).nodes@.len()),
        ensures
            final(graph_builder).extends(old(graph_builder)),
            final(self).ids_below(final(graph_builder).nodes@.len()),
            old(graph_builder).steps_left == 0 ==> *final(self) == *old(self)
                && final(graph_builder).step_limit_reached,
            old(graph_builder).steps_left > 0 ==> forall|b: int|
                0 <= b < 256 ==> ((#[trigger] final(self).lookup_table@[b]) is Some <==> (old(
                    self,
                ).lookup_table@[b] is Some || other.lookup_table@[b] is Some)),
            old(graph_builder).steps_left > 0 ==> match (
                old(self).record_miss_backtrack_idx,
                other.record_miss_backtrack_idx,
            ) {
                (Some(_), None) => final(self).miss == old(self).miss
                    && final(self).record_miss_backtrack_idx == old(self).record_miss_backtrack_idx,
                (None, Some(_)) => final(self).miss == other.miss
                    && final(self).record_miss_backtrack_idx == other.record_miss_backtrack_idx,
                _ => {
                    &&& (final(self).miss is Some <==> (old(self).miss is Some || other.miss is Some))
                    &&& (old(self).miss is None ==> final(self).miss == other.miss)
                    &&& (other.miss is None ==> final(self).miss == old(self).miss)
                    &&& (final(self).record_miss_backtrack_idx is Some <==> (old(
                        self,
                    ).record_miss_backtrack_idx is Some || other.record_miss_backtrack_idx is Some))
                    &&& (old(self).record_miss_backtrack_idx is None
                        ==> final(self).record_miss_backtrack_idx == other.record_miss_backtrack_idx)
                    &&& (other.record_miss_backtrack_idx is None
                        ==> final(self).record_miss_backtrack_idx == old(self).record_miss_backtrack_idx)
                    &&& (old(self).miss is Some && other.miss is Some && (old(self).miss == other.miss
                        || either_built(*old(graph_builder), other.miss->0, old(self).miss->0))
                        && !final(graph_builder).step_limit_reached ==> final(self).miss
                        == merged_target(*final(graph_builder), old(self).miss->0, other.miss->0))
                    &&& (old(self).record_miss_backtrack_idx is Some
                        && other.record_miss_backtrack_idx is Some && (old(self).record_miss_backtrack_idx
                        == other.record_miss_backtrack_idx || either_built(
                        *old(graph_builder),
                        other.record_miss_backtrack_idx->0,
                        old(self).record_miss_backtrack_idx->0,
                    )) && !final(graph_builder).step_limit_reached
                        ==> final(self).record_miss_backtrack_idx == merged_target(
                        *final(graph_builder),
                        old(self).record_miss_backtrack_idx->0,
                        other.record_miss_backtrack_idx->0,
                    ))
                },
            },
            old(graph_builder).steps_left > 0 && final(self).miss is None ==> forall|b: int|
                0 <= b < 256 ==> {
                    &&& (old(self).lookup_table@[b] is None ==> #[trigger] final(self).lookup_table@[b]
                        == other.lookup_table@[b])
                    &&& (other.lookup_table@[b] is None ==> final(self).lookup_table@[b] == old(
                        self,
                    ).lookup_table@[b])
                },
            !final(graph_builder).step_limit_reached && final(self).miss is None ==> forall|b: int|
                0 <= b < 256 && old(self).lookup_table@[b] is Some && other.lookup_table@[b] is Some && (
                old(self).lookup_table@[b] == other.lookup_table@[b] || either_built(
                    *old(graph_builder),
                    old(self).lookup_table@[b]->0,
                    other.lookup_table@[b]->0,
                )) ==> #[trigger] final(self).lookup_table@[b] == merged_target(
                    *final(graph_builder),
                    old(self).lookup_table@[b]->0,
                    other.lookup_table@[b]->0,
                ),
            old(graph_builder).steps_left > 0 && old(self).miss is None && other.miss is None
                && old(self).record_miss_backtrack_idx is None && other.record_miss_backtrack_idx is None
                && (forall|b: int|
                0 <= b < 256 ==> (#[trigger] old(self).lookup_table@[b]) is None
                    || other.lookup_table@[b] is None) ==> {
                &&& final(graph_builder).steps_left == old(graph_builder).steps_left - 1
                &&& final(graph_builder).errors == old(graph_builder).errors
                &&& final(graph_builder).step_limit_reached == old(graph_builder).step_limit_reached
                &&& final(graph_builder).nodes == old(graph_builder).nodes
                &&& final(graph_builder).merges == old(graph_builder).merges
                &&& final(graph_builder).joined == old(graph_builder).joined
            },
            one_shared_pair(*old(self), other) matches Some((x, y)) ==> (old(
                graph_builder,
            ).nodes@[x.0 as int] matches Some(Node::VariantMatch(mx)) ==> (old(
                graph_builder,
            ).nodes@[y.0 as int] matches Some(Node::VariantMatch(my)) ==> (old(graph_builder).steps_left
                > 1 && old(self).miss is None && other.miss is None && old(self).record_miss_backtrack_idx is None
                && other.record_miss_backtrack_idx is None && x != y && old(graph_builder).memo(y, x) is None
                && old(graph_builder).canonical(y, x) is None ==> {
                &&& final(graph_builder).errors@ == if mx.spec_priority() == my.spec_priority() {
                    old(graph_builder).errors@.push(Error::VariantMatchesOverlapWithSamePriority(my, mx))
                } else {
                    old(graph_builder).errors@
                }
                &&& final(graph_builder).steps_left == old(graph_builder).steps_left - 2
                &&& final(graph_builder).step_limit_reached == old(graph_builder).step_limit_reached
                &&& forall|c: int|
                    0 <= c < 256 && #[trigger] both_at(*old(self), other, c) ==> final(self).lookup_table@[c]
                        == Some(if my.spec_priority() > mx.spec_priority() {
                        y
                    } else {
                        x
                    })
            }))),
        decreases old(graph_builder).steps_left,
    {
        let ghost plain = old(self).miss is None && other.miss is None
            && old(self).record_miss_backtrack_idx is None && other.record_miss_backtrack_idx is None
            && (forall|b: int|
            0 <= b < 256 ==> (#[trigger] old(self).lookup_table@[b]) is None
                || other.lookup_table@[b] is None);
        let ghost shared = one_shared_pair(*old(self), other);
        let ghost px = shared->Some_0.0;
        let ghost py = shared->Some_0.1;
        let ghost mx = old(graph_builder).nodes@[px.0 as int]->Some_0->VariantMatch_0;
        let ghost my = old(graph_builder).nodes@[py.0 as int]->Some_0->VariantMatch_0;
        let ghost pair = old(graph_builder).steps_left > 1 && old(self).miss is None && other.miss is None
            && old(self).record_miss_backtrack_idx is None && other.record_miss_backtrack_idx is None
            && shared is Some && px != py && old(graph_builder).memo(py, px) is None && old(
            graph_builder,
        ).canonical(py, px) is None && old(graph_builder).nodes@[px.0 as int] is Some && old(
            graph_builder,
        ).nodes@[px.0 as int]->Some_0 is VariantMatch && old(graph_builder).nodes@[py.0 as int] is Some
            && old(graph_builder).nodes@[py.0 as int]->Some_0 is VariantMatch;
        let ghost winner = if my.spec_priority() > mx.spec_priority() {
            py
        } else {
            px
        };
        if !graph_builder.take_step() {
            return;
        }
        let ghost stepped = *graph_builder;
        let ghost mut after_miss = *graph_builder;
        let ghost mut after_record = *graph_builder;
        if self.record_miss_backtrack_idx.is_some() && other.record_miss_backtrack_idx.is_none() {
            // Only this side ends a match at the current position: it is
            // longer than whatever the other side would backtrack to.
        } else if self.record_miss_backtrack_idx.is_none()
            && other.record_miss_backtrack_idx.is_some() {
            self.miss = other.miss;
            self.record_miss_backtrack_idx = other.record_miss_backtrack_idx;
        } else {
            let ghost start = *graph_builder;
            self.miss = match (self.miss, other.miss) {
                (Some(self_miss), Some(other_miss)) => Some(
                    graph_builder.merge(other_miss, self_miss),
                ),
                (None, Some(other_miss)) => Some(other_miss),
                (self_miss, None) => self_miss,
            };
            proof {
                after_miss = *graph_builder;
                if old(self).miss is Some && other.miss is Some {
                    let (p, q) = (old(self).miss->0, other.miss->0);
                    if p != q && either_built(*old(graph_builder), q, p)
                        && !after_miss.step_limit_reached {
                        assert(start.nodes@[p.0 as int] == old(graph_builder).nodes@[p.0 as int]);
                        assert(start.nodes@[q.0 as int] == old(graph_builder).nodes@[q.0 as int]);
                        assert(after_miss.merges@.contains_key(merge_code(q, p)));
                    }
                }
            }
            self.record_miss_backtrack_idx = match (
                self.record_miss_backtrack_idx,
                other.record_miss_backtrack_idx,
            ) {
                (Some(self_node_id), Some(other_node_id)) => Some(
                    graph_builder.merge(other_node_id, self_node_id),
                ),
                (None, Some(other_node_id)) => Some(other_node_id),
                (self_node_id, None) => self_node_id,
            };
            proof {
                after_record = *graph_builder;
                if old(self).record_miss_backtrack_idx is Some && other.record_miss_backtrack_idx is Some {
                    let (p, q) = (old(self).record_miss_backtrack_idx->0, other.record_miss_backtrack_idx->0);
                    if p != q && either_built(*old(graph_builder), q, p)
                        && !after_record.step_limit_reached {
                        assert(after_miss.nodes@[p.0 as int] == old(graph_builder).nodes@[p.0 as int]);
                        assert(after_miss.nodes@[q.0 as int] == old(graph_builder).nodes@[q.0 as int]);
                        assert(after_record.merges@.contains_key(merge_code(q, p)));
                    }
                }
            }
        }
        let miss_fork_id = match self.miss {
            Some(miss) => {
                let miss_fork = Fork::new().with_miss(Some((miss, false)), graph_builder);
                Some(graph_builder.insert(Node::from_fork(miss_fork)))
            },
            None => None,
        };
        let ghost table0 = self.lookup_table@;
        let ghost miss0 = self.miss;
        let ghost record0 = self.record_miss_backtrack_idx;
        assert(table0 == old(self).lookup_table@);
        let mut i: usize = 0;
        while i < LOOKUP_TABLE_SIZE
            invariant
                i <= 256,
                graph_builder.extends(old(graph_builder)),
                graph_builder.steps_left < old(graph_builder).steps_left,
                self.ids_below(graph_builder.nodes@.len()),
                other.ids_below(graph_builder.nodes@.len()),
                opt_below(miss_fork_id, graph_builder.nodes@.len()),
                table0.len() == 256,
                self.miss == miss0,
                self.record_miss_backtrack_idx == record0,
                forall|b: int|
                    0 <= b < i ==> ((#[trigger] self.lookup_table@[b]) is Some <==> (table0[b] is Some
                        || other.lookup_table@[b] is Some)),
                forall|b: int| i <= b < 256 ==> #[trigger] self.lookup_table@[b] == table0[b],
                miss0 is None ==> miss_fork_id is None,
                plain ==> miss0 is None && *graph_builder == stepped,
                pair ==> miss0 is None && miss_fork_id is None,
                winner == (if my.spec_priority() > mx.spec_priority() {
                    py
                } else {
                    px
                }),
                pair ==> {
                    &&& old(graph_builder).steps_left > 1
                    &&& px != py
                    &&& old(graph_builder).memo(py, px) is None
                    &&& old(graph_builder).canonical(py, px) is None
                    &&& old(graph_builder).nodes@[px.0 as int] == Some(Node::<'a, T>::VariantMatch(mx))
                    &&& old(graph_builder).nodes@[py.0 as int] == Some(Node::<'a, T>::VariantMatch(my))
                },
                stepped.nodes == old(graph_builder).nodes,
                stepped.merges == old(graph_builder).merges,
                stepped.joined == old(graph_builder).joined,
                stepped.errors == old(graph_builder).errors,
                stepped.steps_left == old(graph_builder).steps_left - 1,
                stepped.step_limit_reached == old(graph_builder).step_limit_reached,
                pair ==> forall|d: int|
                    0 <= d < 256 && #[trigger] both_at(*old(self), other, d) ==> table0[d] == Some(px)
                        && other.lookup_table@[d] == Some(py),
                pair && !(exists|c: int| 0 <= c < i && #[trigger] both_at(*old(self), other, c))
                    ==> *graph_builder == stepped,
                pair && (exists|c: int| 0 <= c < i && #[trigger] both_at(*old(self), other, c)) ==> {
                    &&& graph_builder.errors@ == if mx.spec_priority() == my.spec_priority() {
                        old(graph_builder).errors@.push(Error::VariantMatchesOverlapWithSamePriority(my, mx))
                    } else {
                        old(graph_builder).errors@
                    }
                    &&& graph_builder.steps_left == old(graph_builder).steps_left - 2
                    &&& graph_builder.step_limit_reached == old(graph_builder).step_limit_reached
                    &&& graph_builder.memo(py, px) == Some(winner)
                },
                pair ==> forall|c: int|
                    0 <= c < i && #[trigger] both_at(*old(self), other, c) ==> self.lookup_table@[c] == Some(winner),
                plain ==> forall|b: int|
                    0 <= b < 256 ==> (#[trigger] table0[b]) is None || other.lookup_table@[b] is None,
                graph_builder.grows(&after_miss),
                graph_builder.grows(&after_record),
                old(self).ids_below(old(graph_builder).nodes@.len()),
                other.ids_below(old(graph_builder).nodes@.len()),
                table0 == old(self).lookup_table@,
                miss0 is None && !graph_builder.step_limit_reached ==> forall|b: int|
                    0 <= b < i && table0[b] is Some && other.lookup_table@[b] is Some && (table0[b]
                        == other.lookup_table@[b] || either_built(
                        *old(graph_builder),
                        table0[b]->0,
                        other.lookup_table@[b]->0,
                    )) ==> #[trigger] self.lookup_table@[b] == merged_target(
                        *graph_builder,
                        table0[b]->0,
                        other.lookup_table@[b]->0,
                    ),
                miss0 is None ==> forall|b: int|
                    0 <= b < i ==> {
                        &&& (table0[b] is None ==> #[trigger] self.lookup_table@[b]
                            == other.lookup_table@[b])
                        &&& (other.lookup_table@[b] is None ==> self.lookup_table@[b] == table0[b])
                    },
            decreases 256 - i,
        {
            let ghost builder0 = *graph_builder;
            let ghost table1 = self.lookup_table@;
            let to = self.lookup_table[i];
            let other_to = other.lookup_table[i];
            let combined = match (other_to, to) {
                (None, None) => None,
                (Some(id), None) => Some(id),
                (None, Some(id)) => Some(id),
                (Some(other_id), Some(self_id)) => Some(graph_builder.merge(other_id, self_id)),
            };
            let new_to = match combined {
                Some(new_to) => match miss_fork_id {
                    Some(miss_fork_id) => {
                        let merge_id = graph_builder.merge(miss_fork_id, new_to);
                        match graph_builder.get(merge_id) {
                            Some(Node::Fork(fork)) => match fork.flatten_to_miss() {
                                Some(flat) => Some(flat),
                                None => Some(merge_id),
                            },
                            _ => Some(merge_id),
                        }
                    },
                    None => Some(new_to),
                },
                None => None,
            };
            self.lookup_table.set(i, new_to);
            proof {
                if pair {
                    if both_at(*old(self), other, i as int) {
                        assert(0 <= i && i < i + 1 && both_at(*old(self), other, i as int));
                    } else if exists|c: int| 0 <= c < i + 1 && #[trigger] both_at(*old(self), other, c) {
                        let c = choose|c: int| 0 <= c < i + 1 && #[trigger] both_at(*old(self), other, c);
                        assert(c < i);
                    }
                }
            }
            proof {
                if miss0 is None && !graph_builder.step_limit_reached {
                    assert(!builder0.step_limit_reached);
                    assert forall|c: int|
                        0 <= c < i + 1 && table0[c] is Some && other.lookup_table@[c] is Some && (table0[c]
                            == other.lookup_table@[c] || either_built(
                            *old(graph_builder),
                            table0[c]->0,
                            other.lookup_table@[c]->0,
                        )) implies #[trigger] self.lookup_table@[c] == merged_target(
                        *graph_builder,
                        table0[c]->0,
                        other.lookup_table@[c]->0,
                    ) by {
                        let x = table0[c]->0;
                        let y = other.lookup_table@[c]->0;
                        if c < i {
                            assert(table1[c] == merged_target(builder0, x, y));
                            if x != y {
                                assert(builder0.merges@.contains_key(merge_code(y, x)));
                            }
                        } else {
                            if old(graph_builder).nodes@[x.0 as int] is Some {
                                assert(builder0.nodes@[x.0 as int] == old(graph_builder).nodes@[x.0 as int]);
                            }
                            if old(graph_builder).nodes@[y.0 as int] is Some {
                                assert(builder0.nodes@[y.0 as int] == old(graph_builder).nodes@[y.0 as int]);
                            }
                        }
                    }
                }
            }
            i = i + 1;
        }
    }
}

} // verus!
