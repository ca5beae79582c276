//! What the code generated for a graph does in each state: a plan, made of
//! plain values, from which the lexer's source is printed.
use crate::analysis::{entry_of, recorded_distances, step_bound, BacktrackDistanceAnalysis};
use crate::graph::byte_set::{count_members, ByteSet};
use crate::graph::fork::Fork;
use crate::graph::node::Node;
use crate::graph::rope::Rope;
use crate::graph::{Graph, NodeId};
use crate::trusted::{first_occurrences, unique_values};
use crate::variant_match::VariantMatch;
use indexmap::IndexSet;
use vstd::prelude::*;

verus! {

#[verifier::external_type_specification]
#[verifier::external_body]
#[verifier::reject_recursive_types(T)]
#[verifier::reject_recursive_types(S)]
pub struct ExIndexSet<T, S>(IndexSet<T, S>);

/// The rows that a set of byte lookup rows holds, in insertion order.
pub uninterp spec fn lookup_rows(set: IndexSet<[bool; 256]>) -> Seq<Seq<bool>>;

/// The first position of `row` in `rows`.
pub open spec fn row_index(rows: Seq<Seq<bool>>, row: Seq<bool>) -> Option<int>
    decreases rows.len(),
{
    if rows.len() == 0 {
        None
    } else {
        match row_index(rows.drop_last(), row) {
            Some(i) => Some(i),
            None => if rows.last() == row {
                Some(rows.len() - 1)
            } else {
                None
            },
        }
    }
}

proof fn lemma_row_index_range(rows: Seq<Seq<bool>>, row: Seq<bool>)
    ensures
        row_index(rows, row) matches Some(i) ==> 0 <= i < rows.len() && rows[i] == row,
    decreases rows.len(),
{
    if rows.len() > 0 {
        lemma_row_index_range(rows.drop_last(), row);
    }
}

/// `rows` with `row` added unless it is there already; the position of
/// `row` in the result.
pub open spec fn insert_row(rows: Seq<Seq<bool>>, row: Seq<bool>) -> (Seq<Seq<bool>>, int) {
    match row_index(rows, row) {
        Some(i) => (rows, i),
        None => (rows.push(row), rows.len() as int),
    }
}

/// [`insert_row`] of each of `new`, in order; the positions.
pub open spec fn insert_rows(rows: Seq<Seq<bool>>, new: Seq<Seq<bool>>) -> (Seq<Seq<bool>>, Seq<int>)
    decreases new.len(),
{
    if new.len() == 0 {
        (rows, Seq::empty())
    } else {
        let (before, positions) = insert_rows(rows, new.drop_last());
        let (after, k) = insert_row(before, new.last());
        (after, positions.push(k))
    }
}

/// `indexmap::IndexSet::new`: a set without rows.
#[verifier::external_body]
fn new_lookup_rows() -> (r: IndexSet<[bool; 256]>)
    ensures
        lookup_rows(r) == Seq::<Seq<bool>>::empty(),
{
    IndexSet::new()
}

/// `indexmap::IndexSet::insert_full`: when an equal row is in the set, its
/// index and `false`, the set unchanged; otherwise the row is added at the
/// end and its index and `true` come back. The set, held in memory, has at
/// most `usize::MAX` rows.
#[verifier::external_body]
fn insert_lookup_row(set: &mut IndexSet<[bool; 256]>, row: [bool; 256]) -> (r: (usize, bool))
    ensures
        lookup_rows(*final(set)).len() <= usize::MAX,
        match row_index(lookup_rows(*old(set)), row@) {
            Some(i) => r == (i as usize, false) && lookup_rows(*final(set)) == lookup_rows(
                *old(set),
            ),
            None => r == (lookup_rows(*old(set)).len() as usize, true) && lookup_rows(*final(set))
                == lookup_rows(*old(set)).push(row@),
        },
{
    set.insert_full(row)
}

/// `indexmap::IndexSet::iter`, copied into a `Vec`: the rows in insertion
/// order.
#[verifier::external_body]
fn rows_in_order(set: &IndexSet<[bool; 256]>) -> (r: Vec<[bool; 256]>)
    ensures
        r@.len() == lookup_rows(*set).len(),
        forall|i: int| 0 <= i < r@.len() ==> (#[trigger] r@[i])@ == lookup_rows(*set)[i],
{
    set.iter().copied().collect()
}

/// How a state falls back to a recorded position when it misses.
#[derive(Debug, Clone, Copy, PartialEq, Eq, Structural)]
pub enum Backtrack {
    /// The position is the current one.
    Unchanged,
    /// The position lies this many bytes back.
    Distance(usize),
    /// The position was stored for this node.
    Stored(NodeId),
}

/// What a state does when it misses.
#[derive(Debug, Clone, Copy, PartialEq, Eq, Structural)]
pub enum OnMiss {
    /// Leave the state machine.
    Break,
    /// Go to the state of the node, back at the position.
    Goto(NodeId, Backtrack),
}

/// How the fast loop of a state tests a byte.
#[derive(Debug, Clone, Copy, PartialEq, Eq, Structural)]
pub enum LoopTest {
    /// The byte equals this one.
    Byte(u8),
    /// Bit `.1` of the byte's entry in lookup table `.0` is set.
    Lookup(usize, usize),
}

/// The code of one state.
pub enum ArmBody<'a, T> {
    /// Read a byte and go where `lookup_table` says; the entry state reads
    /// with `?`, the others miss at the end of the input.
    Fork {
        lookup_table: Vec<Option<NodeId>>,
        record: Option<NodeId>,
        is_entrypoint: bool,
        on_miss: OnMiss,
    },
    /// Consume bytes while they pass the test, then miss.
    FastLoop { test: LoopTest, record: Option<NodeId>, on_miss: OnMiss },
    /// Read `length` bytes; go to `then` when they are `bytes`.
    RopeBytes {
        record: Option<NodeId>,
        length: usize,
        bytes: Vec<u8>,
        then: NodeId,
        on_miss: OnMiss,
    },
    /// Look at the next `length` bytes; when each passes its lookup check,
    /// advance by one byte (as the generated code always has) and go to
    /// `then`.
    RopeLookups {
        record: Option<NodeId>,
        length: usize,
        checks: Vec<(usize, usize)>,
        then: NodeId,
        on_miss: OnMiss,
    },
    /// Return the variant.
    VariantMatch(&'a T),
}

/// How to go back for a miss to `miss`, given the analysis `a`.
pub open spec fn backtrack_of(a: BacktrackDistanceAnalysis, miss: NodeId) -> Backtrack {
    match a.entry(miss.0 as int) {
        Some(Ok(d)) => if d == 0 {
            Backtrack::Unchanged
        } else {
            Backtrack::Distance(d as usize)
        },
        _ => Backtrack::Stored(miss),
    }
}

/// What a state with miss `miss` does when it misses.
pub open spec fn miss_plan(a: BacktrackDistanceAnalysis, miss: Option<NodeId>) -> OnMiss {
    match miss {
        Some(m) => OnMiss::Goto(m, backtrack_of(a, m)),
        None => OnMiss::Break,
    }
}

/// The node whose position a state stores: the one it records, unless its
/// distance is known statically.
pub open spec fn record_plan(a: BacktrackDistanceAnalysis, record: Option<NodeId>) -> Option<NodeId> {
    match record {
        Some(id) => match a.entry(id.0 as int) {
            Some(Ok(_)) => None,
            _ => Some(id),
        },
        None => None,
    }
}

/// The bytes of `set` as a row of 256 flags.
pub open spec fn row_of(set: ByteSet) -> Seq<bool> {
    Seq::new(256, |b: int| b < set.members@.len() && set.members@[b])
}

/// The number of set flags among the first `n` of `row`.
pub open spec fn count_true(row: Seq<bool>, n: int) -> nat
    decreases n,
{
    if n <= 0 {
        0
    } else {
        count_true(row, n - 1) + if row[n - 1] {
            1nat
        } else {
            0nat
        }
    }
}

/// The first set flag among the first `n` of `row`.
pub open spec fn first_true(row: Seq<bool>, n: int) -> Option<int>
    decreases n,
{
    if n <= 0 {
        None
    } else {
        match first_true(row, n - 1) {
            Some(b) => Some(b),
            None => if row[n - 1] {
                Some(n - 1)
            } else {
                None
            },
        }
    }
}

proof fn lemma_first_true_range(row: Seq<bool>, n: int)
    ensures
        first_true(row, n) matches Some(x) ==> 0 <= x < n,
    decreases n,
{
    if n > 0 {
        lemma_first_true_range(row, n - 1);
    }
}

/// The byte of `set`, when it holds exactly one.
pub open spec fn lone_member(set: ByteSet) -> Option<u8> {
    if count_true(row_of(set), 256) == 1 {
        match first_true(row_of(set), 256) {
            Some(b) => Some(b as u8),
            None => None,
        }
    } else {
        None
    }
}

/// The bytes of `pattern`, when each of its sets holds exactly one.
pub open spec fn pattern_bytes(pattern: Seq<ByteSet>) -> Option<Seq<u8>>
    decreases pattern.len(),
{
    if pattern.len() == 0 {
        Some(Seq::empty())
    } else {
        match (pattern_bytes(pattern.drop_last()), lone_member(pattern.last())) {
            (Some(bytes), Some(b)) => Some(bytes.push(b)),
            _ => None,
        }
    }
}

/// The rows of the sets of `pattern`.
pub open spec fn pattern_rows(pattern: Seq<ByteSet>) -> Seq<Seq<bool>> {
    pattern.map_values(|set: ByteSet| row_of(set))
}

/// The table and bit of each row position.
pub open spec fn checks_of(positions: Seq<int>) -> Seq<(usize, usize)> {
    positions.map_values(|k: int| ((k / 8) as usize, (k % 8) as usize))
}

/// `body` is the plan of the fork `fork` with id `node_id`.
pub open spec fn fork_plan_ok<'a, T>(
    body: ArmBody<'a, T>,
    a: BacktrackDistanceAnalysis,
    entrypoint: NodeId,
    node_id: NodeId,
    fork: Fork,
) -> bool {
    body matches ArmBody::Fork { lookup_table, record, is_entrypoint, on_miss } && lookup_table@
        == fork.lookup_table@ && record == record_plan(a, fork.record_miss_backtrack_idx)
        && is_entrypoint == (node_id == entrypoint) && on_miss == miss_plan(a, fork.miss)
}

/// The rope `rope` with id `node_id` reads one byte class and loops back
/// to itself: its state is a fast loop.
pub open spec fn is_fast_loop(node_id: NodeId, rope: Rope) -> bool {
    rope.pattern@.len() == 1 && rope.target == node_id
}

/// `body` is the plan of the rope `rope` with id `node_id`, the lookup rows
/// going from `rows0` to `rows1`.
pub open spec fn rope_plan_ok<'a, T>(
    body: ArmBody<'a, T>,
    a: BacktrackDistanceAnalysis,
    node_id: NodeId,
    rope: Rope,
    rows0: Seq<Seq<bool>>,
    rows1: Seq<Seq<bool>>,
) -> bool {
    let record = record_plan(a, rope.record_miss_backtrack_idx);
    let on_miss = miss_plan(a, rope.miss);
    if is_fast_loop(node_id, rope) {
        &&& body matches ArmBody::FastLoop { test, record: rec, on_miss: om } && rec == record
            && om == on_miss && match lone_member(rope.pattern@[0]) {
            Some(b) => test == LoopTest::Byte(b) && rows1 == rows0,
            None => rows1 == insert_row(rows0, row_of(rope.pattern@[0])).0 && test
                == LoopTest::Lookup(
                (insert_row(rows0, row_of(rope.pattern@[0])).1 / 8) as usize,
                (insert_row(rows0, row_of(rope.pattern@[0])).1 % 8) as usize,
            ),
        }
    } else {
        match pattern_bytes(rope.pattern@) {
            Some(bytes) => {
                &&& rows1 == rows0
                &&& body matches ArmBody::RopeBytes { record: rec, length, bytes: bs, then, on_miss: om }
                &&& rec == record
                &&& om == on_miss
                &&& length == rope.pattern@.len()
                &&& bs@ == bytes
                &&& then == rope.target
            },
            None => {
                &&& rows1 == insert_rows(rows0, pattern_rows(rope.pattern@)).0
                &&& body matches ArmBody::RopeLookups { record: rec, length, checks, then, on_miss: om }
                &&& rec == record
                &&& om == on_miss
                &&& length == rope.pattern@.len()
                &&& checks@ == checks_of(insert_rows(rows0, pattern_rows(rope.pattern@)).1)
                &&& then == rope.target
            },
        }
    }
}

/// `body` is the plan of `node`, whose id is `node_id`, the lookup rows going
/// from `rows0` to `rows1`.
pub open spec fn arm_plan_ok<'a, T: VariantMatch>(
    body: ArmBody<'a, T>,
    a: BacktrackDistanceAnalysis,
    entrypoint: NodeId,
    node_id: NodeId,
    node: Node<'a, T>,
    rows0: Seq<Seq<bool>>,
    rows1: Seq<Seq<bool>>,
) -> bool {
    match node {
        Node::Fork(f) => fork_plan_ok(body, a, entrypoint, node_id, f) && rows1 == rows0,
        Node::Rope(r) => rope_plan_ok(body, a, node_id, r, rows0, rows1),
        Node::VariantMatch(v) => body == ArmBody::<'a, T>::VariantMatch(v) && rows1 == rows0,
    }
}

/// The state of `node`, whose id is `node_id`, is a fast loop.
pub open spec fn node_fast_loop<'a, T: VariantMatch>(node_id: NodeId, node: Node<'a, T>) -> bool {
    node matches Node::Rope(r) && is_fast_loop(node_id, r)
}

/// The lookup rows once the state of `node`, whose id is `id`, is planned
/// after `rows`.
pub open spec fn arm_rows<'a, T: VariantMatch>(rows: Seq<Seq<bool>>, id: int, node: Node<'a, T>) -> Seq<Seq<bool>> {
    match node {
        Node::Rope(r) => if is_fast_loop(NodeId(id as usize), r) {
            match lone_member(r.pattern@[0]) {
                Some(_) => rows,
                None => insert_row(rows, row_of(r.pattern@[0])).0,
            }
        } else {
            match pattern_bytes(r.pattern@) {
                Some(_) => rows,
                None => insert_rows(rows, pattern_rows(r.pattern@)).0,
            }
        },
        _ => rows,
    }
}

/// The lookup rows once the states of the first `i` nodes are planned.
pub open spec fn rows_after<'a, T: VariantMatch>(nodes: Seq<Node<'a, T>>, i: int) -> Seq<Seq<bool>>
    decreases i,
{
    if i <= 0 {
        Seq::empty()
    } else {
        arm_rows(rows_after(nodes, i - 1), i - 1, nodes[i - 1])
    }
}

/// Some of the first `i` nodes is planned as a fast loop.
pub open spec fn any_fast_loop<'a, T: VariantMatch>(nodes: Seq<Node<'a, T>>, i: int) -> bool
    decreases i,
{
    if i <= 0 {
        false
    } else {
        any_fast_loop(nodes, i - 1) || node_fast_loop(NodeId((i - 1) as usize), nodes[i - 1])
    }
}

/// The ids of the positions that the nodes record, in node order.
pub open spec fn recorded_ids<'a, T: VariantMatch>(nodes: Seq<Node<'a, T>>) -> Seq<usize>
    decreases nodes.len(),
{
    if nodes.len() == 0 {
        Seq::empty()
    } else {
        let rest = recorded_ids(nodes.drop_last());
        match nodes.last().spec_record_miss_backtrack_idx() {
            Some(r) => rest.push(r.0),
            None => rest,
        }
    }
}

/// The positions that the code stores: each recorded one once, in order,
/// unless its distance is known statically.
pub open spec fn backtrack_fields<'a, T: VariantMatch>(
    nodes: Seq<Node<'a, T>>,
    a: BacktrackDistanceAnalysis,
) -> Seq<usize> {
    first_occurrences(recorded_ids(nodes)).filter(stored(a))
}

/// The test of a recorded position whose distance is not known statically.
pub open spec fn stored(a: BacktrackDistanceAnalysis) -> spec_fn(usize) -> bool {
    |r: usize| !(a.entry(r as int) matches Some(Ok(_)))
}

/// Byte `b` of the lookup table that packs `count` rows from `start`: bit `i`
/// is set when row `start + i` holds `b`.
pub open spec fn packed(rows: Seq<Seq<bool>>, start: int, count: int, b: int) -> u8
    decreases count,
{
    if count <= 0 {
        0u8
    } else {
        packed(rows, start, count - 1, b) | (if rows[start + count - 1][b] {
            1u8 << ((count - 1) as u8)
        } else {
            0u8
        })
    }
}

/// The number of rows that lookup table `c` packs.
pub open spec fn chunk_size(len: int, c: int) -> int {
    if len - 8 * c < 8 {
        len - 8 * c
    } else {
        8
    }
}

/// The code planned for a graph.
pub struct Plan<'a, T> {
    /// The state of each node, in id order.
    pub arms: Vec<(NodeId, ArmBody<'a, T>)>,
    /// The positions that the code stores.
    pub backtrack_fields: Vec<NodeId>,
    /// The lookup tables, each packing eight rows.
    pub rope_lookups: Vec<[u8; 256]>,
    pub uses_fast_loop: bool,
    pub initial_state: NodeId,
    /// The analysis that the plan was made with.
    pub backtrack_distances: BacktrackDistanceAnalysis,
}

/// Produces the plan of a lexer's code from its graph.
pub struct Generator<'g, 'a, T: VariantMatch> {
    /// The byte rows that rope states test against, each once.
    pub rope_lookups: IndexSet<[bool; 256]>,
    pub graph: &'g Graph<'a, T>,
    pub entrypoint: NodeId,
    /// Some state consumes bytes in a fast loop.
    pub uses_fast_loop: bool,
    pub backtrack_distances: BacktrackDistanceAnalysis,
}

/// The flags of `set` as an array.
fn lookup_row(set: &ByteSet) -> (r: [bool; 256])
    ensures
        r@ == row_of(*set),
{
    let mut row = [false; 256];
    let mut b: usize = 0;
    while b < 256
        invariant
            b <= 256,
            row@.len() == 256,
            forall|j: int| 0 <= j < b ==> row@[j] == row_of(*set)[j],
            forall|j: int| b <= j < 256 ==> !row@[j],
        decreases 256 - b,
    {
        if b < set.members.len() && set.members[b] {
            row[b] = true;
        }
        b = b + 1;
    }
    assert(row@ =~= row_of(*set));
    row
}

/// The byte of `set`, when it holds exactly one.
fn lone_member_of(set: &ByteSet) -> (r: Option<u8>)
    ensures
        r == lone_member(*set),
{
    let row = lookup_row(set);
    let mut count: usize = 0;
    let mut first: Option<usize> = None;
    let mut b: usize = 0;
    while b < 256
        invariant
            b <= 256,
            row@ == row_of(*set),
            count == count_true(row@, b as int),
            count <= b,
            first == (match first_true(row@, b as int) {
                Some(x) => Some(x as usize),
                None => None::<usize>,
            }),
            forall|x: usize| first == Some(x) ==> x < b,
        decreases 256 - b,
    {
        proof {
            lemma_first_true_range(row@, b as int);
        }
        if row[b] {
            count = count + 1;
            if first.is_none() {
                first = Some(b);
            }
        }
        b = b + 1;
    }
    proof {
        lemma_first_true_range(row@, 256);
    }
    if count == 1 {
        match first {
            Some(x) => Some(x as u8),
            None => None,
        }
    } else {
        None
    }
}

/// The bytes of `pattern`, when each of its sets holds exactly one.
fn bytes_of_pattern(pattern: &Vec<ByteSet>) -> (r: Option<Vec<u8>>)
    ensures
        match r {
            Some(bytes) => pattern_bytes(pattern@) == Some(bytes@),
            None => pattern_bytes(pattern@) is None,
        },
{
    let mut bytes: Vec<u8> = Vec::new();
    let mut i: usize = 0;
    while i < pattern.len()
        invariant
            i <= pattern@.len(),
            pattern_bytes(pattern@.take(i as int)) == Some(bytes@),
        decreases pattern@.len() - i,
    {
        assert(pattern@.take(i + 1).drop_last() =~= pattern@.take(i as int));
        match lone_member_of(&pattern[i]) {
            Some(b) => bytes.push(b),
            None => {
                proof {
                    lemma_pattern_bytes_prefix(pattern@, i as int + 1);
                }
                return None;
            },
        }
        i = i + 1;
    }
    assert(pattern@.take(pattern@.len() as int) =~= pattern@);
    Some(bytes)
}

/// A pattern with a prefix that is not all single bytes is not either.
proof fn lemma_pattern_bytes_prefix(pattern: Seq<ByteSet>, n: int)
    requires
        0 <= n <= pattern.len(),
        pattern_bytes(pattern.take(n)) is None,
    ensures
        pattern_bytes(pattern) is None,
    decreases pattern.len() - n,
{
    if n < pattern.len() {
        assert(pattern.take(n + 1).drop_last() =~= pattern.take(n));
        lemma_pattern_bytes_prefix(pattern, n + 1);
    } else {
        assert(pattern.take(n) =~= pattern);
    }
}

impl<'g, 'a, T: VariantMatch> Generator<'g, 'a, T> {
    /// A generator for `graph`, entered at `entrypoint`, with the backtrack
    /// distances of the graph analysed.
    pub fn new(graph: &'g Graph<'a, T>, entrypoint: NodeId) -> (g: Self)
        requires
            graph.wf(),
            (graph.nodes@.len() + 1) * step_bound(graph.nodes@) <= usize::MAX,
        ensures
            g.graph == graph,
            g.entrypoint == entrypoint,
            !g.uses_fast_loop,
            lookup_rows(g.rope_lookups) == Seq::<Seq<bool>>::empty(),
            g.backtrack_distances.distances@.len() == graph.nodes@.len(),
            forall|r: int|
                0 <= r < graph.nodes@.len() ==> #[trigger] g.backtrack_distances.entry(r)
                    == entry_of(
                    recorded_distances(graph.nodes@, NodeId(r as usize), graph.nodes@.len() as int),
                ),
    {
        Generator {
            rope_lookups: new_lookup_rows(),
            graph,
            entrypoint,
            uses_fast_loop: false,
            backtrack_distances: BacktrackDistanceAnalysis::new(graph),
        }
    }

    /// What a state with miss `miss` does when it misses: go there, back to
    /// the position, or leave the state machine.
    pub fn on_miss(&self, miss: Option<NodeId>) -> (r: OnMiss)
        ensures
            r == miss_plan(self.backtrack_distances, miss),
    {
        match miss {
            Some(miss) => {
                let backtrack = match self.backtrack_distances.static_distance_for_backtrack(miss) {
                    Some(distance) => if distance == 0 {
                        Backtrack::Unchanged
                    } else {
                        Backtrack::Distance(distance)
                    },
                    None => Backtrack::Stored(miss),
                };
                OnMiss::Goto(miss, backtrack)
            },
            None => OnMiss::Break,
        }
    }

    /// The node whose position a state that records `node_id` stores, unless
    /// its distance is known statically.
    pub fn record_miss_backtrack_idx(&self, node_id: NodeId) -> (r: Option<NodeId>)
        ensures
            r == record_plan(self.backtrack_distances, Some(node_id)),
    {
        match self.backtrack_distances.static_distance_for_backtrack(node_id) {
            Some(_) => None,
            None => Some(node_id),
        }
    }

    fn record_of(&self, record: Option<NodeId>) -> (r: Option<NodeId>)
        ensures
            r == record_plan(self.backtrack_distances, record),
    {
        match record {
            Some(node_id) => self.record_miss_backtrack_idx(node_id),
            None => None,
        }
    }

    /// The state that returns `variant_match`.
    pub fn variant_match_arm_body(variant_match: &'a T) -> (r: ArmBody<'a, T>)
        ensures
            r == ArmBody::<'a, T>::VariantMatch(variant_match),
    {
        ArmBody::VariantMatch(variant_match)
    }

    /// The state of the fork `fork`, whose id is `node_id`.
    pub fn fork_match_arm_body(&self, node_id: NodeId, fork: &Fork) -> (r: ArmBody<'a, T>)
        ensures
            fork_plan_ok(r, self.backtrack_distances, self.entrypoint, node_id, *fork),
    {
        let mut lookup_table: Vec<Option<NodeId>> = Vec::new();
        let mut i: usize = 0;
        while i < fork.lookup_table.len()
            invariant
                i <= fork.lookup_table@.len(),
                lookup_table@ == fork.lookup_table@.take(i as int),
            decreases fork.lookup_table@.len() - i,
        {
            lookup_table.push(fork.lookup_table[i]);
            assert(fork.lookup_table@.take(i + 1) =~= fork.lookup_table@.take(i as int).push(
                fork.lookup_table@[i as int],
            ));
            i = i + 1;
        }
        assert(fork.lookup_table@.take(fork.lookup_table@.len() as int) =~= fork.lookup_table@);
        let is_entrypoint = node_id.0 == self.entrypoint.0;
        let on_miss = self.on_miss(fork.miss);
        let record = self.record_of(fork.record_miss_backtrack_idx);
        ArmBody::Fork { lookup_table, record, is_entrypoint, on_miss }
    }

    /// Adds the row of each set of `pattern` to the rope lookups, unless an
    /// equal row is there; the table and bit of each row's position.
    fn lookup_checks(&mut self, pattern: &Vec<ByteSet>) -> (r: Vec<(usize, usize)>)
        ensures
            final(self).graph == old(self).graph,
            final(self).entrypoint == old(self).entrypoint,
            final(self).uses_fast_loop == old(self).uses_fast_loop,
            final(self).backtrack_distances == old(self).backtrack_distances,
            lookup_rows(final(self).rope_lookups) == insert_rows(
                lookup_rows(old(self).rope_lookups),
                pattern_rows(pattern@),
            ).0,
            r@ == checks_of(insert_rows(lookup_rows(old(self).rope_lookups), pattern_rows(pattern@)).1),
    {
        let ghost rows0 = lookup_rows(self.rope_lookups);
        let mut checks: Vec<(usize, usize)> = Vec::new();
        let mut i: usize = 0;
        assert(pattern_rows(pattern@.take(0)) =~= Seq::<Seq<bool>>::empty());
        assert(checks_of(Seq::<int>::empty()) =~= Seq::<(usize, usize)>::empty());
        while i < pattern.len()
            invariant
                i <= pattern@.len(),
                self.graph == old(self).graph,
                self.entrypoint == old(self).entrypoint,
                self.uses_fast_loop == old(self).uses_fast_loop,
                self.backtrack_distances == old(self).backtrack_distances,
                rows0 == lookup_rows(old(self).rope_lookups),
                lookup_rows(self.rope_lookups) == insert_rows(
                    rows0,
                    pattern_rows(pattern@.take(i as int)),
                ).0,
                checks@ == checks_of(insert_rows(rows0, pattern_rows(pattern@.take(i as int))).1),
            decreases pattern@.len() - i,
        {
            let row = lookup_row(&pattern[i]);
            let ghost before = lookup_rows(self.rope_lookups);
            let ghost positions = insert_rows(rows0, pattern_rows(pattern@.take(i as int))).1;
            assert(pattern_rows(pattern@.take(i + 1)).drop_last() =~= pattern_rows(
                pattern@.take(i as int),
            ));
            assert(pattern_rows(pattern@.take(i + 1)).last() == row@);
            proof {
                lemma_row_index_range(before, row@);
            }
            let (idx, _) = insert_lookup_row(&mut self.rope_lookups, row);
            assert(idx as int == insert_row(before, row@).1);
            checks.push((idx / 8, idx % 8));
            assert(checks@ =~= checks_of(positions.push(idx as int)));
            i = i + 1;
        }
        assert(pattern@.take(pattern@.len() as int) =~= pattern@);
        checks
    }

    /// The state of a rope that reads one byte class and loops back to
    /// itself: a fast loop over the bytes of the class.
    pub fn rope_match_arm_body_fast_loop(&mut self, node_id: NodeId, rope: &Rope) -> (r: ArmBody<'a, T>)
        requires
            is_fast_loop(node_id, *rope),
        ensures
            final(self).graph == old(self).graph,
            final(self).entrypoint == old(self).entrypoint,
            final(self).uses_fast_loop,
            final(self).backtrack_distances == old(self).backtrack_distances,
            rope_plan_ok(
                r,
                old(self).backtrack_distances,
                node_id,
                *rope,
                lookup_rows(old(self).rope_lookups),
                lookup_rows(final(self).rope_lookups),
            ),
    {
        self.uses_fast_loop = true;
        let pattern = &rope.pattern[0];
        let test = match lone_member_of(pattern) {
            Some(byte) => LoopTest::Byte(byte),
            None => {
                let row = lookup_row(pattern);
                proof {
                    lemma_row_index_range(lookup_rows(self.rope_lookups), row@);
                }
                let (idx, _) = insert_lookup_row(&mut self.rope_lookups, row);
                LoopTest::Lookup(idx / 8, idx % 8)
            },
        };
        let record = self.record_of(rope.record_miss_backtrack_idx);
        let on_miss = self.on_miss(rope.miss);
        ArmBody::FastLoop { test, record, on_miss }
    }

    /// The state of the rope `rope`, whose id is `node_id`: a fast loop, a
    /// comparison with its bytes when each class is a single byte, or a
    /// check of each read byte against a lookup row.
    pub fn rope_match_arm_body(&mut self, node_id: NodeId, rope: &Rope) -> (r: ArmBody<'a, T>)
        ensures
            final(self).graph == old(self).graph,
            final(self).entrypoint == old(self).entrypoint,
            final(self).uses_fast_loop == (old(self).uses_fast_loop || is_fast_loop(node_id, *rope)),
            final(self).backtrack_distances == old(self).backtrack_distances,
            rope_plan_ok(
                r,
                old(self).backtrack_distances,
                node_id,
                *rope,
                lookup_rows(old(self).rope_lookups),
                lookup_rows(final(self).rope_lookups),
            ),
            rope.wf() ==> rope_arm_reads_pattern(r, node_id, *rope, lookup_rows(final(self).rope_lookups)),
    {
        if rope.pattern.len() == 1 && rope.target.0 == node_id.0 {
            let body = self.rope_match_arm_body_fast_loop(node_id, rope);
            proof {
                if rope.wf() {
                    lemma_rope_plan_reads_pattern(
                        body,
                        old(self).backtrack_distances,
                        node_id,
                        *rope,
                        lookup_rows(old(self).rope_lookups),
                        lookup_rows(self.rope_lookups),
                    );
                }
            }
            return body;
        }
        let record = self.record_of(rope.record_miss_backtrack_idx);
        let on_miss = self.on_miss(rope.miss);
        let length = rope.pattern.len();
        let then = rope.target;
        let body = match bytes_of_pattern(&rope.pattern) {
            Some(bytes) => ArmBody::RopeBytes { record, length, bytes, then, on_miss },
            None => {
                let checks = self.lookup_checks(&rope.pattern);
                ArmBody::RopeLookups { record, length, checks, then, on_miss }
            },
        };
        proof {
            if rope.wf() {
                lemma_rope_plan_reads_pattern(
                    body,
                    old(self).backtrack_distances,
                    node_id,
                    *rope,
                    lookup_rows(old(self).rope_lookups),
                    lookup_rows(self.rope_lookups),
                );
            }
        }
        body
    }


    /// The state of `node`, whose id is `node_id`.
    pub fn match_arm_body(&mut self, node_id: NodeId, node: &Node<'a, T>) -> (r: ArmBody<'a, T>)
        ensures
            final(self).graph == old(self).graph,
            final(self).entrypoint == old(self).entrypoint,
            final(self).uses_fast_loop == (old(self).uses_fast_loop || node_fast_loop(node_id, *node)),
            final(self).backtrack_distances == old(self).backtrack_distances,
            arm_plan_ok(
                r,
                old(self).backtrack_distances,
                old(self).entrypoint,
                node_id,
                *node,
                lookup_rows(old(self).rope_lookups),
                lookup_rows(final(self).rope_lookups),
            ),
    {
        match node {
            Node::Fork(fork) => self.fork_match_arm_body(node_id, fork),
            Node::Rope(rope) => self.rope_match_arm_body(node_id, rope),
            Node::VariantMatch(variant_match) => Self::variant_match_arm_body(*variant_match),
        }
    }

    /// The positions that the code stores: each one that a node records,
    /// once, unless its distance is known statically.
    pub fn generate_backtrack_struct(&self) -> (r: Vec<NodeId>)
        ensures
            r@.map_values(|id: NodeId| id.0) == backtrack_fields(
                self.graph.nodes@,
                self.backtrack_distances,
            ),
    {
        let ghost nodes = self.graph.nodes@;
        let mut recorded: Vec<usize> = Vec::new();
        let mut i: usize = 0;
        while i < self.graph.len()
            invariant
                i <= nodes.len(),
                nodes == self.graph.nodes@,
                recorded@ == recorded_ids(nodes.take(i as int)),
            decreases nodes.len() - i,
        {
            assert(nodes.take(i + 1).drop_last() =~= nodes.take(i as int));
            match self.graph.get(NodeId(i)).record_miss_backtrack_idx() {
                Some(r) => recorded.push(r.0),
                None => {},
            }
            i = i + 1;
        }
        assert(nodes.take(nodes.len() as int) =~= nodes);
        let unique = unique_values(&recorded);
        let ghost keep = stored(self.backtrack_distances);
        let mut fields: Vec<NodeId> = Vec::new();
        let mut k: usize = 0;
        while k < unique.len()
            invariant
                k <= unique@.len(),
                keep == stored(self.backtrack_distances),
                fields@.map_values(|id: NodeId| id.0) == unique@.take(k as int).filter(keep),
            decreases unique@.len() - k,
        {
            let id = NodeId(unique[k]);
            let ghost before = fields@;
            reveal(Seq::filter);
            assert(unique@.take(k + 1).drop_last() =~= unique@.take(k as int));
            assert(unique@.take(k + 1).last() == unique@[k as int]);
            let none = self.backtrack_distances.static_distance_for_backtrack(id).is_none();
            assert(keep(unique@[k as int]) == !(self.backtrack_distances.entry(unique@[k as int] as int) matches Some(Ok(_))));
            assert(none == keep(unique@[k as int]));
            if none {
                fields.push(id);
                assert(fields@.map_values(|id: NodeId| id.0) =~= before.map_values(
                    |id: NodeId| id.0,
                ).push(id.0));
            }
            k = k + 1;
        }
        assert(unique@.take(unique@.len() as int) =~= unique@);
        fields
    }

    /// The rope lookups packed eight rows to a table: bit `i` of entry `b`
    /// of table `c` is set when row `8 * c + i` holds `b`.
    pub fn generate_rope_lookups(&self) -> (r: Vec<[u8; 256]>)
        ensures
            r@.len() == (lookup_rows(self.rope_lookups).len() + 7) / 8,
            forall|c: int, b: int|
                0 <= c < r@.len() && 0 <= b < 256 ==> #[trigger] r@[c]@[b] == packed(
                    lookup_rows(self.rope_lookups),
                    8 * c,
                    chunk_size(lookup_rows(self.rope_lookups).len() as int, c),
                    b,
                ),
    {
        let ghost rows = lookup_rows(self.rope_lookups);
        let all = rows_in_order(&self.rope_lookups);
        let total = all.len();
        let n_tables = total / 8 + if total % 8 == 0 {
            0
        } else {
            1
        };
        assert(n_tables == (rows.len() + 7) / 8);
        let mut tables: Vec<[u8; 256]> = Vec::new();
        let mut c: usize = 0;
        while c < n_tables
            invariant
                all@.len() == rows.len(),
                total == all@.len(),
                n_tables == (rows.len() + 7) / 8,
                forall|i: int| 0 <= i < all@.len() ==> (#[trigger] all@[i])@ == rows[i],
                c <= n_tables,
                tables@.len() == c,
                forall|t: int, b: int|
                    0 <= t < tables@.len() && 0 <= b < 256 ==> #[trigger] tables@[t]@[b]
                        == packed(rows, 8 * t, chunk_size(rows.len() as int, t), b),
            decreases n_tables - c,
        {
            assert(8 * c < total) by (nonlinear_arith)
                requires
                    c < n_tables,
                    n_tables == (total + 7) / 8,
            ;
            let start = 8 * c;
            let count: usize = if total - start < 8 {
                total - start
            } else {
                8
            };
            assert(count == chunk_size(rows.len() as int, c as int));
            let mut table = [0u8; 256];
            let mut i: usize = 0;
            while i < count
                invariant
                    i <= count <= 8,
                    start + count <= all@.len(),
                    total == all@.len(),
                    all@.len() == rows.len(),
                    forall|j: int| 0 <= j < all@.len() ==> (#[trigger] all@[j])@ == rows[j],
                    table@.len() == 256,
                    forall|b: int| 0 <= b < 256 ==> table@[b] == packed(rows, start as int, i as int, b),
                decreases count - i,
            {
                assert(start + i < all@.len());
                let row = &all[start + i];
                let mut b: usize = 0;
                while b < 256
                    invariant
                        b <= 256,
                        i < count <= 8,
                        start + count <= all@.len(),
                        all@.len() == rows.len(),
                        row@ == rows[start + i],
                        table@.len() == 256,
                        forall|x: int| 0 <= x < b ==> table@[x] == packed(rows, start as int, i + 1, x),
                        forall|x: int| b <= x < 256 ==> table@[x] == packed(rows, start as int, i as int, x),
                    decreases 256 - b,
                {
                    let bit: u8 = if row[b] {
                        1u8 << (i as u8)
                    } else {
                        0u8
                    };
                    let updated = table[b] | bit;
                    table[b] = updated;
                    b = b + 1;
                }
                i = i + 1;
            }
            tables.push(table);
            c = c + 1;
        }
        tables
    }

}

/// The plan of the code for `graph`, entered at `entrypoint`: the state of
/// each node in id order (the lookup rows that rope states add accumulate in
/// that order), the positions to store, and the packed lookup tables.
pub fn generate<'g, 'a, T: VariantMatch>(graph: &'g Graph<'a, T>, entrypoint: NodeId) -> (p: Plan<'a, T>)
    requires
        graph.wf(),
        (graph.nodes@.len() + 1) * step_bound(graph.nodes@) <= usize::MAX,
    ensures
        p.initial_state == entrypoint,
        p.arms@.len() == graph.nodes@.len(),
        forall|r: int|
            0 <= r < graph.nodes@.len() ==> #[trigger] p.backtrack_distances.entry(r) == entry_of(
                recorded_distances(graph.nodes@, NodeId(r as usize), graph.nodes@.len() as int),
            ),
        forall|i: int|
            0 <= i < p.arms@.len() ==> (#[trigger] p.arms@[i]).0 == NodeId(i as usize) && arm_plan_ok(
                p.arms@[i].1,
                p.backtrack_distances,
                entrypoint,
                NodeId(i as usize),
                graph.nodes@[i],
                rows_after(graph.nodes@, i),
                rows_after(graph.nodes@, i + 1),
            ),
        p.uses_fast_loop == any_fast_loop(graph.nodes@, graph.nodes@.len() as int),
        p.uses_fast_loop == has_one_set_self_loop(graph.nodes@, graph.nodes@.len() as int),
        forall|i: int|
            0 <= i < p.arms@.len() ==> arm_follows_node(
                #[trigger] p.arms@[i].1,
                entrypoint,
                NodeId(i as usize),
                graph.nodes@[i],
                rows_after(graph.nodes@, i + 1),
            ),
        forall|i: int|
            0 <= i < p.arms@.len() && #[trigger] graph.nodes@[i] is Rope ==> rope_arm_reads_pattern(
                p.arms@[i].1,
                NodeId(i as usize),
                graph.nodes@[i]->Rope_0,
                rows_after(graph.nodes@, i + 1),
            ),
        p.backtrack_fields@.map_values(|id: NodeId| id.0) == backtrack_fields(
            graph.nodes@,
            p.backtrack_distances,
        ),
        p.rope_lookups@.len() == (rows_after(graph.nodes@, graph.nodes@.len() as int).len() + 7) / 8,
        forall|c: int, b: int|
            0 <= c < p.rope_lookups@.len() && 0 <= b < 256 ==> #[trigger] p.rope_lookups@[c]@[b]
                == packed(
                rows_after(graph.nodes@, graph.nodes@.len() as int),
                8 * c,
                chunk_size(rows_after(graph.nodes@, graph.nodes@.len() as int).len() as int, c),
                b,
            ),
{
    let ghost nodes = graph.nodes@;
    let mut generator = Generator::new(graph, entrypoint);
    let ghost a0 = generator.backtrack_distances;
    let entries = graph.iter();
    let mut arms: Vec<(NodeId, ArmBody<'a, T>)> = Vec::new();
    let mut i: usize = 0;
    while i < entries.len()
        invariant
            i <= entries@.len(),
            entries@.len() == nodes.len(),
            forall|j: int|
                0 <= j < entries@.len() ==> (#[trigger] entries@[j]).0.0 == j && *entries@[j].1
                    == nodes[j],
            generator.graph == graph,
            generator.entrypoint == entrypoint,
            generator.backtrack_distances == a0,
            nodes == graph.nodes@,
            lookup_rows(generator.rope_lookups) == rows_after(nodes, i as int),
            generator.uses_fast_loop == any_fast_loop(nodes, i as int),
            arms@.len() == i,
            forall|j: int|
                0 <= j < i ==> (#[trigger] arms@[j]).0 == NodeId(j as usize) && arm_plan_ok(
                    arms@[j].1,
                    generator.backtrack_distances,
                    entrypoint,
                    NodeId(j as usize),
                    nodes[j],
                    rows_after(nodes, j),
                    rows_after(nodes, j + 1),
                ),
        decreases entries@.len() - i,
    {
        let (id, node) = entries[i];
        let body = generator.match_arm_body(id, node);
        assert(lookup_rows(generator.rope_lookups) == rows_after(nodes, i + 1));
        arms.push((id, body));
        i = i + 1;
    }
    let backtrack_fields = generator.generate_backtrack_struct();
    let rope_lookups = generator.generate_rope_lookups();
    proof {
        lemma_any_fast_loop(nodes, nodes.len() as int);
        assert forall|i: int| 0 <= i < arms@.len() implies arm_follows_node(
            #[trigger] arms@[i].1,
            entrypoint,
            NodeId(i as usize),
            nodes[i],
            rows_after(nodes, i + 1),
        ) by {
            assert(nodes[i].ids_below(nodes.len()));
            lemma_arm_follows_node(
                arms@[i].1,
                a0,
                entrypoint,
                NodeId(i as usize),
                nodes[i],
                rows_after(nodes, i),
                rows_after(nodes, i + 1),
            );
        }
        assert forall|i: int|
            0 <= i < arms@.len() && #[trigger] nodes[i] is Rope implies rope_arm_reads_pattern(
                arms@[i].1,
                NodeId(i as usize),
                nodes[i]->Rope_0,
                rows_after(nodes, i + 1),
            ) by {
            assert(nodes[i].ids_below(nodes.len()));
            lemma_rope_plan_reads_pattern(
                arms@[i].1,
                a0,
                NodeId(i as usize),
                nodes[i]->Rope_0,
                rows_after(nodes, i),
                rows_after(nodes, i + 1),
            );
        }
    }
    Plan {
        arms,
        backtrack_fields,
        rope_lookups,
        uses_fast_loop: generator.uses_fast_loop,
        initial_state: entrypoint,
        backtrack_distances: generator.backtrack_distances,
    }
}

/// The state planned for the rope `rope`, whose id is `node_id`, reads every
/// byte set of its pattern. It is a fast loop only when the pattern is one
/// byte set and the rope goes back to itself, and a fast loop that compares
/// with a byte compares with the one byte of that set. Any other rope state
/// reads as many bytes as the pattern has sets and then goes to the rope's
/// target: it compares them, in order, with the one byte of each set, or
/// makes one lookup check per set.
pub open spec fn rope_arm_reads_pattern<'a, T>(
    body: ArmBody<'a, T>,
    node_id: NodeId,
    rope: Rope,
    rows: Seq<Seq<bool>>,
) -> bool {
    let n = rope.pattern@.len();
    match body {
        ArmBody::FastLoop { test, .. } => {
            &&& n == 1
            &&& rope.target == node_id
            &&& test matches LoopTest::Byte(b) ==> forall|x: u8| #[trigger] rope.pattern@[0].has(x) <==> x == b
            &&& rows.len() <= usize::MAX ==> (test matches LoopTest::Lookup(table, bit) ==> bit < 8 && row_at(
                rows,
                table,
                bit,
            ) == Some(row_of(rope.pattern@[0])))
        },
        ArmBody::RopeBytes { length, bytes, then, .. } => {
            &&& !(n == 1 && rope.target == node_id)
            &&& length == n
            &&& bytes@.len() == n
            &&& then == rope.target
            &&& forall|i: int, x: u8| 0 <= i < n ==> (#[trigger] rope.pattern@[i].has(x) <==> x == bytes@[i])
        },
        ArmBody::RopeLookups { length, checks, then, .. } => {
            &&& !(n == 1 && rope.target == node_id)
            &&& length == n
            &&& checks@.len() == n
            &&& then == rope.target
            &&& rows.len() <= usize::MAX ==> forall|i: int|
                0 <= i < n ==> (#[trigger] checks@[i]).1 < 8 && row_at(rows, checks@[i].0, checks@[i].1)
                    == Some(row_of(rope.pattern@[i]))
        },
        _ => false,
    }
}

/// The lookup row that table `table`, bit `bit` stands for, when there is
/// one.
pub open spec fn row_at(rows: Seq<Seq<bool>>, table: usize, bit: usize) -> Option<Seq<bool>> {
    let k = 8 * table + bit;
    if 0 <= k < rows.len() {
        Some(rows[k])
    } else {
        None
    }
}

/// Of the first `n` flags of `row`: with no first set flag, none is set;
/// with one, some flag is counted; with exactly one counted, it is the only
/// set flag.
proof fn lemma_lone_row(row: Seq<bool>, n: int)
    requires
        0 <= n <= row.len(),
    ensures
        first_true(row, n) is None ==> count_true(row, n) == 0 && forall|x: int| 0 <= x < n ==> !row[x],
        first_true(row, n) is Some ==> count_true(row, n) >= 1,
        count_true(row, n) == 1 && first_true(row, n) is Some ==> forall|x: int|
            0 <= x < n ==> (row[x] <==> x == first_true(row, n)->0),
    decreases n,
{
    if n > 0 {
        lemma_lone_row(row, n - 1);
        lemma_first_true_range(row, n - 1);
    }
}

/// The lone member of a set is its only byte.
proof fn lemma_lone_member(set: ByteSet)
    requires
        set.wf(),
        lone_member(set) is Some,
    ensures
        forall|x: u8| #[trigger] set.has(x) <==> x == lone_member(set)->0,
{
    let row = row_of(set);
    lemma_lone_row(row, 256);
    lemma_first_true_range(row, 256);
    assert forall|x: u8| #[trigger] set.has(x) <==> x == lone_member(set)->0 by {
        assert(row[x as int] == set.has(x));
    }
}

/// The bytes of a pattern are the lone members of its sets, in order.
proof fn lemma_pattern_bytes(pattern: Seq<ByteSet>)
    requires
        pattern_bytes(pattern) is Some,
    ensures
        pattern_bytes(pattern)->0.len() == pattern.len(),
        forall|i: int|
            0 <= i < pattern.len() ==> lone_member(#[trigger] pattern[i]) == Some(pattern_bytes(pattern)->0[i]),
    decreases pattern.len(),
{
    if pattern.len() > 0 {
        let init = pattern.drop_last();
        lemma_pattern_bytes(init);
        assert forall|i: int| 0 <= i < pattern.len() implies lone_member(#[trigger] pattern[i]) == Some(
            pattern_bytes(pattern)->0[i],
        ) by {
            if i < init.len() {
                assert(pattern[i] == init[i]);
            }
        }
    }
}

/// [`insert_row`] keeps the rows there were and gives a position that holds
/// the row.
proof fn lemma_insert_row(rows: Seq<Seq<bool>>, row: Seq<bool>)
    ensures
        ({
            let (out, k) = insert_row(rows, row);
            &&& rows.len() <= out.len()
            &&& forall|j: int| 0 <= j < rows.len() ==> #[trigger] out[j] == rows[j]
            &&& 0 <= k < out.len()
            &&& out[k] == row
        }),
{
    lemma_row_index_range(rows, row);
}

/// [`insert_rows`] keeps the rows there were and gives, for each new row, a
/// position that holds it.
proof fn lemma_insert_rows(rows: Seq<Seq<bool>>, new: Seq<Seq<bool>>)
    ensures
        ({
            let (out, pos) = insert_rows(rows, new);
            &&& pos.len() == new.len()
            &&& rows.len() <= out.len()
            &&& forall|j: int| 0 <= j < rows.len() ==> #[trigger] out[j] == rows[j]
            &&& forall|i: int| 0 <= i < new.len() ==> 0 <= #[trigger] pos[i] < out.len() && out[pos[i]] == new[i]
        }),
    decreases new.len(),
{
    if new.len() > 0 {
        let init = new.drop_last();
        lemma_insert_rows(rows, init);
        let (before, positions) = insert_rows(rows, init);
        lemma_insert_row(before, new.last());
        let (out, pos) = insert_rows(rows, new);
        assert forall|i: int| 0 <= i < new.len() implies 0 <= #[trigger] pos[i] < out.len() && out[pos[i]] == new[i] by {
            if i < init.len() {
                assert(pos[i] == positions[i]);
                assert(new[i] == init[i]);
            }
        }
    }
}

/// The state planned for a rope reads every byte set of its pattern (see
/// [`rope_arm_reads_pattern`]).
pub proof fn lemma_rope_plan_reads_pattern<'a, T>(
    body: ArmBody<'a, T>,
    a: BacktrackDistanceAnalysis,
    node_id: NodeId,
    rope: Rope,
    rows0: Seq<Seq<bool>>,
    rows1: Seq<Seq<bool>>,
)
    requires
        rope.wf(),
        rope_plan_ok(body, a, node_id, rope, rows0, rows1),
    ensures
        rope_arm_reads_pattern(body, node_id, rope, rows1),
{
    if is_fast_loop(node_id, rope) {
        if lone_member(rope.pattern@[0]) is Some {
            assert(rope.pattern@[0].wf());
            lemma_lone_member(rope.pattern@[0]);
        } else {
            let row = row_of(rope.pattern@[0]);
            lemma_insert_row(rows0, row);
            let k = insert_row(rows0, row).1;
            if rows1.len() <= usize::MAX {
                assert(8 * (k / 8) + k % 8 == k);
                assert(((k / 8) as usize) as int == k / 8);
                assert(((k % 8) as usize) as int == k % 8);
                assert(rows1[k] == row);
            }
        }
    } else {
        match pattern_bytes(rope.pattern@) {
            Some(bytes) => {
                lemma_pattern_bytes(rope.pattern@);
                assert forall|i: int, x: u8| 0 <= i < rope.pattern@.len() implies (#[trigger] rope.pattern@[i].has(x)
                    <==> x == bytes[i]) by {
                    assert(rope.pattern@[i].wf());
                    lemma_lone_member(rope.pattern@[i]);
                }
            },
            None => {
                let new = pattern_rows(rope.pattern@);
                lemma_insert_rows(rows0, new);
                let pos = insert_rows(rows0, new).1;
                if let ArmBody::RopeLookups { checks, .. } = body {
                    assert(pos.len() == new.len());
                    assert(new.len() == rope.pattern@.len());
                    if rows1.len() <= usize::MAX {
                    assert forall|i: int| 0 <= i < rope.pattern@.len() implies (#[trigger] checks@[i]).1 < 8 && row_at(
                        rows1,
                        checks@[i].0,
                        checks@[i].1,
                    ) == Some(row_of(rope.pattern@[i])) by {
                        let k = pos[i];
                        assert(0 <= k < rows1.len());
                        assert(checks@[i] == checks_of(pos)[i]);
                        assert(checks@[i] == ((k / 8) as usize, (k % 8) as usize));
                        assert(8 * (k / 8) + k % 8 == k);
                        assert(((k / 8) as usize) as int == k / 8);
                        assert(((k % 8) as usize) as int == k % 8);
                        assert(new[i] == row_of(rope.pattern@[i]));
                    }
                    }
                }
            },
        }
    }
}

/// `node`, with id `j`, is a rope of one byte set that goes back to itself.
pub open spec fn one_set_self_loop<'a, T: VariantMatch>(j: int, node: Node<'a, T>) -> bool {
    node matches Node::Rope(r) && r.pattern@.len() == 1 && r.target.0 == j
}

/// Some of the first `i` nodes is a rope of one byte set that goes back to
/// itself.
pub open spec fn has_one_set_self_loop<'a, T: VariantMatch>(nodes: Seq<Node<'a, T>>, i: int) -> bool {
    exists|j: int| 0 <= j < i && #[trigger] one_set_self_loop(j, nodes[j])
}

/// The plan uses a fast loop exactly when some node below `i` is a rope of
/// one byte set that goes back to itself.
pub proof fn lemma_any_fast_loop<'a, T: VariantMatch>(nodes: Seq<Node<'a, T>>, i: int)
    requires
        i <= nodes.len(),
        nodes.len() <= usize::MAX,
    ensures
        any_fast_loop(nodes, i) == has_one_set_self_loop(nodes, i),
    decreases i,
{
    if i > 0 {
        lemma_any_fast_loop(nodes, i - 1);
        if has_one_set_self_loop(nodes, i) && !has_one_set_self_loop(nodes, i - 1) {
            let j = choose|j: int| 0 <= j < i && #[trigger] one_set_self_loop(j, nodes[j]);
            assert(j == i - 1);
        }
        if node_fast_loop(NodeId((i - 1) as usize), nodes[i - 1]) {
            assert(one_set_self_loop(i - 1, nodes[i - 1]));
        }
    }
}

/// The state planned for `node`, with id `node_id`, follows the node: a
/// fork's state branches on the fork's own table (reading with `?` only at
/// the entry state), a rope's state reads its whole pattern (see
/// [`rope_arm_reads_pattern`]), and a variant match's state returns that
/// variant.
pub open spec fn arm_follows_node<'a, T: VariantMatch>(
    body: ArmBody<'a, T>,
    entrypoint: NodeId,
    node_id: NodeId,
    node: Node<'a, T>,
    rows: Seq<Seq<bool>>,
) -> bool {
    match node {
        Node::Fork(f) => body matches ArmBody::Fork { lookup_table, is_entrypoint, .. } && lookup_table@
            == f.lookup_table@ && is_entrypoint == (node_id == entrypoint),
        Node::Rope(r) => rope_arm_reads_pattern(body, node_id, r, rows),
        Node::VariantMatch(v) => body matches ArmBody::VariantMatch(w) && w == v,
    }
}

/// The state planned for each node follows the node (see
/// [`arm_follows_node`]).
pub proof fn lemma_arm_follows_node<'a, T: VariantMatch>(
    body: ArmBody<'a, T>,
    a: BacktrackDistanceAnalysis,
    entrypoint: NodeId,
    node_id: NodeId,
    node: Node<'a, T>,
    rows0: Seq<Seq<bool>>,
    rows1: Seq<Seq<bool>>,
)
    requires
        node.wf(),
        arm_plan_ok(body, a, entrypoint, node_id, node, rows0, rows1),
    ensures
        arm_follows_node(body, entrypoint, node_id, node, rows1),
{
    if let Node::Rope(r) = node {
        lemma_rope_plan_reads_pattern(body, a, node_id, r, rows0, rows1);
    }
}

} // verus!
