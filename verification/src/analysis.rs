//! How far the input has advanced, on each path of a built graph, between
//! the node that records a backtrack position and the nodes that fall back
//! to it.
use crate::graph::fork::Fork;
use crate::graph::node::Node;
use crate::graph::{copy_ids, Graph, NodeId};
use crate::trusted::{first_occurrences, unique_values};
use crate::variant_match::VariantMatch;
use vstd::prelude::*;

verus! {

/// The ids of the present entries of `table`, in order.
pub open spec fn present_ids(table: Seq<Option<NodeId>>) -> Seq<usize>
    decreases table.len(),
{
    if table.len() == 0 {
        Seq::empty()
    } else {
        let rest = present_ids(table.drop_last());
        match table.last() {
            Some(id) => rest.push(id.0),
            None => rest,
        }
    }
}

/// The nodes that `fork` branches to, each once, in the order of the first
/// byte that leads to it.
pub open spec fn fork_targets(fork: Fork) -> Seq<usize> {
    first_occurrences(present_ids(fork.lookup_table@))
}

/// Every element of `s` plus `k`.
pub open spec fn shift(s: Seq<int>, k: int) -> Seq<int> {
    s.map_values(|d: int| d + k)
}

/// The elements of `s` as integers.
pub open spec fn ints(s: Seq<usize>) -> Seq<int> {
    s.map_values(|d: usize| d as int)
}

/// The positions that are marked in `v`.
pub open spec fn seen(v: Seq<bool>) -> Set<int> {
    Set::new(|i: int| 0 <= i < v.len() && v[i])
}

/// The distances, in bytes read, from the node `id` to the nodes whose miss
/// is `target`, found by a depth-first walk that skips the nodes of
/// `visited` and goes at most `fuel` nodes deep; also the nodes seen once the
/// walk is done. A node whose miss is `target` is at distance 0 and is not
/// walked past. Otherwise its miss is walked first, then the nodes it reads
/// its way to: a fork's distinct targets one byte further, a rope's target
/// as many bytes further as its pattern is long.
pub open spec fn walk<'a, T: VariantMatch>(
    nodes: Seq<Node<'a, T>>,
    id: usize,
    target: NodeId,
    visited: Set<int>,
    fuel: nat,
) -> (Seq<int>, Set<int>)
    decreases fuel, 0nat, 0nat,
{
    if fuel == 0 || visited.contains(id as int) || id >= nodes.len() {
        (Seq::empty(), visited)
    } else {
        let seen_here = visited.insert(id as int);
        match nodes[id as int] {
            Node::Fork(f) => if f.miss == Some(target) {
                (seq![0int], seen_here)
            } else {
                let (from_miss, after_miss) = match f.miss {
                    Some(m) => walk(nodes, m.0, target, seen_here, (fuel - 1) as nat),
                    None => (Seq::empty(), seen_here),
                };
                let (from_targets, after) = walk_all(
                    nodes,
                    fork_targets(f),
                    target,
                    after_miss,
                    (fuel - 1) as nat,
                    1,
                );
                (from_targets + from_miss, after)
            },
            Node::Rope(r) => if r.miss == Some(target) {
                (seq![0int], seen_here)
            } else {
                let (from_miss, after_miss) = match r.miss {
                    Some(m) => walk(nodes, m.0, target, seen_here, (fuel - 1) as nat),
                    None => (Seq::empty(), seen_here),
                };
                let (from_target, after) = walk(
                    nodes,
                    r.target.0,
                    target,
                    after_miss,
                    (fuel - 1) as nat,
                );
                (shift(from_target, r.pattern@.len() as int) + from_miss, after)
            },
            Node::VariantMatch(_) => (Seq::empty(), seen_here),
        }
    }
}

/// [`walk`] from each of `ids` in turn, each walk skipping what the earlier
/// ones saw, with `add` added to every distance.
pub open spec fn walk_all<'a, T: VariantMatch>(
    nodes: Seq<Node<'a, T>>,
    ids: Seq<usize>,
    target: NodeId,
    visited: Set<int>,
    fuel: nat,
    add: int,
) -> (Seq<int>, Set<int>)
    decreases fuel, 1nat, ids.len(),
{
    if ids.len() == 0 {
        (Seq::empty(), visited)
    } else {
        let (first, after_first) = walk(nodes, ids[0], target, visited, fuel);
        let (rest, after) = walk_all(nodes, ids.drop_first(), target, after_first, fuel, add);
        (shift(first, add) + rest, after)
    }
}

/// The longest rope pattern among `nodes`, and at least 1.
pub open spec fn step_bound<'a, T: VariantMatch>(nodes: Seq<Node<'a, T>>) -> nat
    decreases nodes.len(),
{
    if nodes.len() == 0 {
        1
    } else {
        let rest = step_bound(nodes.drop_last());
        let here = match nodes.last() {
            Node::Rope(r) => r.pattern@.len(),
            _ => 1,
        };
        if here > rest {
            here
        } else {
            rest
        }
    }
}

proof fn lemma_step_bound<'a, T: VariantMatch>(nodes: Seq<Node<'a, T>>, i: int)
    requires
        0 <= i < nodes.len(),
    ensures
        step_bound(nodes) >= 1,
        nodes[i] matches Node::Rope(r) ==> r.pattern@.len() <= step_bound(nodes),
    decreases nodes.len(),
{
    if i < nodes.len() - 1 {
        lemma_step_bound(nodes.drop_last(), i);
    }
    lemma_step_bound_positive(nodes);
}

proof fn lemma_step_bound_positive<'a, T: VariantMatch>(nodes: Seq<Node<'a, T>>)
    ensures
        step_bound(nodes) >= 1,
    decreases nodes.len(),
{
    if nodes.len() > 0 {
        lemma_step_bound_positive(nodes.drop_last());
    }
}

/// Every distance that a walk with `fuel` finds is between 0 and `fuel`
/// times the longest step.
proof fn lemma_walk_bound<'a, T: VariantMatch>(
    nodes: Seq<Node<'a, T>>,
    id: usize,
    target: NodeId,
    visited: Set<int>,
    fuel: nat,
)
    ensures
        forall|k: int|
            0 <= k < walk(nodes, id, target, visited, fuel).0.len() ==> 0 <= #[trigger] walk(
                nodes,
                id,
                target,
                visited,
                fuel,
            ).0[k] <= fuel * step_bound(nodes),
    decreases fuel, 0nat, 0nat,
{
    let w = step_bound(nodes);
    lemma_step_bound_positive(nodes);
    if fuel == 0 || visited.contains(id as int) || id >= nodes.len() {
    } else {
        let seen_here = visited.insert(id as int);
        let f1 = (fuel - 1) as nat;
        assert(f1 * w + w == fuel * w) by (nonlinear_arith)
            requires
                f1 + 1 == fuel,
        ;
        assert(0 <= f1 * w) by (nonlinear_arith);
        lemma_step_bound(nodes, id as int);
        match nodes[id as int] {
            Node::Fork(f) => if f.miss != Some(target) {
                let (from_miss, after_miss) = match f.miss {
                    Some(m) => walk(nodes, m.0, target, seen_here, f1),
                    None => (Seq::empty(), seen_here),
                };
                if let Some(m) = f.miss {
                    lemma_walk_bound(nodes, m.0, target, seen_here, f1);
                }
                lemma_walk_all_bound(nodes, fork_targets(f), target, after_miss, f1, 1);
                let r = walk(nodes, id, target, visited, fuel).0;
                let t = walk_all(nodes, fork_targets(f), target, after_miss, f1, 1).0;
                assert forall|k: int| 0 <= k < r.len() implies 0 <= #[trigger] r[k] <= fuel * w by {
                    if k < t.len() {
                        assert(r[k] == t[k]);
                    } else {
                        assert(r[k] == from_miss[k - t.len()]);
                    }
                }
            },
            Node::Rope(rope) => if rope.miss != Some(target) {
                let (from_miss, after_miss) = match rope.miss {
                    Some(m) => walk(nodes, m.0, target, seen_here, f1),
                    None => (Seq::empty(), seen_here),
                };
                if let Some(m) = rope.miss {
                    lemma_walk_bound(nodes, m.0, target, seen_here, f1);
                }
                lemma_walk_bound(nodes, rope.target.0, target, after_miss, f1);
                let r = walk(nodes, id, target, visited, fuel).0;
                let t = walk(nodes, rope.target.0, target, after_miss, f1).0;
                let len = rope.pattern@.len() as int;
                assert forall|k: int| 0 <= k < r.len() implies 0 <= #[trigger] r[k] <= fuel * w by {
                    if k < t.len() {
                        assert(r[k] == t[k] + len);
                    } else {
                        assert(r[k] == from_miss[k - t.len()]);
                    }
                }
            },
            Node::VariantMatch(_) => {},
        }
    }
}

/// Every distance that [`walk_all`] finds is between `add` and `fuel` times
/// the longest step plus `add`.
proof fn lemma_walk_all_bound<'a, T: VariantMatch>(
    nodes: Seq<Node<'a, T>>,
    ids: Seq<usize>,
    target: NodeId,
    visited: Set<int>,
    fuel: nat,
    add: int,
)
    requires
        add >= 0,
    ensures
        forall|k: int|
            0 <= k < walk_all(nodes, ids, target, visited, fuel, add).0.len() ==> 0
                <= #[trigger] walk_all(nodes, ids, target, visited, fuel, add).0[k] <= fuel
                * step_bound(nodes) + add,
    decreases fuel, 1nat, ids.len(),
{
    if ids.len() > 0 {
        let (first, after_first) = walk(nodes, ids[0], target, visited, fuel);
        lemma_walk_bound(nodes, ids[0], target, visited, fuel);
        lemma_walk_all_bound(nodes, ids.drop_first(), target, after_first, fuel, add);
        let r = walk_all(nodes, ids, target, visited, fuel, add).0;
        let rest = walk_all(nodes, ids.drop_first(), target, after_first, fuel, add).0;
        assert forall|k: int| 0 <= k < r.len() implies 0 <= #[trigger] r[k] <= fuel * step_bound(
            nodes,
        ) + add by {
            if k < first.len() {
                assert(r[k] == first[k] + add);
            } else {
                assert(r[k] == rest[k - first.len()]);
            }
        }
    }
}

/// The ids of the present entries of `table`, in order.
fn present_table_ids(table: &Vec<Option<NodeId>>) -> (r: Vec<usize>)
    ensures
        r@ == present_ids(table@),
{
    let mut r: Vec<usize> = Vec::new();
    let mut i: usize = 0;
    while i < table.len()
        invariant
            i <= table@.len(),
            r@ == present_ids(table@.take(i as int)),
        decreases table@.len() - i,
    {
        assert(table@.take(i + 1).drop_last() =~= table@.take(i as int));
        match table[i] {
            Some(id) => r.push(id.0),
            None => {},
        }
        i = i + 1;
    }
    assert(table@.take(table@.len() as int) =~= table@);
    r
}

/// `v` with `k` added to every element.
fn shifted(v: Vec<usize>, k: usize) -> (r: Vec<usize>)
    requires
        forall|i: int| 0 <= i < v@.len() ==> v@[i] + k <= usize::MAX,
    ensures
        ints(r@) == shift(ints(v@), k as int),
{
    let mut r: Vec<usize> = Vec::new();
    let mut i: usize = 0;
    while i < v.len()
        invariant
            i <= v@.len(),
            forall|j: int| 0 <= j < v@.len() ==> v@[j] + k <= usize::MAX,
            r@.len() == i,
            forall|j: int| 0 <= j < i ==> r@[j] == v@[j] + k,
        decreases v@.len() - i,
    {
        r.push(v[i] + k);
        i = i + 1;
    }
    assert(ints(r@) =~= shift(ints(v@), k as int));
    r
}

/// No distance at all.
fn no_distances() -> (r: Vec<usize>)
    ensures
        ints(r@) == Seq::<int>::empty(),
{
    let r: Vec<usize> = Vec::new();
    assert(ints(r@) =~= Seq::<int>::empty());
    r
}

/// `x` followed by `y`.
fn concat(x: Vec<usize>, y: Vec<usize>) -> (r: Vec<usize>)
    ensures
        ints(r@) == ints(x@) + ints(y@),
{
    let mut r = x;
    let mut y = y;
    let ghost x0 = r@;
    let ghost y0 = y@;
    r.append(&mut y);
    assert(ints(r@) =~= ints(x0) + ints(y0));
    r
}

/// The walk of [`walk`], marking the nodes it sees in `visited`.
fn distances_to_miss<'a, T: VariantMatch>(
    graph: &Graph<'a, T>,
    id: usize,
    target: NodeId,
    visited: &mut Vec<bool>,
    fuel: usize,
) -> (r: Vec<usize>)
    requires
        graph.wf(),
        old(visited)@.len() == graph.nodes@.len(),
        fuel * step_bound(graph.nodes@) <= usize::MAX,
    ensures
        final(visited)@.len() == old(visited)@.len(),
        ints(r@) == walk(graph.nodes@, id, target, seen(old(visited)@), fuel as nat).0,
        seen(final(visited)@) == walk(graph.nodes@, id, target, seen(old(visited)@), fuel as nat).1,
    decreases fuel, 0nat,
{
    let ghost nodes = graph.nodes@;
    let ghost before = seen(visited@);
    if fuel == 0 || id >= graph.len() {
        return no_distances();
    }
    if visited[id] {
        assert(before.contains(id as int));
        return no_distances();
    }
    visited.set(id, true);
    assert(seen(visited@) =~= before.insert(id as int));
    let ghost w = step_bound(nodes);
    proof {
        lemma_step_bound(nodes, id as int);
        let f1 = (fuel - 1) as nat;
        assert(f1 * w + w == fuel * w) by (nonlinear_arith)
            requires
                f1 + 1 == fuel,
        ;
    }
    match graph.get(NodeId(id)) {
        Node::Fork(fork) => {
            let hit = match fork.miss {
                Some(m) => m.0 == target.0,
                None => false,
            };
            if hit {
                let mut r: Vec<usize> = Vec::new();
                r.push(0);
                assert(ints(r@) =~= seq![0int]);
                return r;
            }
            let from_miss = match fork.miss {
                Some(m) => distances_to_miss(graph, m.0, target, visited, fuel - 1),
                None => {
                    no_distances()
                },
            };
            let table_ids = present_table_ids(&fork.lookup_table);
            let targets = unique_values(&table_ids);
            let from_targets = distances_through(graph, &targets, target, visited, fuel - 1, 1);
            concat(from_targets, from_miss)
        },
        Node::Rope(rope) => {
            let hit = match rope.miss {
                Some(m) => m.0 == target.0,
                None => false,
            };
            if hit {
                let mut r: Vec<usize> = Vec::new();
                r.push(0);
                assert(ints(r@) =~= seq![0int]);
                return r;
            }
            let from_miss = match rope.miss {
                Some(m) => distances_to_miss(graph, m.0, target, visited, fuel - 1),
                None => {
                    no_distances()
                },
            };
            let ghost after_miss = seen(visited@);
            let from_target = distances_to_miss(graph, rope.target.0, target, visited, fuel - 1);
            let len = rope.pattern.len();
            proof {
                lemma_walk_bound(nodes, rope.target.0, target, after_miss, (fuel - 1) as nat);
                assert forall|i: int| 0 <= i < from_target@.len() implies from_target@[i] + len
                    <= usize::MAX by {
                    assert(ints(from_target@)[i] == from_target@[i] as int);
                }
            }
            concat(shifted(from_target, len), from_miss)
        },
        Node::VariantMatch(_) => {
            no_distances()
        },
    }
}

/// The walks of [`walk_all`], marking the nodes they see in `visited`.
fn distances_through<'a, T: VariantMatch>(
    graph: &Graph<'a, T>,
    ids: &Vec<usize>,
    target: NodeId,
    visited: &mut Vec<bool>,
    fuel: usize,
    add: usize,
) -> (r: Vec<usize>)
    requires
        graph.wf(),
        old(visited)@.len() == graph.nodes@.len(),
        fuel * step_bound(graph.nodes@) + add <= usize::MAX,
    ensures
        final(visited)@.len() == old(visited)@.len(),
        ints(r@) == walk_all(graph.nodes@, ids@, target, seen(old(visited)@), fuel as nat, add as int).0,
        seen(final(visited)@) == walk_all(
            graph.nodes@,
            ids@,
            target,
            seen(old(visited)@),
            fuel as nat,
            add as int,
        ).1,
    decreases fuel, 1nat,
{
    let ghost nodes = graph.nodes@;
    let ghost start = seen(visited@);
    let mut out: Vec<usize> = Vec::new();
    let mut i: usize = 0;
    assert(ids@.skip(0) =~= ids@);
    assert(ints(out@) + walk_all(nodes, ids@.skip(0), target, start, fuel as nat, add as int).0
        =~= walk_all(nodes, ids@, target, start, fuel as nat, add as int).0);
    while i < ids.len()
        invariant
            i <= ids@.len(),
            graph.wf(),
            nodes == graph.nodes@,
            visited@.len() == nodes.len(),
            fuel * step_bound(nodes) + add <= usize::MAX,
            ints(out@) + walk_all(nodes, ids@.skip(i as int), target, seen(visited@), fuel as nat, add as int).0
                == walk_all(nodes, ids@, target, start, fuel as nat, add as int).0,
            walk_all(nodes, ids@.skip(i as int), target, seen(visited@), fuel as nat, add as int).1
                == walk_all(nodes, ids@, target, start, fuel as nat, add as int).1,
        decreases ids@.len() - i,
    {
        let ghost cur = seen(visited@);
        let ghost rest = ids@.skip(i as int);
        assert(rest[0] == ids@[i as int]);
        assert(rest.drop_first() =~= ids@.skip(i + 1));
        let first = distances_to_miss(graph, ids[i], target, visited, fuel);
        proof {
            lemma_walk_bound(nodes, ids@[i as int], target, cur, fuel as nat);
            assert forall|j: int| 0 <= j < first@.len() implies first@[j] + add <= usize::MAX by {
                assert(ints(first@)[j] == first@[j] as int);
            }
        }
        let moved = shifted(first, add);
        let ghost old_out = out@;
        out = concat(out, moved);
        assert(ints(out@) + walk_all(nodes, ids@.skip(i + 1), target, seen(visited@), fuel as nat, add as int).0
            =~= ints(old_out) + walk_all(nodes, rest, target, cur, fuel as nat, add as int).0);
        i = i + 1;
    }
    assert(ids@.skip(ids@.len() as int) =~= Seq::<usize>::empty());
    assert(ints(out@) =~= ints(out@) + Seq::<int>::empty());
    out
}

/// The distances that node `i` finds to the nodes that fall back to the
/// position it records: a walk from it with every node unseen and as much
/// fuel as there are nodes, and one more.
pub open spec fn node_distances<'a, T: VariantMatch>(nodes: Seq<Node<'a, T>>, i: int) -> Seq<int> {
    match nodes[i].spec_record_miss_backtrack_idx() {
        Some(r) => walk(nodes, i as usize, r, Set::empty(), (nodes.len() + 1) as nat).0,
        None => Seq::empty(),
    }
}

/// The distances of the nodes below `upto` that record the position for
/// `r`, in id order.
pub open spec fn recorded_distances<'a, T: VariantMatch>(
    nodes: Seq<Node<'a, T>>,
    r: NodeId,
    upto: int,
) -> Seq<Seq<int>>
    decreases upto,
{
    if upto <= 0 {
        Seq::empty()
    } else {
        let rest = recorded_distances(nodes, r, upto - 1);
        if nodes[upto - 1].spec_record_miss_backtrack_idx() == Some(r) {
            rest.push(node_distances(nodes, upto - 1))
        } else {
            rest
        }
    }
}

/// `d` holds one distance, perhaps several times.
pub open spec fn single(d: Seq<int>) -> bool {
    d.len() > 0 && forall|k: int| 0 <= k < d.len() ==> #[trigger] d[k] == d[0]
}

/// What the analysis keeps for a position, given the distances of the nodes
/// that record it in order: nothing when there is none; the distance when
/// every one of them finds that one distance; otherwise all the distances.
pub open spec fn entry_of(lists: Seq<Seq<int>>) -> Option<Result<int, Set<int>>>
    decreases lists.len(),
{
    if lists.len() == 0 {
        None
    } else {
        let d = lists.last();
        match entry_of(lists.drop_last()) {
            None => if single(d) {
                Some(Ok(d[0]))
            } else {
                Some(Err(d.to_set()))
            },
            Some(Ok(e)) => if single(d) && d[0] == e {
                Some(Ok(e))
            } else {
                Some(Err(d.to_set().insert(e)))
            },
            Some(Err(s)) => Some(Err(s.union(d.to_set()))),
        }
    }
}

/// The entry as integers and sets.
pub open spec fn entry_view(o: Option<Result<usize, Vec<usize>>>) -> Option<Result<int, Set<int>>> {
    match o {
        None => None,
        Some(Ok(d)) => Some(Ok(d as int)),
        Some(Err(v)) => Some(Err(ints(v@).to_set())),
    }
}

/// A position has one distance exactly when some node records it and every
/// node that records it finds that one distance.
pub proof fn lemma_entry_of_static(lists: Seq<Seq<int>>, d: int)
    ensures
        entry_of(lists) == Some(Ok::<int, Set<int>>(d)) <==> (lists.len() > 0 && forall|k: int|
            0 <= k < lists.len() ==> single(#[trigger] lists[k]) && lists[k][0] == d),
    decreases lists.len(),
{
    if lists.len() > 0 {
        let init = lists.drop_last();
        lemma_entry_of_static(init, d);
        if entry_of(lists) == Some(Ok::<int, Set<int>>(d)) {
            assert forall|k: int| 0 <= k < lists.len() implies single(#[trigger] lists[k])
                && lists[k][0] == d by {
                if k < lists.len() - 1 {
                    assert(lists[k] == init[k]);
                }
            }
        }
        if forall|k: int| 0 <= k < lists.len() ==> single(#[trigger] lists[k]) && lists[k][0] == d {
            assert forall|k: int| 0 <= k < init.len() implies single(#[trigger] init[k])
                && init[k][0] == d by {
                assert(init[k] == lists[k]);
            }
            assert(single(lists[lists.len() - 1]));
        }
    }
}

/// For each node that records a backtrack position, the distances to the
/// nodes that fall back to it; kept per position.
pub struct BacktrackDistanceAnalysis {
    /// Per position: nothing, the one distance, or all the distances found.
    pub distances: Vec<Option<Result<usize, Vec<usize>>>>,
}

/// `s` holds one value; that value.
fn single_value(s: &Vec<usize>) -> (r: Option<usize>)
    ensures
        match r {
            Some(v) => single(ints(s@)) && ints(s@)[0] == v,
            None => !single(ints(s@)),
        },
{
    if s.len() == 0 {
        return None;
    }
    let first = s[0];
    let mut i: usize = 1;
    while i < s.len()
        invariant
            1 <= i <= s@.len(),
            first == s@[0],
            forall|k: int| 0 <= k < i ==> s@[k] == first,
        decreases s@.len() - i,
    {
        if s[i] != first {
            assert(ints(s@)[i as int] != ints(s@)[0]);
            return None;
        }
        i = i + 1;
    }
    assert forall|k: int| 0 <= k < ints(s@).len() implies #[trigger] ints(s@)[k] == ints(s@)[0] by {
        assert(s@[k] == first);
    }
    Some(first)
}

/// The elements of `x` and then those of `y`, as one set.
proof fn lemma_concat_to_set(x: Seq<int>, y: Seq<int>)
    ensures
        (x + y).to_set() == x.to_set().union(y.to_set()),
{
    assert forall|e: int| #[trigger] (x + y).to_set().contains(e) <==> x.to_set().union(
        y.to_set(),
    ).contains(e) by {
        let z = x + y;
        if z.contains(e) {
            let k = choose|k: int| 0 <= k < z.len() && z[k] == e;
            if k < x.len() {
                assert(x[k] == e);
            } else {
                assert(y[k - x.len()] == e);
            }
        }
        if x.contains(e) {
            let k = choose|k: int| 0 <= k < x.len() && x[k] == e;
            assert(z[k] == e);
        }
        if y.contains(e) {
            let k = choose|k: int| 0 <= k < y.len() && y[k] == e;
            assert(z[k + x.len()] == e);
        }
    }
    assert((x + y).to_set() =~= x.to_set().union(y.to_set()));
}

impl BacktrackDistanceAnalysis {
    /// The entry kept for the position of the node `r`.
    pub open spec fn entry(&self, r: int) -> Option<Result<int, Set<int>>> {
        if 0 <= r < self.distances@.len() {
            entry_view(self.distances@[r])
        } else {
            None
        }
    }

    /// Walks from every node of `graph` that records a backtrack position
    /// (see [`node_distances`]) and keeps, per position, what
    /// [`entry_of`] makes of the distances found.
    pub fn new<'a, T: VariantMatch>(graph: &Graph<'a, T>) -> (a: Self)
        requires
            graph.wf(),
            (graph.nodes@.len() + 1) * step_bound(graph.nodes@) <= usize::MAX,
        ensures
            a.distances@.len() == graph.nodes@.len(),
            forall|r: int|
                0 <= r < graph.nodes@.len() ==> #[trigger] a.entry(r) == entry_of(
                    recorded_distances(graph.nodes@, NodeId(r as usize), graph.nodes@.len() as int),
                ),
            forall|r: int|
                0 <= r < graph.nodes@.len() ==> entry_is_read(graph.nodes@, NodeId(r as usize), #[trigger] a.entry(r)),
    {
        let ghost nodes = graph.nodes@;
        let n = graph.len();
        proof {
            lemma_step_bound_positive(nodes);
            assert((n + 1) * 1 <= (n + 1) * step_bound(nodes)) by (nonlinear_arith)
                requires
                    step_bound(nodes) >= 1,
            ;
        }
        let mut distances: Vec<Option<Result<usize, Vec<usize>>>> = Vec::new();
        let mut j: usize = 0;
        while j < n
            invariant
                j <= n,
                distances@.len() == j,
                forall|r: int| 0 <= r < j ==> distances@[r] is None,
            decreases n - j,
        {
            distances.push(None);
            j = j + 1;
        }
        let mut i: usize = 0;
        while i < n
            invariant
                i <= n,
                n == nodes.len(),
                nodes == graph.nodes@,
                graph.wf(),
                (n + 1) * step_bound(nodes) <= usize::MAX,
                n + 1 <= usize::MAX,
                distances@.len() == n,
                forall|r: int|
                    0 <= r < n ==> #[trigger] entry_view(distances@[r]) == entry_of(
                        recorded_distances(nodes, NodeId(r as usize), i as int),
                    ),
            decreases n - i,
        {
            let record = graph.get(NodeId(i)).record_miss_backtrack_idx();
            match record {
                Some(r) => {
                    assert(graph.nodes@[i as int].ids_below(n as nat));
                    assert(r.0 < n);
                    let mut visited: Vec<bool> = Vec::new();
                    let mut k: usize = 0;
                    while k < n
                        invariant
                            k <= n,
                            visited@.len() == k,
                            forall|m: int| 0 <= m < k ==> !visited@[m],
                        decreases n - k,
                    {
                        visited.push(false);
                        k = k + 1;
                    }
                    assert(seen(visited@) =~= Set::<int>::empty());
                    let found = distances_to_miss(graph, i, r, &mut visited, n + 1);
                    let ghost d = ints(found@);
                    assert(d == node_distances(nodes, i as int));
                    let ghost lists = recorded_distances(nodes, r, i as int);
                    assert(recorded_distances(nodes, r, i + 1) == lists.push(d));
                    assert(lists.push(d).drop_last() =~= lists);
                    assert(lists.push(d).last() == d);
                    assert(NodeId(r.0 as usize) == r);
                    assert(entry_view(distances@[r.0 as int]) == entry_of(lists));
                    let updated = match &distances[r.0] {
                        None => match single_value(&found) {
                            Some(v) => Some(Ok(v)),
                            None => Some(Err(found)),
                        },
                        Some(Ok(e)) => {
                            let e = *e;
                            match single_value(&found) {
                                Some(v) if v == e => Some(Ok(e)),
                                _ => {
                                    let mut all = found;
                                    let ghost before = all@;
                                    all.push(e);
                                    assert(ints(all@) =~= ints(before).push(e as int));
                                    assert(ints(all@).to_set() =~= d.to_set().insert(e as int)) by {
                                        lemma_concat_to_set(d, seq![e as int]);
                                        assert(ints(all@) =~= d + seq![e as int]);
                                        assert(seq![e as int].to_set() =~= set![e as int]) by {
                                            assert forall|x: int| #[trigger] seq![e as int].to_set().contains(x) <==> x == e as int by {
                                                if x == e as int {
                                                    assert(seq![e as int][0] == x);
                                                }
                                            }
                                        }
                                    }
                                    Some(Err(all))
                                },
                            }
                        },
                        Some(Err(s)) => {
                            let kept = copy_ids(s);
                            let ghost kept_ints = ints(kept@);
                            let all = concat(kept, found);
                            proof {
                                lemma_concat_to_set(kept_ints, d);
                            }
                            Some(Err(all))
                        },
                    };
                    proof {
                        assert(entry_view(updated) == entry_of(lists.push(d)));
                    }
                    distances.set(r.0, updated);
                    assert forall|q: int| 0 <= q < n implies #[trigger] entry_view(distances@[q])
                        == entry_of(recorded_distances(nodes, NodeId(q as usize), i + 1)) by {
                        if q != r.0 as int {
                            assert(NodeId(q as usize) != r);
                        }
                    }
                },
                None => {
                    assert forall|q: int| 0 <= q < n implies #[trigger] entry_view(distances@[q])
                        == entry_of(recorded_distances(nodes, NodeId(q as usize), i + 1)) by {
                        assert(recorded_distances(nodes, NodeId(q as usize), i + 1)
                            == recorded_distances(nodes, NodeId(q as usize), i as int));
                    }
                },
            }
            i = i + 1;
        }
        let a = BacktrackDistanceAnalysis { distances };
        assert forall|r: int| 0 <= r < nodes.len() implies entry_is_read(nodes, NodeId(r as usize), #[trigger] a.entry(r)) by {
            lemma_entry_is_read(nodes, NodeId(r as usize));
        }
        a
    }

    /// The one distance kept for the position of `node_id`, if the analysis
    /// found one (see [`lemma_entry_of_static`]).
    pub fn static_distance_for_backtrack(&self, node_id: NodeId) -> (r: Option<usize>)
        ensures
            r == match self.entry(node_id.0 as int) {
                Some(Ok(d)) => Some(d as usize),
                _ => None,
            },
    {
        if node_id.0 < self.distances.len() {
            match &self.distances[node_id.0] {
                Some(Ok(d)) => Some(*d),
                _ => None,
            }
        } else {
            None
        }
    }
}

/// Whether `graph` is small enough for the analysis: its number of nodes,
/// plus one, times its longest step fits in `usize` (see
/// [`BacktrackDistanceAnalysis::new`]).
pub fn fits_analysis<'a, T: VariantMatch>(graph: &Graph<'a, T>) -> (r: bool)
    ensures
        r == ((graph.nodes@.len() + 1) * step_bound(graph.nodes@) <= usize::MAX),
{
    let ghost nodes = graph.nodes@;
    let n = graph.len();
    let mut w: usize = 1;
    let mut i: usize = 0;
    while i < n
        invariant
            i <= n,
            n == nodes.len(),
            nodes == graph.nodes@,
            w == step_bound(nodes.take(i as int)),
        decreases n - i,
    {
        assert(nodes.take(i + 1).drop_last() =~= nodes.take(i as int));
        assert(nodes.take(i + 1).last() == nodes[i as int]);
        let here = match graph.get(NodeId(i)) {
            Node::Rope(rope) => rope.pattern.len(),
            _ => 1,
        };
        if here > w {
            w = here;
        }
        i = i + 1;
    }
    assert(nodes.take(n as int) =~= nodes);
    match n.checked_add(1) {
        Some(count) => count.checked_mul(w).is_some(),
        None => {
            proof {
                lemma_step_bound_positive(nodes);
                assert((nodes.len() + 1) * step_bound(nodes) >= nodes.len() + 1) by (nonlinear_arith)
                    requires
                        step_bound(nodes) >= 1,
                ;
            }
            false
        },
    }
}

/// `v` is a finite set of node ids below `n`.
pub open spec fn within(v: Set<int>, n: nat) -> bool {
    &&& v.finite()
    &&& forall|i: int| #[trigger] v.contains(i) ==> 0 <= i < n
}

/// A walk only adds node ids to what it was given as seen.
proof fn lemma_walk_seen<'a, T: VariantMatch>(
    nodes: Seq<Node<'a, T>>,
    id: usize,
    target: NodeId,
    visited: Set<int>,
    fuel: nat,
)
    requires
        within(visited, nodes.len()),
    ensures
        within(walk(nodes, id, target, visited, fuel).1, nodes.len()),
        visited.subset_of(walk(nodes, id, target, visited, fuel).1),
    decreases fuel, 0nat, 0nat,
{
    if fuel == 0 || visited.contains(id as int) || id >= nodes.len() {
    } else {
        let seen_here = visited.insert(id as int);
        let f1 = (fuel - 1) as nat;
        let after_miss = match nodes[id as int] {
            Node::Fork(f) => match f.miss {
                Some(m) => walk(nodes, m.0, target, seen_here, f1).1,
                None => seen_here,
            },
            Node::Rope(r) => match r.miss {
                Some(m) => walk(nodes, m.0, target, seen_here, f1).1,
                None => seen_here,
            },
            Node::VariantMatch(_) => seen_here,
        };
        match nodes[id as int] {
            Node::Fork(f) => if f.miss != Some(target) {
                if let Some(m) = f.miss {
                    lemma_walk_seen(nodes, m.0, target, seen_here, f1);
                }
                lemma_walk_all_seen(nodes, fork_targets(f), target, after_miss, f1, 1);
            },
            Node::Rope(r) => if r.miss != Some(target) {
                if let Some(m) = r.miss {
                    lemma_walk_seen(nodes, m.0, target, seen_here, f1);
                }
                lemma_walk_seen(nodes, r.target.0, target, after_miss, f1);
            },
            Node::VariantMatch(_) => {},
        }
    }
}

/// The walks of [`walk_all`] only add node ids to what they were given.
proof fn lemma_walk_all_seen<'a, T: VariantMatch>(
    nodes: Seq<Node<'a, T>>,
    ids: Seq<usize>,
    target: NodeId,
    visited: Set<int>,
    fuel: nat,
    add: int,
)
    requires
        within(visited, nodes.len()),
    ensures
        within(walk_all(nodes, ids, target, visited, fuel, add).1, nodes.len()),
        visited.subset_of(walk_all(nodes, ids, target, visited, fuel, add).1),
    decreases fuel, 1nat, ids.len(),
{
    if ids.len() > 0 {
        let after_first = walk(nodes, ids[0], target, visited, fuel).1;
        lemma_walk_seen(nodes, ids[0], target, visited, fuel);
        lemma_walk_all_seen(nodes, ids.drop_first(), target, after_first, fuel, add);
    }
}

/// A walk gives the same result with any fuel beyond the number of node ids
/// not seen yet: each level of the walk sees one more node, so the fuel
/// never runs out.
pub proof fn lemma_walk_fuel<'a, T: VariantMatch>(
    nodes: Seq<Node<'a, T>>,
    id: usize,
    target: NodeId,
    visited: Set<int>,
    fuel: nat,
    more: nat,
)
    requires
        within(visited, nodes.len()),
        fuel > nodes.len() - visited.len(),
        more >= fuel,
    ensures
        walk(nodes, id, target, visited, fuel) == walk(nodes, id, target, visited, more),
    decreases fuel, 0nat, 0nat,
{
    let n = nodes.len();
    lemma_len_subset_range(visited, n);
    if visited.contains(id as int) || id >= n {
    } else {
        let seen_here = visited.insert(id as int);
        assert(within(seen_here, n));
        assert(seen_here.len() == visited.len() + 1);
        let f1 = (fuel - 1) as nat;
        let m1 = (more - 1) as nat;
        match nodes[id as int] {
            Node::Fork(f) => if f.miss != Some(target) {
                let after_miss = match f.miss {
                    Some(m) => walk(nodes, m.0, target, seen_here, f1).1,
                    None => seen_here,
                };
                if let Some(m) = f.miss {
                    lemma_walk_fuel(nodes, m.0, target, seen_here, f1, m1);
                    lemma_walk_seen(nodes, m.0, target, seen_here, f1);
                }
                lemma_len_subset_range(after_miss, n);
                vstd::set_lib::lemma_len_subset(seen_here, after_miss);
                lemma_walk_all_fuel(nodes, fork_targets(f), target, after_miss, f1, m1, 1);
            },
            Node::Rope(r) => if r.miss != Some(target) {
                let after_miss = match r.miss {
                    Some(m) => walk(nodes, m.0, target, seen_here, f1).1,
                    None => seen_here,
                };
                if let Some(m) = r.miss {
                    lemma_walk_fuel(nodes, m.0, target, seen_here, f1, m1);
                    lemma_walk_seen(nodes, m.0, target, seen_here, f1);
                }
                lemma_len_subset_range(after_miss, n);
                vstd::set_lib::lemma_len_subset(seen_here, after_miss);
                lemma_walk_fuel(nodes, r.target.0, target, after_miss, f1, m1);
            },
            Node::VariantMatch(_) => {},
        }
    }
}

/// [`lemma_walk_fuel`] for the walks of [`walk_all`].
pub proof fn lemma_walk_all_fuel<'a, T: VariantMatch>(
    nodes: Seq<Node<'a, T>>,
    ids: Seq<usize>,
    target: NodeId,
    visited: Set<int>,
    fuel: nat,
    more: nat,
    add: int,
)
    requires
        within(visited, nodes.len()),
        fuel > nodes.len() - visited.len(),
        more >= fuel,
    ensures
        walk_all(nodes, ids, target, visited, fuel, add) == walk_all(
            nodes,
            ids,
            target,
            visited,
            more,
            add,
        ),
    decreases fuel, 1nat, ids.len(),
{
    if ids.len() > 0 {
        let n = nodes.len();
        lemma_walk_fuel(nodes, ids[0], target, visited, fuel, more);
        lemma_walk_seen(nodes, ids[0], target, visited, fuel);
        let after_first = walk(nodes, ids[0], target, visited, fuel).1;
        lemma_len_subset_range(after_first, n);
        vstd::set_lib::lemma_len_subset(visited, after_first);
        lemma_walk_all_fuel(nodes, ids.drop_first(), target, after_first, fuel, more, add);
    }
}

/// A finite set of ids below `n` has at most `n` elements.
proof fn lemma_len_subset_range(v: Set<int>, n: nat)
    requires
        within(v, n),
    ensures
        v.len() <= n,
{
    let range = Set::new(|i: int| 0 <= i < n);
    assert(range =~= vstd::set_lib::set_int_range(0, n as int));
    vstd::set_lib::lemma_int_range(0, n as int);
    vstd::set_lib::lemma_len_subset(v, range);
}

/// The walk from each node that the analysis makes, with one more unit of
/// fuel than there are nodes, is the complete depth-first walk: no amount of
/// further fuel changes what it finds.
pub proof fn lemma_analysis_walk_complete<'a, T: VariantMatch>(
    nodes: Seq<Node<'a, T>>,
    id: usize,
    target: NodeId,
    more: nat,
)
    requires
        more >= nodes.len() + 1,
    ensures
        walk(nodes, id, target, Set::empty(), (nodes.len() + 1) as nat) == walk(
            nodes,
            id,
            target,
            Set::empty(),
            more,
        ),
{
    assert(within(Set::<int>::empty(), nodes.len()));
    lemma_walk_fuel(nodes, id, target, Set::empty(), (nodes.len() + 1) as nat, more);
}

/// A path through `nodes` from `id` that reads `d` bytes and ends at a node
/// that misses to `target`, in at most `steps` moves: a fork moves on one
/// byte to a node of its table, a rope reads every byte set of its pattern
/// and moves to its target, and following a miss reads nothing.
pub open spec fn reads_to_miss<'a, T: VariantMatch>(
    nodes: Seq<Node<'a, T>>,
    id: int,
    target: NodeId,
    d: int,
    steps: nat,
) -> bool
    decreases steps,
{
    &&& 0 <= id < nodes.len()
    &&& {
        ||| nodes[id].spec_miss() == Some(target) && d == 0
        ||| steps > 0 && match nodes[id] {
            Node::Fork(f) => (exists|b: int|
                0 <= b < f.lookup_table@.len() && #[trigger] f.lookup_table@[b] is Some && reads_to_miss(
                    nodes,
                    (f.lookup_table@[b]->0).0 as int,
                    target,
                    d - 1,
                    (steps - 1) as nat,
                )) || (f.miss is Some && reads_to_miss(nodes, (f.miss->0).0 as int, target, d, (steps - 1) as nat)),
            Node::Rope(r) => reads_to_miss(nodes, r.target.0 as int, target, d - r.pattern@.len(), (steps - 1) as nat)
                || (r.miss is Some && reads_to_miss(nodes, (r.miss->0).0 as int, target, d, (steps - 1) as nat)),
            Node::VariantMatch(_) => false,
        }
    }
}

/// An id that [`present_ids`] lists is the target of some byte.
proof fn lemma_present_ids_member(table: Seq<Option<NodeId>>, j: int)
    requires
        0 <= j < present_ids(table).len(),
    ensures
        exists|b: int| 0 <= b < table.len() && #[trigger] table[b] is Some && (table[b]->0).0 == present_ids(table)[j],
    decreases table.len(),
{
    let rest = present_ids(table.drop_last());
    if j < rest.len() {
        lemma_present_ids_member(table.drop_last(), j);
        let b = choose|b: int|
            0 <= b < table.drop_last().len() && #[trigger] table.drop_last()[b] is Some && (table.drop_last()[b]->0).0
                == rest[j];
        assert(table[b] == table.drop_last()[b]);
    } else {
        assert(table[table.len() - 1] is Some);
    }
}

/// Each node that a fork walks to is the target of some byte of its table.
proof fn lemma_fork_target_member(f: Fork, j: int)
    requires
        0 <= j < fork_targets(f).len(),
    ensures
        exists|b: int|
            0 <= b < f.lookup_table@.len() && #[trigger] f.lookup_table@[b] is Some && (f.lookup_table@[b]->0).0
                == fork_targets(f)[j],
{
    let ids = present_ids(f.lookup_table@);
    crate::trusted::lemma_first_occurrences(ids);
    let x = fork_targets(f)[j];
    assert(fork_targets(f).to_set().contains(x));
    assert(ids.to_set().contains(x));
    let w = choose|w: int| 0 <= w < ids.len() && ids[w] == x;
    lemma_present_ids_member(f.lookup_table@, w);
}

/// Every distance that a walk finds is read by a path from where it starts.
proof fn lemma_walk_reads<'a, T: VariantMatch>(
    nodes: Seq<Node<'a, T>>,
    id: usize,
    target: NodeId,
    visited: Set<int>,
    fuel: nat,
)
    ensures
        forall|k: int|
            0 <= k < walk(nodes, id, target, visited, fuel).0.len() ==> reads_to_miss(
                nodes,
                id as int,
                target,
                #[trigger] walk(nodes, id, target, visited, fuel).0[k],
                fuel,
            ),
    decreases fuel, 0nat, 0nat,
{
    if fuel == 0 || visited.contains(id as int) || id >= nodes.len() {
    } else {
        let seen_here = visited.insert(id as int);
        let f1 = (fuel - 1) as nat;
        let r = walk(nodes, id, target, visited, fuel).0;
        match nodes[id as int] {
            Node::Fork(f) => if f.miss != Some(target) {
                let (from_miss, after_miss) = match f.miss {
                    Some(m) => walk(nodes, m.0, target, seen_here, f1),
                    None => (Seq::empty(), seen_here),
                };
                if let Some(m) = f.miss {
                    lemma_walk_reads(nodes, m.0, target, seen_here, f1);
                }
                lemma_walk_all_reads(nodes, fork_targets(f), target, after_miss, f1, 1);
                let t = walk_all(nodes, fork_targets(f), target, after_miss, f1, 1).0;
                assert forall|k: int| 0 <= k < r.len() implies reads_to_miss(nodes, id as int, target, #[trigger] r[k], fuel) by {
                    if k < t.len() {
                        assert(r[k] == t[k]);
                        let j = choose|j: int|
                            0 <= j < fork_targets(f).len() && reads_to_miss(
                                nodes,
                                fork_targets(f)[j] as int,
                                target,
                                t[k] - 1,
                                f1,
                            );
                        lemma_fork_target_member(f, j);
                        let b = choose|b: int|
                            0 <= b < f.lookup_table@.len() && #[trigger] f.lookup_table@[b] is Some
                                && (f.lookup_table@[b]->0).0 == fork_targets(f)[j];
                        assert(f.lookup_table@[b] is Some);
                    } else {
                        assert(r[k] == from_miss[k - t.len()]);
                    }
                }
            },
            Node::Rope(rope) => if rope.miss != Some(target) {
                let (from_miss, after_miss) = match rope.miss {
                    Some(m) => walk(nodes, m.0, target, seen_here, f1),
                    None => (Seq::empty(), seen_here),
                };
                if let Some(m) = rope.miss {
                    lemma_walk_reads(nodes, m.0, target, seen_here, f1);
                }
                lemma_walk_reads(nodes, rope.target.0, target, after_miss, f1);
                let t = walk(nodes, rope.target.0, target, after_miss, f1).0;
                assert forall|k: int| 0 <= k < r.len() implies reads_to_miss(nodes, id as int, target, #[trigger] r[k], fuel) by {
                    if k < t.len() {
                        assert(r[k] == t[k] + rope.pattern@.len());
                        assert(reads_to_miss(nodes, rope.target.0 as int, target, t[k], f1));
                    } else {
                        assert(r[k] == from_miss[k - t.len()]);
                    }
                }
            },
            Node::VariantMatch(_) => {},
        }
    }
}

/// Every distance that [`walk_all`] finds, less `add`, is read by a path
/// from one of `ids`.
proof fn lemma_walk_all_reads<'a, T: VariantMatch>(
    nodes: Seq<Node<'a, T>>,
    ids: Seq<usize>,
    target: NodeId,
    visited: Set<int>,
    fuel: nat,
    add: int,
)
    ensures
        forall|k: int|
            0 <= k < walk_all(nodes, ids, target, visited, fuel, add).0.len() ==> exists|j: int|
                0 <= j < ids.len() && reads_to_miss(
                    nodes,
                    ids[j] as int,
                    target,
                    #[trigger] walk_all(nodes, ids, target, visited, fuel, add).0[k] - add,
                    fuel,
                ),
    decreases fuel, 1nat, ids.len(),
{
    if ids.len() > 0 {
        let (first, after_first) = walk(nodes, ids[0], target, visited, fuel);
        lemma_walk_reads(nodes, ids[0], target, visited, fuel);
        lemma_walk_all_reads(nodes, ids.drop_first(), target, after_first, fuel, add);
        let r = walk_all(nodes, ids, target, visited, fuel, add).0;
        let rest = walk_all(nodes, ids.drop_first(), target, after_first, fuel, add).0;
        assert forall|k: int| 0 <= k < r.len() implies exists|j: int|
            0 <= j < ids.len() && reads_to_miss(nodes, ids[j] as int, target, #[trigger] r[k] - add, fuel) by {
            if k < first.len() {
                assert(r[k] == first[k] + add);
                assert(reads_to_miss(nodes, ids[0] as int, target, first[k], fuel));
            } else {
                assert(r[k] == rest[k - first.len()]);
                let j = choose|j: int|
                    0 <= j < ids.drop_first().len() && reads_to_miss(
                        nodes,
                        ids.drop_first()[j] as int,
                        target,
                        rest[k - first.len()] - add,
                        fuel,
                    );
                assert(ids.drop_first()[j] == ids[j + 1]);
            }
        }
    }
}

/// `entry` keeps the distance `d`: as its one distance or among its
/// distances.
pub open spec fn entry_has(entry: Option<Result<int, Set<int>>>, d: int) -> bool {
    match entry {
        Some(Ok(e)) => e == d,
        Some(Err(s)) => s.contains(d),
        None => false,
    }
}

/// Each distance that `entry` keeps for the position of `r` is the number of
/// bytes read on a path (see [`reads_to_miss`]) from a node that records
/// that position to a node that falls back to it.
pub open spec fn entry_is_read<'a, T: VariantMatch>(
    nodes: Seq<Node<'a, T>>,
    r: NodeId,
    entry: Option<Result<int, Set<int>>>,
) -> bool {
    forall|d: int|
        #[trigger] entry_has(entry, d) ==> exists|i: int|
            0 <= i < nodes.len() && nodes[i].spec_record_miss_backtrack_idx() == Some(r) && reads_to_miss(
                nodes,
                i,
                r,
                d,
                (nodes.len() + 1) as nat,
            )
}

/// `d` is one of the distances of `lists`.
pub open spec fn listed(lists: Seq<Seq<int>>, d: int) -> bool {
    exists|k: int, j: int| 0 <= k < lists.len() && 0 <= j < lists[k].len() && #[trigger] lists[k][j] == d
}

/// What [`entry_of`] keeps is listed.
proof fn lemma_entry_of_listed(lists: Seq<Seq<int>>, d: int)
    requires
        entry_has(entry_of(lists), d),
    ensures
        listed(lists, d),
    decreases lists.len(),
{
    let init = lists.drop_last();
    let last = lists.last();
    let n = lists.len() - 1;
    assert(lists[n] == last);
    if last.to_set().contains(d) {
        let j = choose|j: int| 0 <= j < last.len() && last[j] == d;
        assert(lists[n][j] == d);
    } else if single(last) && last[0] == d {
        assert(lists[n][0] == d);
    } else {
        match entry_of(init) {
            Some(Ok(e)) => {
                assert(e == d);
                lemma_entry_of_listed(init, d);
            },
            Some(Err(s)) => {
                assert(s.contains(d));
                lemma_entry_of_listed(init, d);
            },
            None => {},
        }
        let (k, j) = choose|k: int, j: int| 0 <= k < init.len() && 0 <= j < init[k].len() && #[trigger] init[k][j] == d;
        assert(lists[k] == init[k]);
        assert(lists[k][j] == d);
    }
}

/// A listed distance of [`recorded_distances`] is one that a node recording
/// the position finds.
proof fn lemma_recorded_listed<'a, T: VariantMatch>(nodes: Seq<Node<'a, T>>, r: NodeId, upto: int, d: int)
    requires
        upto <= nodes.len(),
        listed(recorded_distances(nodes, r, upto), d),
    ensures
        exists|i: int|
            0 <= i < upto && nodes[i].spec_record_miss_backtrack_idx() == Some(r) && #[trigger] node_distances(
                nodes,
                i,
            ).contains(d),
    decreases upto,
{
    let lists = recorded_distances(nodes, r, upto);
    let (k, j) = choose|k: int, j: int| 0 <= k < lists.len() && 0 <= j < lists[k].len() && #[trigger] lists[k][j] == d;
    if upto > 0 {
        let rest = recorded_distances(nodes, r, upto - 1);
        if nodes[upto - 1].spec_record_miss_backtrack_idx() == Some(r) && k == rest.len() {
            assert(lists[k] == node_distances(nodes, upto - 1));
            assert(node_distances(nodes, upto - 1)[j] == d);
            assert(node_distances(nodes, upto - 1).contains(d));
        } else {
            assert(lists[k] == rest[k]);
            assert(rest[k][j] == d);
            assert(listed(rest, d));
            lemma_recorded_listed(nodes, r, upto - 1, d);
        }
    }
}

/// Every distance that the analysis keeps for a position is the number of
/// bytes read between a node that records the position and a node that
/// falls back to it, on some path of the graph: a fork reads one byte, a
/// rope reads its whole pattern, and a miss reads nothing.
pub proof fn lemma_entry_is_read<'a, T: VariantMatch>(nodes: Seq<Node<'a, T>>, r: NodeId)
    requires
        nodes.len() <= usize::MAX,
    ensures
        entry_is_read(nodes, r, entry_of(recorded_distances(nodes, r, nodes.len() as int))),
{
    let lists = recorded_distances(nodes, r, nodes.len() as int);
    assert forall|d: int| #[trigger] entry_has(entry_of(lists), d) implies exists|i: int|
        0 <= i < nodes.len() && nodes[i].spec_record_miss_backtrack_idx() == Some(r) && reads_to_miss(
            nodes,
            i,
            r,
            d,
            (nodes.len() + 1) as nat,
        ) by {
        lemma_entry_of_listed(lists, d);
        lemma_recorded_listed(nodes, r, nodes.len() as int, d);
        let i = choose|i: int|
            0 <= i < nodes.len() && nodes[i].spec_record_miss_backtrack_idx() == Some(r) && #[trigger] node_distances(
                nodes,
                i,
            ).contains(d);
        let w = walk(nodes, i as usize, r, Set::empty(), (nodes.len() + 1) as nat).0;
        assert(node_distances(nodes, i) == w);
        let j = choose|j: int| 0 <= j < w.len() && w[j] == d;
        lemma_walk_reads(nodes, i as usize, r, Set::empty(), (nodes.len() + 1) as nat);
        assert(i as usize as int == i);
        assert(reads_to_miss(nodes, i as usize as int, r, w[j], (nodes.len() + 1) as nat));
    }
}

/// A node that records the position it falls back to, and falls back at
/// once (its own miss is that position), finds the one distance 0: nothing
/// is read between recording and falling back.
pub proof fn lemma_recording_miss_is_zero<'a, T: VariantMatch>(nodes: Seq<Node<'a, T>>, i: int)
    requires
        0 <= i < nodes.len() <= usize::MAX,
        nodes[i].spec_record_miss_backtrack_idx() is Some,
        nodes[i].spec_miss() == nodes[i].spec_record_miss_backtrack_idx(),
    ensures
        node_distances(nodes, i) == seq![0int],
{
    assert(i as usize as int == i);
}

/// Every node that `x` moves to (see [`reads_to_miss`]) is in `s`.
pub open spec fn moves_within<'a, T: VariantMatch>(nodes: Seq<Node<'a, T>>, x: int, s: Set<int>) -> bool {
    match nodes[x] {
        Node::Fork(f) => {
            &&& forall|b: int|
                0 <= b < f.lookup_table@.len() && #[trigger] f.lookup_table@[b] is Some ==> s.contains(
                    (f.lookup_table@[b]->0).0 as int,
                )
            &&& f.miss is Some ==> s.contains((f.miss->0).0 as int)
        },
        Node::Rope(r) => {
            &&& s.contains(r.target.0 as int)
            &&& r.miss is Some ==> s.contains((r.miss->0).0 as int)
        },
        Node::VariantMatch(_) => true,
    }
}

/// The nodes that a walk adds to `before`, ending with `after`, neither miss
/// to `target` nor move outside `after`.
pub open spec fn closed_walk<'a, T: VariantMatch>(
    nodes: Seq<Node<'a, T>>,
    target: NodeId,
    before: Set<int>,
    after: Set<int>,
) -> bool {
    &&& before.subset_of(after)
    &&& forall|x: int|
        #[trigger] after.contains(x) && !before.contains(x) ==> 0 <= x < nodes.len() && nodes[x].spec_miss()
            != Some(target) && moves_within(nodes, x, after)
}

/// Every id that a node holds is below the number of nodes.
pub open spec fn ids_within<'a, T: VariantMatch>(nodes: Seq<Node<'a, T>>) -> bool {
    forall|x: int| 0 <= x < nodes.len() ==> (#[trigger] nodes[x]).ids_below(nodes.len())
}

/// A byte of the table that goes somewhere goes to one of the fork's
/// targets.
proof fn lemma_table_entry_is_target(f: Fork, b: int)
    requires
        0 <= b < f.lookup_table@.len(),
        f.lookup_table@[b] is Some,
    ensures
        fork_targets(f).contains((f.lookup_table@[b]->0).0),
{
    let ids = present_ids(f.lookup_table@);
    lemma_present_ids_has(f.lookup_table@, b);
    crate::trusted::lemma_first_occurrences(ids);
    assert(ids.to_set().contains((f.lookup_table@[b]->0).0));
    assert(fork_targets(f).to_set().contains((f.lookup_table@[b]->0).0));
}

/// [`present_ids`] lists the target of every byte that goes somewhere.
proof fn lemma_present_ids_has(table: Seq<Option<NodeId>>, b: int)
    requires
        0 <= b < table.len(),
        table[b] is Some,
    ensures
        present_ids(table).contains((table[b]->0).0),
    decreases table.len(),
{
    let rest = present_ids(table.drop_last());
    if b < table.len() - 1 {
        lemma_present_ids_has(table.drop_last(), b);
        assert(table.drop_last()[b] == table[b]);
        let w = choose|w: int| 0 <= w < rest.len() && rest[w] == (table[b]->0).0;
        assert(present_ids(table)[w] == rest[w]);
    } else {
        assert(present_ids(table)[rest.len() as int] == (table[b]->0).0);
    }
}

/// A walk with enough fuel that finds no distance sees `id` and closes what
/// it sees (see [`closed_walk`]).
proof fn lemma_walk_empty_closed<'a, T: VariantMatch>(
    nodes: Seq<Node<'a, T>>,
    id: usize,
    target: NodeId,
    visited: Set<int>,
    fuel: nat,
)
    requires
        ids_within(nodes),
        within(visited, nodes.len()),
        fuel > nodes.len() - visited.len(),
        id < nodes.len(),
    ensures
        walk(nodes, id, target, visited, fuel).0.len() == 0 ==> closed_walk(
            nodes,
            target,
            visited,
            walk(nodes, id, target, visited, fuel).1,
        ) && walk(nodes, id, target, visited, fuel).1.contains(id as int),
    decreases fuel, 0nat, 0nat,
{
    let n = nodes.len();
    lemma_len_subset_range(visited, n);
    if visited.contains(id as int) {
    } else {
        let seen_here = visited.insert(id as int);
        assert(within(seen_here, n));
        assert(seen_here.len() == visited.len() + 1);
        let f1 = (fuel - 1) as nat;
        let (ds, after) = walk(nodes, id, target, visited, fuel);
        assert(nodes[id as int].ids_below(n));
        match nodes[id as int] {
            Node::Fork(f) => if f.miss != Some(target) {
                let (from_miss, after_miss) = match f.miss {
                    Some(m) => walk(nodes, m.0, target, seen_here, f1),
                    None => (Seq::empty(), seen_here),
                };
                if let Some(m) = f.miss {
                    lemma_walk_empty_closed(nodes, m.0, target, seen_here, f1);
                    lemma_walk_seen(nodes, m.0, target, seen_here, f1);
                }
                lemma_len_subset_range(after_miss, n);
                vstd::set_lib::lemma_len_subset(seen_here, after_miss);
                assert forall|j: int| 0 <= j < fork_targets(f).len() implies fork_targets(f)[j] < n by {
                    lemma_fork_target_member(f, j);
                }
                lemma_walk_all_empty_closed(nodes, fork_targets(f), target, after_miss, f1);
                let (from_targets, _) = walk_all(nodes, fork_targets(f), target, after_miss, f1, 1);
                if ds.len() == 0 {
                    assert(from_targets.len() == 0 && from_miss.len() == 0) by {
                        assert(ds == from_targets + from_miss);
                    }
                    assert(moves_within(nodes, id as int, after)) by {
                        assert forall|b: int|
                            0 <= b < f.lookup_table@.len() && #[trigger] f.lookup_table@[b] is Some implies after.contains(
                                (f.lookup_table@[b]->0).0 as int,
                            ) by {
                            lemma_table_entry_is_target(f, b);
                            let j = choose|j: int|
                                0 <= j < fork_targets(f).len() && fork_targets(f)[j] == (f.lookup_table@[b]->0).0;
                        }
                    }
                }
            },
            Node::Rope(r) => if r.miss != Some(target) {
                let (from_miss, after_miss) = match r.miss {
                    Some(m) => walk(nodes, m.0, target, seen_here, f1),
                    None => (Seq::empty(), seen_here),
                };
                if let Some(m) = r.miss {
                    lemma_walk_empty_closed(nodes, m.0, target, seen_here, f1);
                    lemma_walk_seen(nodes, m.0, target, seen_here, f1);
                }
                lemma_len_subset_range(after_miss, n);
                vstd::set_lib::lemma_len_subset(seen_here, after_miss);
                lemma_walk_empty_closed(nodes, r.target.0, target, after_miss, f1);
                lemma_walk_seen(nodes, r.target.0, target, after_miss, f1);
                let (from_target, _) = walk(nodes, r.target.0, target, after_miss, f1);
                if ds.len() == 0 {
                    assert(from_target.len() == 0 && from_miss.len() == 0) by {
                        assert(ds == shift(from_target, r.pattern@.len() as int) + from_miss);
                    }
                }
            },
            Node::VariantMatch(_) => {},
        }
    }
}

/// [`lemma_walk_empty_closed`] for the walks of [`walk_all`]: when they find
/// nothing, they see every one of `ids`.
proof fn lemma_walk_all_empty_closed<'a, T: VariantMatch>(
    nodes: Seq<Node<'a, T>>,
    ids: Seq<usize>,
    target: NodeId,
    visited: Set<int>,
    fuel: nat,
)
    requires
        ids_within(nodes),
        within(visited, nodes.len()),
        fuel > nodes.len() - visited.len(),
        forall|j: int| 0 <= j < ids.len() ==> ids[j] < nodes.len(),
    ensures
        walk_all(nodes, ids, target, visited, fuel, 1).0.len() == 0 ==> closed_walk(
            nodes,
            target,
            visited,
            walk_all(nodes, ids, target, visited, fuel, 1).1,
        ) && forall|j: int|
            0 <= j < ids.len() ==> walk_all(nodes, ids, target, visited, fuel, 1).1.contains(#[trigger] ids[j] as int),
    decreases fuel, 1nat, ids.len(),
{
    if ids.len() > 0 {
        let n = nodes.len();
        let (first, after_first) = walk(nodes, ids[0], target, visited, fuel);
        lemma_walk_empty_closed(nodes, ids[0], target, visited, fuel);
        lemma_walk_seen(nodes, ids[0], target, visited, fuel);
        lemma_len_subset_range(after_first, n);
        vstd::set_lib::lemma_len_subset(visited, after_first);
        lemma_walk_all_empty_closed(nodes, ids.drop_first(), target, after_first, fuel);
        let (rest, after) = walk_all(nodes, ids.drop_first(), target, after_first, fuel, 1);
        lemma_walk_all_seen(nodes, ids.drop_first(), target, after_first, fuel, 1);
        if walk_all(nodes, ids, target, visited, fuel, 1).0.len() == 0 {
            assert(first.len() == 0 && rest.len() == 0) by {
                assert(walk_all(nodes, ids, target, visited, fuel, 1).0 == shift(first, 1) + rest);
            }
            assert forall|j: int| 0 <= j < ids.len() implies after.contains(#[trigger] ids[j] as int) by {
                if j > 0 {
                    assert(ids[j] == ids.drop_first()[j - 1]);
                }
            }
        }
    }
}

/// No path from a node of a closed set reaches a node that falls back to
/// `target`.
proof fn lemma_closed_no_path<'a, T: VariantMatch>(
    nodes: Seq<Node<'a, T>>,
    target: NodeId,
    seen: Set<int>,
    p: int,
    d: int,
    steps: nat,
)
    requires
        closed_walk(nodes, target, Set::empty(), seen),
        seen.contains(p),
    ensures
        !reads_to_miss(nodes, p, target, d, steps),
    decreases steps,
{
    assert(!Set::<int>::empty().contains(p));
    assert(moves_within(nodes, p, seen));
    if reads_to_miss(nodes, p, target, d, steps) {
    match nodes[p] {
        Node::Fork(f) => {
            if exists|b: int|
                0 <= b < f.lookup_table@.len() && #[trigger] f.lookup_table@[b] is Some && reads_to_miss(
                    nodes,
                    (f.lookup_table@[b]->0).0 as int,
                    target,
                    d - 1,
                    (steps - 1) as nat,
                ) {
                let b = choose|b: int|
                    0 <= b < f.lookup_table@.len() && #[trigger] f.lookup_table@[b] is Some && reads_to_miss(
                        nodes,
                        (f.lookup_table@[b]->0).0 as int,
                        target,
                        d - 1,
                        (steps - 1) as nat,
                    );
                lemma_closed_no_path(nodes, target, seen, (f.lookup_table@[b]->0).0 as int, d - 1, (steps - 1) as nat);
            } else {
                lemma_closed_no_path(nodes, target, seen, (f.miss->0).0 as int, d, (steps - 1) as nat);
            }
        },
        Node::Rope(r) => {
            if reads_to_miss(nodes, r.target.0 as int, target, d - r.pattern@.len(), (steps - 1) as nat) {
                lemma_closed_no_path(nodes, target, seen, r.target.0 as int, d - r.pattern@.len(), (steps - 1) as nat);
            } else {
                lemma_closed_no_path(nodes, target, seen, (r.miss->0).0 as int, d, (steps - 1) as nat);
            }
        },
        Node::VariantMatch(_) => {},
    }
    }
}

/// Every listed distance is kept by [`entry_of`].
proof fn lemma_listed_is_kept(lists: Seq<Seq<int>>, x: int)
    requires
        listed(lists, x),
    ensures
        entry_has(entry_of(lists), x),
    decreases lists.len(),
{
    let init = lists.drop_last();
    let d = lists.last();
    let n = lists.len() - 1;
    let (k, j) = choose|k: int, j: int| 0 <= k < lists.len() && 0 <= j < lists[k].len() && #[trigger] lists[k][j] == x;
    if k == n {
        assert(d[j] == x);
        assert(d.to_set().contains(x));
        if single(d) {
            assert(d[j] == d[0]);
        }
    } else {
        assert(init[k] == lists[k]);
        assert(init[k][j] == x);
        lemma_listed_is_kept(init, x);
    }
}

/// When some path reads its way from a node that records the position of
/// `r` to a node that falls back to it, the analysis keeps a distance for
/// that position: the walk from the recording node misses no such path
/// entirely.
pub proof fn lemma_recorded_path_is_kept<'a, T: VariantMatch>(
    nodes: Seq<Node<'a, T>>,
    r: NodeId,
    i: int,
    d: int,
    steps: nat,
)
    requires
        ids_within(nodes),
        0 <= i < nodes.len() <= usize::MAX,
        nodes[i].spec_record_miss_backtrack_idx() == Some(r),
        reads_to_miss(nodes, i, r, d, steps),
    ensures
        exists|e: int| entry_has(entry_of(recorded_distances(nodes, r, nodes.len() as int)), e),
{
    let n = nodes.len();
    assert(within(Set::<int>::empty(), n));
    assert(Set::<int>::empty().len() == 0);
    assert(i as usize as int == i);
    let w = walk(nodes, i as usize, r, Set::empty(), (n + 1) as nat);
    lemma_walk_empty_closed(nodes, i as usize, r, Set::empty(), (n + 1) as nat);
    if w.0.len() == 0 {
        lemma_closed_no_path(nodes, r, w.1, i, d, steps);
        assert(false);
    }
    assert(node_distances(nodes, i) == w.0);
    let x = w.0[0];
    lemma_recorded_contains(nodes, r, n as int, i);
    let lists = recorded_distances(nodes, r, n as int);
    let k = choose|k: int| 0 <= k < lists.len() && #[trigger] lists[k] == node_distances(nodes, i);
    assert(lists[k][0] == x);
    lemma_listed_is_kept(lists, x);
}

/// The distances of each node below `upto` that records the position of `r`
/// are among [`recorded_distances`].
proof fn lemma_recorded_contains<'a, T: VariantMatch>(nodes: Seq<Node<'a, T>>, r: NodeId, upto: int, i: int)
    requires
        0 <= i < upto <= nodes.len(),
        nodes[i].spec_record_miss_backtrack_idx() == Some(r),
    ensures
        exists|k: int|
            0 <= k < recorded_distances(nodes, r, upto).len() && #[trigger] recorded_distances(nodes, r, upto)[k]
                == node_distances(nodes, i),
    decreases upto,
{
    let lists = recorded_distances(nodes, r, upto);
    let rest = recorded_distances(nodes, r, upto - 1);
    if i == upto - 1 {
        assert(lists[rest.len() as int] == node_distances(nodes, i));
    } else {
        lemma_recorded_contains(nodes, r, upto - 1, i);
        let k = choose|k: int| 0 <= k < rest.len() && #[trigger] rest[k] == node_distances(nodes, i);
        assert(lists[k] == rest[k]);
    }
}

} // verus!
