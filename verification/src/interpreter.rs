//! Runs a lexer graph over input bytes, one token at a time.
use vstd::prelude::*;

use crate::graph::rope::in_byte_class;
use crate::graph::{byte_class_pair, class_chain, loop_chain, star_chain, star_lexer_start, single_unbounded_loop, loop_lexer_start, reads_classes, single_bounded_loop, class_lexer, class_lexer_start, class_rope, class_tail, classes_of, first_class, is_class_sequence, overlapping_pair, single_class_sequence, opt_below, overlaps_have_equal_priority, overlaps_name_variants, reachable, Error, Graph, Node, NodeId, Rope};
use crate::lexer::Lexer;
use crate::specification::{buildable, Specification};
use crate::variant_match::{SimpleVariantMatch, VariantMatch};
use std::collections::HashMap;

verus! {

broadcast use vstd::std_specs::hash::group_hash_axioms;

/// A matched token: the name of its variant and the bytes it covers.
#[derive(Debug, PartialEq)]
pub struct Token<'a> {
    pub name: &'a str,
    pub value: &'a [u8],
}

impl<'a> Token<'a> {
    pub fn new(name: &'a str, value: &'a [u8]) -> (t: Self)
        ensures
            t.name == name,
            t.value == value,
    {
        Self { name, value }
    }
}

/// The most steps that the interpreter takes for one token.
pub const STEP_LIMIT: usize = usize::MAX;

/// Where a run of the graph stands.
#[derive(Debug, PartialEq, Eq, Structural)]
pub enum Status {
    Running,
    Matched,
    Failed,
}

/// A state of a run: the current node, the input position, the recorded
/// backtrack positions (by node index) and the status.
pub ghost struct MachineState {
    pub node: usize,
    pub idx: int,
    pub backtracks: Map<usize, usize>,
    pub status: Status,
}

/// The byte at `idx`, if there is one.
pub open spec fn byte_at(bytes: Seq<u8>, idx: int) -> Option<u8> {
    if 0 <= idx < bytes.len() {
        Some(bytes[idx])
    } else {
        None
    }
}

/// The bytes from `idx` on begin with bytes of the first `n` sets of the
/// rope's pattern.
pub open spec fn rope_prefix_matches(rope: Rope, bytes: Seq<u8>, idx: int, n: int) -> bool {
    forall|i: int|
        0 <= i < n ==> idx + i < bytes.len() && (#[trigger] rope.pattern@[i]).has(bytes[idx + i])
}

/// The bytes from `idx` on begin with bytes of the rope's pattern.
pub open spec fn rope_matches(rope: Rope, bytes: Seq<u8>, idx: int) -> bool {
    rope_prefix_matches(rope, bytes, idx, rope.pattern@.len() as int)
}

/// The backtrack map once the current position is recorded for `record`.
pub open spec fn with_record(
    backtracks: Map<usize, usize>,
    record: Option<NodeId>,
    idx: int,
) -> Map<usize, usize> {
    match record {
        Some(r) => backtracks.insert(r.0, idx as usize),
        None => backtracks,
    }
}

/// Following a miss: to the miss node, back at the position recorded for
/// it; a run without a miss, or without a recorded position, fails.
pub open spec fn follow_miss(miss: Option<NodeId>, backtracks: Map<usize, usize>, s: MachineState) -> MachineState {
    match miss {
        Some(m) => if backtracks.contains_key(m.0) {
            MachineState { node: m.0, idx: backtracks[m.0] as int, backtracks, status: Status::Running }
        } else {
            MachineState { backtracks, status: Status::Failed, ..s }
        },
        None => MachineState { backtracks, status: Status::Failed, ..s },
    }
}

/// One step of a run at a node of `graph`.
pub open spec fn step<'a>(graph: &Graph<'a, SimpleVariantMatch<'a>>, bytes: Seq<u8>, s: MachineState) -> MachineState {
    match graph.nodes@[s.node as int] {
        Node::Fork(fork) => {
            let backtracks = with_record(s.backtracks, fork.record_miss_backtrack_idx, s.idx);
            match byte_at(bytes, s.idx) {
                Some(b) => match fork.lookup_table@[b as int] {
                    Some(next) => MachineState {
                        node: next.0,
                        idx: s.idx + 1,
                        backtracks,
                        status: Status::Running,
                    },
                    None => follow_miss(fork.miss, backtracks, s),
                },
                None => follow_miss(fork.miss, backtracks, s),
            }
        },
        Node::Rope(rope) => {
            let backtracks = with_record(s.backtracks, rope.record_miss_backtrack_idx, s.idx);
            if rope_matches(rope, bytes, s.idx) {
                MachineState {
                    node: rope.target.0,
                    idx: s.idx + rope.pattern@.len(),
                    backtracks,
                    status: Status::Running,
                }
            } else {
                follow_miss(rope.miss, backtracks, s)
            }
        },
        Node::VariantMatch(_) => MachineState { status: Status::Matched, ..s },
    }
}

/// Up to `fuel` steps of a run, stopping once it no longer runs.
pub open spec fn run<'a>(
    graph: &Graph<'a, SimpleVariantMatch<'a>>,
    bytes: Seq<u8>,
    s: MachineState,
    fuel: nat,
) -> MachineState
    decreases fuel,
{
    if fuel == 0 || s.status != Status::Running {
        s
    } else {
        run(graph, bytes, step(graph, bytes, s), (fuel - 1) as nat)
    }
}

/// Lexes `bytes` with the graph of a lexer.
#[derive(Debug)]
pub struct Interpreter<'a> {
    pub graph: Graph<'a, SimpleVariantMatch<'a>>,
    pub bytes: &'a [u8],
    pub current_idx: usize,
    pub backtrack_idxs: HashMap<usize, usize>,
}

/// Every recorded position lies within the input.
pub open spec fn positions_within(backtracks: Map<usize, usize>, len: nat) -> bool {
    forall|k: usize| #[trigger] backtracks.contains_key(k) ==> backtracks[k] <= len
}

impl<'a> Interpreter<'a> {
    pub open spec fn wf(&self) -> bool {
        &&& self.graph.wf()
        &&& self.current_idx <= self.bytes@.len()
        &&& positions_within(self.backtrack_idxs@, self.bytes@.len())
    }

    /// The run of the graph for the next token, from the current position.
    pub open spec fn next_run(&self) -> MachineState {
        run(
            &self.graph,
            self.bytes@,
            MachineState {
                node: self.graph.start_node_id.0,
                idx: self.current_idx as int,
                backtracks: self.backtrack_idxs@,
                status: Status::Running,
            },
            STEP_LIMIT as nat,
        )
    }

    /// The tokens of the rest of the input (see [`lex_from`]).
    pub open spec fn lex_rest(&self) -> Option<Seq<(&'a str, int, int)>> {
        lex_from(&self.graph, self.bytes@, self.current_idx as int, self.backtrack_idxs@)
    }

    /// An interpreter at the start of `bytes`, over the graph of `lexer`.
    pub fn new(lexer: &'a Lexer<SimpleVariantMatch<'a>>, bytes: &'a [u8]) -> (r: Result<
        Self,
        Vec<Error<'a, SimpleVariantMatch<'a>>>,
    >)
        requires
            forall|i: int|
                0 <= i < lexer.variant_matches@.len() ==> buildable(
                    (#[trigger] lexer.variant_matches@[i]).0,
                ),
        ensures
            r matches Ok(interpreter) ==> {
                &&& interpreter.wf()
                &&& interpreter.bytes == bytes
                &&& interpreter.current_idx == 0
                &&& interpreter.backtrack_idxs@ == Map::<usize, usize>::empty()
                &&& forall|k: usize|
                    k < interpreter.graph.nodes@.len() ==> #[trigger] reachable(
                        interpreter.graph.slots(),
                        interpreter.graph.start_node_id.0,
                        k,
                    )
            },
            r matches Err(errors) ==> errors@.len() > 0 && overlaps_have_equal_priority(errors@)
                && overlaps_name_variants(errors@, lexer.variant_matches@),
            class_lexer(lexer.variant_matches@) ==> (r matches Ok(interpreter) ==> class_lexer_start(
                interpreter.graph.slots(),
                interpreter.graph.start_node_id.0,
                lexer.variant_matches@,
            )),
            single_class_sequence(lexer.variant_matches@) ==> (r matches Ok(interpreter) ==> class_chain(
                interpreter.graph.slots(),
                interpreter.graph.start_node_id.0,
                classes_of(lexer.variant_matches@[0].0),
                lexer.variant_matches@[0].1,
            )),
            (class_lexer(lexer.variant_matches@) || single_class_sequence(lexer.variant_matches@)) && 2
                * lexer.variant_matches@.len() < usize::MAX ==> r is Ok,
            overlapping_pair(lexer.variant_matches@) ==> (r matches Err(errors) && errors@ == seq![
                Error::VariantMatchesOverlapWithSamePriority(
                    &lexer.variant_matches@[1].1,
                    &lexer.variant_matches@[0].1,
                ),
            ]),
            byte_class_pair(lexer.variant_matches@) && lexer.variant_matches@[0].1.spec_priority()
                != lexer.variant_matches@[1].1.spec_priority() ==> r is Ok,
            single_bounded_loop(lexer.variant_matches@) ==> (r matches Ok(interpreter) && loop_lexer_start(
                interpreter.graph.slots(),
                interpreter.graph.start_node_id.0,
                lexer.variant_matches@,
            )),
            single_unbounded_loop(lexer.variant_matches@) ==> (r matches Ok(interpreter) && star_lexer_start(
                interpreter.graph.slots(),
                interpreter.graph.start_node_id.0,
                lexer.variant_matches@,
            )),
    {
        let graph = match Graph::for_lexer(lexer) {
            Ok(graph) => graph,
            Err(errors) => {
                return Err(errors);
            },
        };
        Ok(Self { graph, bytes, current_idx: 0, backtrack_idxs: HashMap::new() })
    }

    /// The next token. At the end of the input: `None`. Otherwise the graph
    /// is run from its start at the current position (see [`run`]); when the
    /// run reaches a variant match, its name with the bytes read becomes the
    /// token and lexing goes on where it ended; otherwise the result is an
    /// error and lexing goes on one byte further.
    pub fn next(&mut self) -> (r: Option<Result<Token<'a>, ()>>)
        requires
            old(self).wf(),
        ensures
            final(self).wf(),
            final(self).graph == old(self).graph,
            final(self).bytes == old(self).bytes,
            old(self).current_idx >= old(self).bytes@.len() ==> r is None && *final(self) == *old(
                self,
            ),
            old(self).current_idx < old(self).bytes@.len() ==> {
                let s = old(self).next_run();
                &&& final(self).backtrack_idxs@ == s.backtracks
                &&& if s.status == Status::Matched && old(self).current_idx <= s.idx {
                    &&& old(self).graph.nodes@[s.node as int] matches Node::VariantMatch(m)
                    &&& r matches Some(Ok(token)) && token.name == m.name
                        && token.value@ == old(self).bytes@.subrange(
                        old(self).current_idx as int,
                        s.idx,
                    )
                    &&& final(self).current_idx == s.idx
                } else {
                    &&& r == Some(Err::<Token<'a>, ()>(()))
                    &&& final(self).current_idx == old(self).current_idx + 1
                }
            },
    {
        if self.current_idx >= self.bytes.len() {
            return None;
        }
        let ghost s0 = MachineState {
            node: self.graph.start_node_id.0,
            idx: self.current_idx as int,
            backtracks: self.backtrack_idxs@,
            status: Status::Running,
        };
        let mut idx = self.current_idx;
        let mut current_node_id = self.graph.start_node_id();
        let mut steps: usize = STEP_LIMIT;
        let len = self.bytes.len();
        let ghost n = self.graph.nodes@.len();
        loop
            invariant_except_break
                current_node_id.0 < n,
                idx <= len,
                old(self).next_run() == run(
                    &self.graph,
                    self.bytes@,
                    MachineState {
                        node: current_node_id.0,
                        idx: idx as int,
                        backtracks: self.backtrack_idxs@,
                        status: Status::Running,
                    },
                    steps as nat,
                ),
            invariant
                self.graph.wf(),
                n == self.graph.nodes@.len(),
                self.graph == old(self).graph,
                self.bytes == old(self).bytes,
                self.current_idx == old(self).current_idx,
                self.current_idx < self.bytes@.len(),
                len == self.bytes@.len(),
                positions_within(self.backtrack_idxs@, len as nat),
            ensures
                old(self).next_run().backtracks == self.backtrack_idxs@,
                !(old(self).next_run().status == Status::Matched && old(self).current_idx
                    <= old(self).next_run().idx),
            decreases steps,
        {
            let ghost state = MachineState {
                node: current_node_id.0,
                idx: idx as int,
                backtracks: self.backtrack_idxs@,
                status: Status::Running,
            };
            if steps == 0 {
                break;
            }
            steps = steps - 1;
            proof {
                assert(run(&self.graph, self.bytes@, state, (steps + 1) as nat) == run(
                    &self.graph,
                    self.bytes@,
                    step(&self.graph, self.bytes@, state),
                    steps as nat,
                ));
                assert(self.graph.nodes@[current_node_id.0 as int].ids_below(n));
            }
            match self.graph.get(current_node_id) {
                Node::Fork(fork) => {
                    if let Some(backtrack_idx) = fork.record_miss_backtrack_idx() {
                        self.backtrack_idxs.insert(backtrack_idx.0, idx);
                    }
                    let ghost backtracks = self.backtrack_idxs@;
                    assert(backtracks == with_record(
                        state.backtracks,
                        fork.record_miss_backtrack_idx,
                        idx as int,
                    ));
                    let next = if idx < len {
                        let b = self.bytes[idx];
                        assert(byte_at(self.bytes@, idx as int) == Some(b));
                        let entry = fork.lookup_table[b as usize];
                        assert(opt_below(fork.lookup_table@[b as int], n));
                        entry
                    } else {
                        assert(byte_at(self.bytes@, idx as int) is None);
                        None
                    };
                    match next {
                        Some(node_id) => {
                            current_node_id = node_id;
                            idx = idx + 1;
                        },
                        None => {
                            match fork.miss() {
                                Some(miss) => match self.backtrack_idxs.get(&miss.0) {
                                    Some(backtrack) => {
                                        current_node_id = miss;
                                        idx = *backtrack;
                                    },
                                    None => {
                                        break;
                                    },
                                },
                                None => {
                                    break;
                                },
                            }
                        },
                    }
                },
                Node::VariantMatch(variant_match) => {
                    let variant_match: &'a SimpleVariantMatch<'a> = *variant_match;
                    if self.current_idx <= idx {
                        let token = Token::new(
                            variant_match.name(),
                            &self.bytes[self.current_idx..idx],
                        );
                        self.current_idx = idx;
                        return Some(Ok(token));
                    }
                    break;
                },
                Node::Rope(rope) => {
                    if let Some(backtrack_idx) = rope.record_miss_backtrack_idx() {
                        self.backtrack_idxs.insert(backtrack_idx.0, idx);
                    }
                    let ghost backtracks = self.backtrack_idxs@;
                    assert(backtracks == with_record(
                        state.backtracks,
                        rope.record_miss_backtrack_idx,
                        idx as int,
                    ));
                    let matches_pattern = matches_rope(rope, self.bytes, idx);
                    if matches_pattern {
                        proof {
                            if rope.pattern@.len() > 0 {
                                assert(rope.pattern@[rope.pattern@.len() - 1].wf());
                            }
                        }
                        current_node_id = rope.target;
                        idx = idx + rope.pattern.len();
                    } else {
                        match rope.miss() {
                            Some(miss) => match self.backtrack_idxs.get(&miss.0) {
                                Some(backtrack) => {
                                    current_node_id = miss;
                                    idx = *backtrack;
                                },
                                None => {
                                    break;
                                },
                            },
                            None => {
                                break;
                            },
                        }
                    }
                },
            }
        }
        self.current_idx = self.current_idx + 1;
        Some(Err(()))
    }

    /// The tokens of the rest of the input, up to the first error. A token
    /// that covers no byte would repeat forever; collection stops there with
    /// an error too. The tokens cover the rest of the input exactly, in
    /// order.
    pub fn collect_tokens(&mut self) -> (r: Result<Vec<Token<'a>>, ()>)
        requires
            old(self).wf(),
        ensures
            final(self).wf(),
            final(self).bytes == old(self).bytes,
            r is Ok <==> old(self).lex_rest() is Some,
            r matches Ok(tokens) ==> {
                &&& final(self).current_idx >= final(self).bytes@.len()
                &&& concat_values(tokens@) == old(self).bytes@.subrange(
                    old(self).current_idx as int,
                    old(self).bytes@.len() as int,
                )
                &&& tokens_are(tokens@, old(self).lex_rest()->0, old(self).bytes@)
            },
    {
        let mut tokens: Vec<Token<'a>> = Vec::new();
        let ghost start = self.current_idx;
        let ghost mut done: Seq<(&'a str, int, int)> = Seq::empty();
        loop
            invariant
                self.wf(),
                self.bytes == old(self).bytes,
                self.graph == old(self).graph,
                start == old(self).current_idx,
                start <= self.current_idx,
                concat_values(tokens@) == self.bytes@.subrange(start as int, self.current_idx as int),
                tokens_are(tokens@, done, self.bytes@),
                old(self).lex_rest() == match self.lex_rest() {
                    Some(rest) => Some(done + rest),
                    None => None::<Seq<(&'a str, int, int)>>,
                },
            decreases self.bytes@.len() - self.current_idx,
        {
            let before = self.current_idx;
            let ghost state = *self;
            match self.next() {
                None => {
                    proof {
                        assert(done + Seq::<(&'a str, int, int)>::empty() =~= done);
                    }
                    return Ok(tokens);
                },
                Some(Ok(token)) => {
                    if self.current_idx == before {
                        return Err(());
                    }
                    let ghost prev = tokens@;
                    tokens.push(token);
                    proof {
                        let s = state.next_run();
                        let m = state.graph.nodes@[s.node as int]->VariantMatch_0;
                        let entry = (m.name, before as int, self.current_idx as int);
                        assert(state.lex_rest() == match self.lex_rest() {
                            Some(rest) => Some(seq![entry] + rest),
                            None => None::<Seq<(&'a str, int, int)>>,
                        });
                        if let Some(rest) = self.lex_rest() {
                            assert(done + (seq![entry] + rest) =~= done.push(entry) + rest);
                        }
                        done = done.push(entry);
                        assert forall|i: int| 0 <= i < tokens@.len() implies #[trigger] token_is(tokens@[i], done[i], self.bytes@) by {
                            if i < prev.len() {
                                assert(tokens@[i] == prev[i]);
                            }
                        }
                        assert(tokens@.drop_last() == prev);
                        assert(self.bytes@.subrange(start as int, self.current_idx as int) =~= self.bytes@.subrange(
                            start as int,
                            before as int,
                        ) + self.bytes@.subrange(before as int, self.current_idx as int));
                    }
                },
                Some(Err(())) => {
                    return Err(());
                },
            }
        }
    }
}

/// `token` is the token with the name and the bytes between the two
/// positions of `entry`.
pub open spec fn token_is<'a>(token: Token<'a>, entry: (&'a str, int, int), bytes: Seq<u8>) -> bool {
    &&& token.name == entry.0
    &&& token.value@ == bytes.subrange(entry.1, entry.2)
}

/// Each token is the one that `entries` gives at its position.
pub open spec fn tokens_are<'a>(tokens: Seq<Token<'a>>, entries: Seq<(&'a str, int, int)>, bytes: Seq<u8>) -> bool {
    &&& tokens.len() == entries.len()
    &&& forall|i: int| 0 <= i < tokens.len() ==> #[trigger] token_is(tokens[i], entries[i], bytes)
}

/// The tokens of `bytes` from `idx` on, as name, start and end, when every
/// run of the graph from its start ends in a variant match after reading at
/// least one byte; `None` at the first run that does not. The backtrack
/// positions recorded by one run are there for the next.
pub open spec fn lex_from<'a>(
    graph: &Graph<'a, SimpleVariantMatch<'a>>,
    bytes: Seq<u8>,
    idx: int,
    backtracks: Map<usize, usize>,
) -> Option<Seq<(&'a str, int, int)>>
    decreases bytes.len() - idx,
{
    if idx >= bytes.len() {
        Some(Seq::empty())
    } else {
        let s = run(
            graph,
            bytes,
            MachineState { node: graph.start_node_id.0, idx, backtracks, status: Status::Running },
            STEP_LIMIT as nat,
        );
        if s.status == Status::Matched && idx < s.idx <= bytes.len()
            && graph.nodes@[s.node as int] is VariantMatch {
            match lex_from(graph, bytes, s.idx, s.backtracks) {
                Some(rest) => Some(
                    seq![(graph.nodes@[s.node as int]->VariantMatch_0.name, idx, s.idx)] + rest,
                ),
                None => None,
            }
        } else {
            None
        }
    }
}

/// The bytes from `idx` on begin with one byte of each class, in order.
pub open spec fn reads_at(bytes: Seq<u8>, idx: int, classes: Seq<Specification>) -> bool {
    &&& 0 <= idx
    &&& idx + classes.len() <= bytes.len()
    &&& forall|i: int| 0 <= i < classes.len() ==> #[trigger] in_byte_class(classes[i], bytes[idx + i])
}

/// A graph whose start begins a chain of byte classes (see
/// [`class_chain`]) matches exactly where the input holds one byte of each
/// class: the run from the start reaches the variant match after as many
/// bytes as there are classes, and fails everywhere else.
pub proof fn lemma_class_chain_run<'a>(
    graph: &Graph<'a, SimpleVariantMatch<'a>>,
    bytes: Seq<u8>,
    idx: int,
    backtracks: Map<usize, usize>,
    classes: Seq<Specification>,
    m: SimpleVariantMatch<'a>,
)
    requires
        graph.wf(),
        classes.len() > 0,
        0 <= idx,
        class_chain(graph.slots(), graph.start_node_id.0, classes, m),
    ensures
        ({
            let s = run(
                graph,
                bytes,
                MachineState { node: graph.start_node_id.0, idx, backtracks, status: Status::Running },
                STEP_LIMIT as nat,
            );
            &&& (s.status == Status::Matched) == reads_at(bytes, idx, classes)
            &&& reads_at(bytes, idx, classes) ==> {
                &&& s.idx == idx + classes.len()
                &&& graph.nodes@[s.node as int] matches Node::VariantMatch(x) && *x == m
            }
            &&& !reads_at(bytes, idx, classes) ==> s.status == Status::Failed
        }),
{
    let slots = graph.slots();
    let start = graph.start_node_id.0;
    let t = choose|t: NodeId|
        #![trigger slots[t.0 as int]]
        {
            &&& t.0 < slots.len()
            &&& start < slots.len()
            &&& class_rope(slots[start as int], classes.take(1), t)
            &&& classes.len() == 1 ==> (slots[t.0 as int] matches Some(Node::VariantMatch(x)) && *x == m)
            &&& classes.len() > 1 ==> exists|u: NodeId|
                #![trigger slots[u.0 as int]]
                {
                    &&& u.0 < slots.len()
                    &&& class_rope(slots[t.0 as int], classes.drop_first(), u)
                    &&& slots[u.0 as int] matches Some(Node::VariantMatch(x)) && *x == m
                }
        };
    let s0 = MachineState { node: start, idx, backtracks, status: Status::Running };
    let r0 = graph.nodes@[start as int]->Rope_0;
    assert(slots[start as int] == Some(graph.nodes@[start as int]));
    let fuel = STEP_LIMIT as nat;
    let s1 = step(graph, bytes, s0);
    assert(run(graph, bytes, s0, fuel) == run(graph, bytes, s1, (fuel - 1) as nat));
    assert(rope_matches(r0, bytes, idx) <==> (idx < bytes.len() && in_byte_class(classes[0], bytes[idx]))) by {
        assert(r0.pattern@[0].has(bytes[idx]) <==> in_byte_class(classes.take(1)[0], bytes[idx])) by {
            if idx < bytes.len() {
                assert(r0.pattern@[0].has(bytes[idx]) <==> in_byte_class(classes.take(1)[0], bytes[idx]));
            }
        }
    }
    if !(idx < bytes.len() && in_byte_class(classes[0], bytes[idx])) {
        assert(s1.status == Status::Failed);
        assert(!reads_at(bytes, idx, classes)) by {
            if reads_at(bytes, idx, classes) {
                assert(in_byte_class(classes[0], bytes[idx + 0]));
            }
        }
    } else {
        assert(s1 == MachineState { node: t.0, idx: idx + 1, backtracks, status: Status::Running });
        assert(slots[t.0 as int] == Some(graph.nodes@[t.0 as int]));
        let s2 = step(graph, bytes, s1);
        assert(run(graph, bytes, s1, (fuel - 1) as nat) == run(graph, bytes, s2, (fuel - 2) as nat));
        if classes.len() == 1 {
            assert(s2.status == Status::Matched);
            assert(run(graph, bytes, s2, (fuel - 2) as nat) == s2);
            assert(reads_at(bytes, idx, classes)) by {
                assert forall|i: int| 0 <= i < classes.len() implies #[trigger] in_byte_class(classes[i], bytes[idx + i]) by {
                    assert(i == 0);
                }
            }
        } else {
            let u = choose|u: NodeId|
                #![trigger slots[u.0 as int]]
                {
                    &&& u.0 < slots.len()
                    &&& class_rope(slots[t.0 as int], classes.drop_first(), u)
                    &&& slots[u.0 as int] matches Some(Node::VariantMatch(x)) && *x == m
                };
            let r1 = graph.nodes@[t.0 as int]->Rope_0;
            let rest = classes.drop_first();
            assert(slots[u.0 as int] == Some(graph.nodes@[u.0 as int]));
            assert(rope_matches(r1, bytes, idx + 1) <==> reads_at(bytes, idx, classes)) by {
                assert(r1.pattern@.len() == rest.len());
                if rope_matches(r1, bytes, idx + 1) {
                    let last = r1.pattern@.len() - 1;
                    assert(rope_prefix_matches(r1, bytes, idx + 1, r1.pattern@.len() as int));
                    assert(0 <= last < r1.pattern@.len());
                    assert(r1.pattern@[last].has(bytes[(idx + 1) + last]));
                    assert forall|i: int| 0 <= i < classes.len() implies #[trigger] in_byte_class(classes[i], bytes[idx + i]) by {
                        if i > 0 {
                            assert(idx + 1 + (i - 1) < bytes.len() && r1.pattern@[i - 1].has(bytes[idx + 1 + (i - 1)]));
                            assert(rest[i - 1] == classes[i]);
                            assert(in_byte_class(rest[i - 1], bytes[idx + 1 + (i - 1)]));
                            assert(idx + 1 + (i - 1) == idx + i);
                        } else {
                            assert(idx + i == idx);
                        }
                    }
                }
                if reads_at(bytes, idx, classes) {
                    assert forall|i: int| 0 <= i < r1.pattern@.len() implies idx + 1 + i < bytes.len() && (#[trigger] r1.pattern@[i]).has(bytes[idx + 1 + i]) by {
                        assert(in_byte_class(classes[i + 1], bytes[idx + (i + 1)]));
                        assert(rest[i] == classes[i + 1]);
                    }
                }
            }
            if reads_at(bytes, idx, classes) {
                assert(s2 == MachineState { node: u.0, idx: idx + 1 + rest.len(), backtracks, status: Status::Running });
                let s3 = step(graph, bytes, s2);
                assert(run(graph, bytes, s2, (fuel - 2) as nat) == run(graph, bytes, s3, (fuel - 3) as nat));
                assert(s3.status == Status::Matched);
                assert(run(graph, bytes, s3, (fuel - 3) as nat) == s3);
            } else {
                assert(s2.status == Status::Failed);
                assert(run(graph, bytes, s2, (fuel - 2) as nat) == s2);
            }
        }
    }
}

/// The bytes from `idx` on read `classes` exactly when they begin with a
/// byte of the first class and go on to read the others.
proof fn lemma_reads_at_split(bytes: Seq<u8>, idx: int, classes: Seq<Specification>)
    requires
        0 <= idx,
        classes.len() > 0,
    ensures
        reads_at(bytes, idx, classes) <==> (idx < bytes.len() && in_byte_class(classes[0], bytes[idx])
            && reads_at(bytes, idx + 1, classes.drop_first())),
{
    let rest = classes.drop_first();
    if reads_at(bytes, idx, classes) {
        assert(in_byte_class(classes[0], bytes[idx + 0]));
        assert forall|i: int| 0 <= i < rest.len() implies #[trigger] in_byte_class(rest[i], bytes[idx + 1 + i]) by {
            assert(in_byte_class(classes[i + 1], bytes[idx + (i + 1)]));
        }
    }
    if idx < bytes.len() && in_byte_class(classes[0], bytes[idx]) && reads_at(bytes, idx + 1, rest) {
        assert forall|i: int| 0 <= i < classes.len() implies #[trigger] in_byte_class(classes[i], bytes[idx + i]) by {
            if i > 0 {
                assert(in_byte_class(rest[i - 1], bytes[idx + 1 + (i - 1)]));
            }
        }
    }
}

/// From the start of a tail, a run reaches its variant match after reading
/// the tail's classes, and fails if they are not there.
proof fn lemma_tail_run<'a>(
    graph: &Graph<'a, SimpleVariantMatch<'a>>,
    bytes: Seq<u8>,
    idx: int,
    backtracks: Map<usize, usize>,
    t: usize,
    rest: Seq<Specification>,
    term: usize,
    m: SimpleVariantMatch<'a>,
    fuel: nat,
)
    requires
        0 <= idx <= bytes.len(),
        fuel >= 2,
        class_tail(graph.slots(), t, rest, term, m),
    ensures
        ({
            let s = run(graph, bytes, MachineState { node: t, idx, backtracks, status: Status::Running }, fuel);
            &&& (s.status == Status::Matched) == reads_at(bytes, idx, rest)
            &&& reads_at(bytes, idx, rest) ==> {
                &&& s.idx == idx + rest.len()
                &&& s.node == term
            }
            &&& !reads_at(bytes, idx, rest) ==> s.status == Status::Failed
        }),
{
    let slots = graph.slots();
    let s0 = MachineState { node: t, idx, backtracks, status: Status::Running };
    assert(slots[term as int] == Some(graph.nodes@[term as int]));
    assert(slots[t as int] == Some(graph.nodes@[t as int]));
    let s1 = step(graph, bytes, s0);
    assert(run(graph, bytes, s0, fuel) == run(graph, bytes, s1, (fuel - 1) as nat));
    if rest.len() == 0 {
        assert(s1.status == Status::Matched);
        assert(reads_at(bytes, idx, rest));
    } else {
        let r = graph.nodes@[t as int]->Rope_0;
        assert(r.pattern@.len() == rest.len());
        assert(rope_matches(r, bytes, idx) <==> reads_at(bytes, idx, rest)) by {
            if rope_matches(r, bytes, idx) {
                let last = r.pattern@.len() - 1;
                assert(rope_prefix_matches(r, bytes, idx, r.pattern@.len() as int));
                assert(r.pattern@[last].has(bytes[idx + last]));
                assert forall|i: int| 0 <= i < rest.len() implies #[trigger] in_byte_class(rest[i], bytes[idx + i]) by {
                    assert(r.pattern@[i].has(bytes[idx + i]));
                }
            }
            if reads_at(bytes, idx, rest) {
                assert forall|i: int| 0 <= i < r.pattern@.len() implies idx + i < bytes.len() && (#[trigger] r.pattern@[i]).has(bytes[idx + i]) by {
                    assert(in_byte_class(rest[i], bytes[idx + i]));
                }
            }
        }
        if reads_at(bytes, idx, rest) {
            let s2 = step(graph, bytes, s1);
            assert(run(graph, bytes, s1, (fuel - 1) as nat) == run(graph, bytes, s2, (fuel - 2) as nat));
            assert(s2.status == Status::Matched);
        } else {
            assert(s1.status == Status::Failed);
        }
    }
}

/// A graph whose start is that of a class lexer (see
/// [`class_lexer_start`]) matches exactly where the input holds one byte of
/// each class of some variant, and reaches that variant's match after as
/// many bytes as it has classes; everywhere else the run fails.
pub proof fn lemma_class_lexer_run<'a>(
    graph: &Graph<'a, SimpleVariantMatch<'a>>,
    bytes: Seq<u8>,
    idx: int,
    backtracks: Map<usize, usize>,
    variant_matches: Seq<(Specification, SimpleVariantMatch<'a>)>,
)
    requires
        graph.wf(),
        0 <= idx,
        class_lexer(variant_matches),
        class_lexer_start(graph.slots(), graph.start_node_id.0, variant_matches),
    ensures
        ({
            let s = run(
                graph,
                bytes,
                MachineState { node: graph.start_node_id.0, idx, backtracks, status: Status::Running },
                STEP_LIMIT as nat,
            );
            &&& (s.status == Status::Matched) == exists|k: int|
                0 <= k < variant_matches.len() && #[trigger] reads_at(bytes, idx, classes_of(variant_matches[k].0))
            &&& forall|k: int|
                0 <= k < variant_matches.len() && #[trigger] reads_at(bytes, idx, classes_of(variant_matches[k].0)) ==> {
                    &&& s.idx == idx + classes_of(variant_matches[k].0).len()
                    &&& graph.nodes@[s.node as int] matches Node::VariantMatch(x) && *x == variant_matches[k].1
                }
            &&& s.status != Status::Matched ==> s.status == Status::Failed
        }),
{
    let vms = variant_matches;
    let slots = graph.slots();
    let start = graph.start_node_id.0;
    let f = graph.nodes@[start as int]->Fork_0;
    assert(slots[start as int] == Some(graph.nodes@[start as int]));
    let fuel = STEP_LIMIT as nat;
    let s0 = MachineState { node: start, idx, backtracks, status: Status::Running };
    let s1 = step(graph, bytes, s0);
    assert(run(graph, bytes, s0, fuel) == run(graph, bytes, s1, (fuel - 1) as nat));
    let s = run(graph, bytes, s0, fuel);
    assert forall|k: int| 0 <= k < vms.len() implies (#[trigger] reads_at(bytes, idx, classes_of(vms[k].0))
        <==> (idx < bytes.len() && in_byte_class(first_class(vms, k), bytes[idx])
        && reads_at(bytes, idx + 1, classes_of(vms[k].0).drop_first()))) by {
        assert(is_class_sequence(vms[k].0));
        lemma_reads_at_split(bytes, idx, classes_of(vms[k].0));
    }
    if idx < bytes.len() && f.lookup_table@[bytes[idx] as int] is Some {
        let b = bytes[idx];
        let k = choose|k: int| 0 <= k < vms.len() && in_byte_class(first_class(vms, k), b);
        assert(exists|k: int| 0 <= k < vms.len() && in_byte_class(first_class(vms, k), b));
        assert(in_byte_class(first_class(vms, k), b));
        let t = (f.lookup_table@[b as int]->0).0;
        let rest = classes_of(vms[k].0).drop_first();
        let term = choose|term: usize| class_tail(slots, t, rest, term, vms[k].1);
        assert(s1 == MachineState { node: t, idx: idx + 1, backtracks, status: Status::Running });
        lemma_tail_run(graph, bytes, idx + 1, backtracks, t, rest, term, vms[k].1, (fuel - 1) as nat);
        assert(slots[term as int] == Some(graph.nodes@[term as int]));
        assert forall|j: int| 0 <= j < vms.len() && j != k implies !#[trigger] reads_at(bytes, idx, classes_of(vms[j].0)) by {
            assert(!in_byte_class(first_class(vms, j), b));
        }
        let st = run(graph, bytes, s1, (fuel - 1) as nat);
        assert(s == st);
        assert(classes_of(vms[k].0).len() == rest.len() + 1);
        assert(reads_at(bytes, idx, classes_of(vms[k].0)) == reads_at(bytes, idx + 1, rest));
        if reads_at(bytes, idx, classes_of(vms[k].0)) {
            assert(s.status == Status::Matched);
            assert(graph.nodes@[s.node as int] matches Node::VariantMatch(x) && *x == vms[k].1);
        } else {
            assert(s.status == Status::Failed);
            assert(!exists|j: int| 0 <= j < vms.len() && #[trigger] reads_at(bytes, idx, classes_of(vms[j].0)));
        }
    } else {
        assert(s1.status == Status::Failed);
        assert(run(graph, bytes, s1, (fuel - 1) as nat) == s1);
        assert forall|k: int| 0 <= k < vms.len() implies !#[trigger] reads_at(bytes, idx, classes_of(vms[k].0)) by {
            if idx < bytes.len() && in_byte_class(first_class(vms, k), bytes[idx]) {
                assert(f.lookup_table@[bytes[idx] as int] is Some);
            }
        }
    }
}

/// The tokens that the variants of a class lexer cut `bytes` into from
/// `idx` on, as name, start and end: at each position the variant whose
/// classes the input holds there, and `None` at the first position where
/// no variant's classes are found.
pub open spec fn class_tokens<'a>(
    variant_matches: Seq<(Specification, SimpleVariantMatch<'a>)>,
    bytes: Seq<u8>,
    idx: int,
) -> Option<Seq<(&'a str, int, int)>>
    decreases bytes.len() - idx,
{
    if idx >= bytes.len() {
        Some(Seq::empty())
    } else if exists|k: int|
        0 <= k < variant_matches.len() && #[trigger] reads_at(bytes, idx, classes_of(variant_matches[k].0)) {
        let k = choose|k: int|
            0 <= k < variant_matches.len() && #[trigger] reads_at(bytes, idx, classes_of(variant_matches[k].0));
        let end = idx + classes_of(variant_matches[k].0).len();
        if idx < end {
            match class_tokens(variant_matches, bytes, end) {
                Some(rest) => Some(seq![(variant_matches[k].1.name, idx, end)] + rest),
                None => None,
            }
        } else {
            None
        }
    } else {
        None
    }
}

/// A graph that starts as a class lexer does (see [`class_lexer_start`])
/// lexes any input into the tokens of [`class_tokens`]: each token is the
/// variant whose classes the input holds at its start, as long as its
/// classes, and lexing fails where no variant's classes are found.
pub proof fn lemma_class_lexer_tokens<'a>(
    graph: &Graph<'a, SimpleVariantMatch<'a>>,
    bytes: Seq<u8>,
    idx: int,
    backtracks: Map<usize, usize>,
    variant_matches: Seq<(Specification, SimpleVariantMatch<'a>)>,
)
    requires
        graph.wf(),
        0 <= idx,
        class_lexer(variant_matches),
        class_lexer_start(graph.slots(), graph.start_node_id.0, variant_matches),
    ensures
        lex_from(graph, bytes, idx, backtracks) == class_tokens(variant_matches, bytes, idx),
    decreases bytes.len() - idx,
{
    let vms = variant_matches;
    if idx < bytes.len() {
        lemma_class_lexer_run(graph, bytes, idx, backtracks, vms);
        let s = run(
            graph,
            bytes,
            MachineState { node: graph.start_node_id.0, idx, backtracks, status: Status::Running },
            STEP_LIMIT as nat,
        );
        if exists|k: int| 0 <= k < vms.len() && #[trigger] reads_at(bytes, idx, classes_of(vms[k].0)) {
            let k = choose|k: int| 0 <= k < vms.len() && #[trigger] reads_at(bytes, idx, classes_of(vms[k].0));
            assert(is_class_sequence(vms[k].0));
            assert(classes_of(vms[k].0).len() > 0);
            assert(s.idx == idx + classes_of(vms[k].0).len());
            lemma_class_lexer_tokens(graph, bytes, s.idx, s.backtracks, vms);
        }
    }
}

/// A graph that starts a chain of the classes of a lexer's one variant (see
/// [`class_chain`]) lexes any input into the tokens of [`class_tokens`]:
/// one token per run of the classes, failing where they are not found.
pub proof fn lemma_class_chain_tokens<'a>(
    graph: &Graph<'a, SimpleVariantMatch<'a>>,
    bytes: Seq<u8>,
    idx: int,
    backtracks: Map<usize, usize>,
    variant_matches: Seq<(Specification, SimpleVariantMatch<'a>)>,
)
    requires
        graph.wf(),
        0 <= idx,
        single_class_sequence(variant_matches),
        class_chain(graph.slots(), graph.start_node_id.0, classes_of(variant_matches[0].0), variant_matches[0].1),
    ensures
        lex_from(graph, bytes, idx, backtracks) == class_tokens(variant_matches, bytes, idx),
    decreases bytes.len() - idx,
{
    let vms = variant_matches;
    let classes = classes_of(vms[0].0);
    if idx < bytes.len() {
        lemma_class_chain_run(graph, bytes, idx, backtracks, classes, vms[0].1);
        let s = run(
            graph,
            bytes,
            MachineState { node: graph.start_node_id.0, idx, backtracks, status: Status::Running },
            STEP_LIMIT as nat,
        );
        if reads_at(bytes, idx, classes) {
            assert(0 <= 0 < vms.len() && reads_at(bytes, idx, classes_of(vms[0].0)));
            lemma_class_chain_tokens(graph, bytes, s.idx, s.backtracks, vms);
        } else {
            assert forall|k: int| 0 <= k < vms.len() implies !#[trigger] reads_at(bytes, idx, classes_of(vms[k].0)) by {
                assert(k == 0);
            }
        }
    }
}

/// How many copies of the classes, one after the other, the input holds from
/// `idx` on, counting at most `k`.
pub open spec fn copies_at(bytes: Seq<u8>, idx: int, classes: Seq<Specification>, k: nat) -> nat
    decreases k,
{
    if k == 0 || !reads_at(bytes, idx, classes) {
        0
    } else {
        1 + copies_at(bytes, idx + classes.len(), classes, (k - 1) as nat)
    }
}

/// A rope reading the classes matches exactly where the input holds one
/// byte of each class.
proof fn lemma_rope_reads_at(rope: Rope, bytes: Seq<u8>, idx: int, classes: Seq<Specification>)
    requires
        0 <= idx,
        classes.len() > 0,
        reads_classes(rope.pattern@, classes),
    ensures
        rope_matches(rope, bytes, idx) == reads_at(bytes, idx, classes),
{
    let n = classes.len() as int;
    if rope_matches(rope, bytes, idx) {
        assert(rope_prefix_matches(rope, bytes, idx, n));
        let last = rope.pattern@[n - 1];
        assert(idx + (n - 1) < bytes.len());
        assert forall|i: int| 0 <= i < classes.len() implies #[trigger] in_byte_class(classes[i], bytes[idx + i]) by {
            assert(idx + i < bytes.len() && rope.pattern@[i].has(bytes[idx + i]));
        }
    }
    if reads_at(bytes, idx, classes) {
        assert forall|i: int| 0 <= i < n implies idx + i < bytes.len() && (#[trigger] rope.pattern@[i]).has(
            bytes[idx + i],
        ) by {
            assert(in_byte_class(classes[i], bytes[idx + i]));
        }
    }
}

/// The chain of ropes that a bounded loop over a byte-class body is built
/// into (see [`loop_chain`]) reads as many copies of the body as the input
/// holds, up to the length of the chain. When that is at least the number
/// of required copies, the run reaches the loop's target (a variant match)
/// right after the copies it read and matches there; otherwise it fails.
pub proof fn lemma_loop_chain_run<'a>(
    graph: &Graph<'a, SimpleVariantMatch<'a>>,
    bytes: Seq<u8>,
    idx: int,
    backtracks: Map<usize, usize>,
    node: usize,
    classes: Seq<Specification>,
    k: nat,
    req: nat,
    target: NodeId,
    fuel: nat,
)
    requires
        graph.wf(),
        0 <= idx <= bytes.len() <= usize::MAX,
        node < graph.nodes@.len(),
        classes.len() > 0,
        req <= k,
        fuel > k,
        loop_chain(graph.slots(), graph.nodes@[node as int], classes, k, req, target),
        target.0 < graph.nodes@.len(),
        graph.nodes@[target.0 as int] is VariantMatch,
    ensures
        ({
            let s = run(graph, bytes, MachineState { node, idx, backtracks, status: Status::Running }, fuel);
            let c = copies_at(bytes, idx, classes, k);
            &&& (s.status == Status::Matched) == (c >= req)
            &&& c >= req ==> s.node == target.0 && s.idx == idx + c * classes.len()
            &&& c < req ==> s.status == Status::Failed
        }),
    decreases k,
{
    let slots = graph.slots();
    let r = graph.nodes@[node as int]->Rope_0;
    assert(slots[node as int] == Some(graph.nodes@[node as int]));
    let s0 = MachineState { node, idx, backtracks, status: Status::Running };
    let s1 = step(graph, bytes, s0);
    let f1 = (fuel - 1) as nat;
    assert(run(graph, bytes, s0, fuel) == run(graph, bytes, s1, f1));
    lemma_rope_reads_at(r, bytes, idx, classes);
    let len = classes.len() as int;
    let bt1 = with_record(backtracks, r.record_miss_backtrack_idx, idx);
    if reads_at(bytes, idx, classes) {
        assert(s1 == MachineState { node: r.target.0, idx: idx + len, backtracks: bt1, status: Status::Running });
        if k == 1 {
            assert(copies_at(bytes, idx + len, classes, 0) == 0);
            let s2 = step(graph, bytes, s1);
            assert(run(graph, bytes, s1, f1) == run(graph, bytes, s2, (f1 - 1) as nat));
            assert(s2.status == Status::Matched);
            assert(1 * len == len);
        } else {
            let t = r.target.0;
            assert(slots[t as int] == Some(graph.nodes@[t as int]));
            let req1: nat = if req > 0 {
                (req - 1) as nat
            } else {
                0
            };
            lemma_loop_chain_run(graph, bytes, idx + len, bt1, t, classes, (k - 1) as nat, req1, target, f1);
            let c1 = copies_at(bytes, idx + len, classes, (k - 1) as nat);
            assert((1 + c1) * len == len + c1 * len) by (nonlinear_arith);
        }
    } else {
        assert(copies_at(bytes, idx, classes, k) == 0);
        if req == 0 {
            assert(bt1 == backtracks.insert(target.0, idx as usize));
            assert(s1 == MachineState { node: target.0, idx, backtracks: bt1, status: Status::Running });
            let s2 = step(graph, bytes, s1);
            assert(run(graph, bytes, s1, f1) == run(graph, bytes, s2, (f1 - 1) as nat));
            assert(0 * len == 0);
        } else {
            assert(s1.status == Status::Failed);
            assert(run(graph, bytes, s1, f1) == s1);
        }
    }
}

/// How many copies of the classes, one after the other, the input holds from
/// `idx` on.
pub open spec fn all_copies_at(bytes: Seq<u8>, idx: int, classes: Seq<Specification>) -> nat
    decreases bytes.len() - idx,
{
    if classes.len() > 0 && reads_at(bytes, idx, classes) {
        1 + all_copies_at(bytes, idx + classes.len(), classes)
    } else {
        0
    }
}

/// A rope that reads the classes, goes back to itself and misses to
/// `target` recording the position reads every copy of the classes that the
/// input holds and then ends at `target`, right after the copies.
proof fn lemma_self_loop_run<'a>(
    graph: &Graph<'a, SimpleVariantMatch<'a>>,
    bytes: Seq<u8>,
    idx: int,
    backtracks: Map<usize, usize>,
    node: usize,
    classes: Seq<Specification>,
    target: NodeId,
    fuel: nat,
)
    requires
        graph.wf(),
        0 <= idx <= bytes.len() <= usize::MAX,
        node < graph.nodes@.len(),
        classes.len() > 0,
        graph.nodes@[node as int] is Rope,
        reads_classes(graph.nodes@[node as int]->Rope_0.pattern@, classes),
        graph.nodes@[node as int]->Rope_0.target.0 == node,
        graph.nodes@[node as int]->Rope_0.miss == Some(target),
        graph.nodes@[node as int]->Rope_0.record_miss_backtrack_idx == Some(target),
        target.0 < graph.nodes@.len(),
        graph.nodes@[target.0 as int] is VariantMatch,
        fuel >= bytes.len() - idx + 2,
    ensures
        ({
            let s = run(graph, bytes, MachineState { node, idx, backtracks, status: Status::Running }, fuel);
            &&& s.status == Status::Matched
            &&& s.node == target.0
            &&& s.idx == idx + all_copies_at(bytes, idx, classes) * classes.len()
        }),
    decreases bytes.len() - idx,
{
    let r = graph.nodes@[node as int]->Rope_0;
    let s0 = MachineState { node, idx, backtracks, status: Status::Running };
    let s1 = step(graph, bytes, s0);
    let f1 = (fuel - 1) as nat;
    assert(run(graph, bytes, s0, fuel) == run(graph, bytes, s1, f1));
    lemma_rope_reads_at(r, bytes, idx, classes);
    let len = classes.len() as int;
    let bt1 = backtracks.insert(target.0, idx as usize);
    if reads_at(bytes, idx, classes) {
        assert(s1 == MachineState { node, idx: idx + len, backtracks: bt1, status: Status::Running });
        lemma_self_loop_run(graph, bytes, idx + len, bt1, node, classes, target, f1);
        let c1 = all_copies_at(bytes, idx + len, classes);
        assert((1 + c1) * len == len + c1 * len) by (nonlinear_arith);
    } else {
        assert(s1 == MachineState { node: target.0, idx, backtracks: bt1, status: Status::Running });
        let s2 = step(graph, bytes, s1);
        assert(run(graph, bytes, s1, f1) == run(graph, bytes, s2, (f1 - 1) as nat));
        assert(0 * len == 0);
    }
}

/// The ropes that a loop without a bound over a byte-class body is built
/// into (see [`star_chain`]) read every copy of the body that the input
/// holds. When that is at least the number of required copies, the run
/// reaches the loop's target (a variant match) right after the copies and
/// matches there; otherwise it fails.
pub proof fn lemma_star_chain_run<'a>(
    graph: &Graph<'a, SimpleVariantMatch<'a>>,
    bytes: Seq<u8>,
    idx: int,
    backtracks: Map<usize, usize>,
    node: usize,
    classes: Seq<Specification>,
    req: nat,
    target: NodeId,
    fuel: nat,
)
    requires
        graph.wf(),
        0 <= idx <= bytes.len() <= usize::MAX,
        node < graph.nodes@.len(),
        classes.len() > 0,
        star_chain(graph.slots(), graph.nodes@[node as int], classes, req, target),
        target.0 < graph.nodes@.len(),
        graph.nodes@[target.0 as int] is VariantMatch,
        fuel >= req + bytes.len() - idx + 3,
    ensures
        ({
            let s = run(graph, bytes, MachineState { node, idx, backtracks, status: Status::Running }, fuel);
            let c = all_copies_at(bytes, idx, classes);
            &&& (s.status == Status::Matched) == (c >= req)
            &&& c >= req ==> s.node == target.0 && s.idx == idx + c * classes.len()
            &&& c < req ==> s.status == Status::Failed
        }),
    decreases req,
{
    let slots = graph.slots();
    let r = graph.nodes@[node as int]->Rope_0;
    let t = r.target.0;
    assert(slots[node as int] == Some(graph.nodes@[node as int]));
    assert(slots[t as int] == Some(graph.nodes@[t as int]));
    let s0 = MachineState { node, idx, backtracks, status: Status::Running };
    let s1 = step(graph, bytes, s0);
    let f1 = (fuel - 1) as nat;
    assert(run(graph, bytes, s0, fuel) == run(graph, bytes, s1, f1));
    lemma_rope_reads_at(r, bytes, idx, classes);
    let len = classes.len() as int;
    let bt1 = with_record(backtracks, r.record_miss_backtrack_idx, idx);
    if reads_at(bytes, idx, classes) {
        assert(s1 == MachineState { node: t, idx: idx + len, backtracks: bt1, status: Status::Running });
        let c1 = all_copies_at(bytes, idx + len, classes);
        assert((1 + c1) * len == len + c1 * len) by (nonlinear_arith);
        if req > 0 {
            lemma_star_chain_run(graph, bytes, idx + len, bt1, t, classes, (req - 1) as nat, target, f1);
        } else {
            lemma_self_loop_run(graph, bytes, idx + len, bt1, t, classes, target, f1);
        }
    } else {
        assert(all_copies_at(bytes, idx, classes) == 0);
        if req == 0 {
            assert(bt1 == backtracks.insert(target.0, idx as usize));
            assert(s1 == MachineState { node: target.0, idx, backtracks: bt1, status: Status::Running });
            let s2 = step(graph, bytes, s1);
            assert(run(graph, bytes, s1, f1) == run(graph, bytes, s2, (f1 - 1) as nat));
            assert(0 * len == 0);
        } else {
            assert(s1.status == Status::Failed);
            assert(run(graph, bytes, s1, f1) == s1);
        }
    }
}

/// Where `copies_at` counts copies, they lie within the input.
proof fn lemma_copies_within(bytes: Seq<u8>, idx: int, classes: Seq<Specification>, k: nat)
    requires
        0 <= idx <= bytes.len(),
    ensures
        idx + copies_at(bytes, idx, classes, k) * classes.len() <= bytes.len(),
    decreases k,
{
    if k > 0 && reads_at(bytes, idx, classes) {
        lemma_copies_within(bytes, idx + classes.len(), classes, (k - 1) as nat);
        let c1 = copies_at(bytes, idx + classes.len(), classes, (k - 1) as nat);
        assert((1 + c1) * classes.len() == classes.len() + c1 * classes.len()) by (nonlinear_arith);
        assert(copies_at(bytes, idx, classes, k) == 1 + c1);
    } else {
        assert(copies_at(bytes, idx, classes, k) == 0);
        assert(0 * classes.len() == 0);
    }
}

/// The tokens that a lexer of one bounded loop over a byte class cuts
/// `bytes` into from `idx` on, as name, start and end: each token is as many
/// bytes of the class as follow, up to the loop's bound; `None` at the first
/// position where fewer than the loop's minimum follow.
pub open spec fn loop_tokens<'a>(
    variant_matches: Seq<(Specification, SimpleVariantMatch<'a>)>,
    bytes: Seq<u8>,
    idx: int,
) -> Option<Seq<(&'a str, int, int)>>
    decreases bytes.len() - idx,
{
    let l = variant_matches[0].0->Loop_0;
    let c = copies_at(bytes, idx, classes_of(*l.specification), l.max->0 as nat);
    if idx >= bytes.len() {
        Some(Seq::empty())
    } else if c >= l.min && c > 0 && idx + c <= bytes.len() {
        match loop_tokens(variant_matches, bytes, idx + c) {
            Some(rest) => Some(seq![(variant_matches[0].1.name, idx, idx + c)] + rest),
            None => None,
        }
    } else {
        None
    }
}

/// A graph that starts with the chain of a bounded loop over a byte class
/// (see [`loop_lexer_start`]) lexes any input into the tokens of
/// [`loop_tokens`]: each token takes as many bytes of the class as follow,
/// up to the loop's bound, and lexing fails where fewer than the loop's
/// minimum follow.
pub proof fn lemma_loop_lexer_tokens<'a>(
    graph: &Graph<'a, SimpleVariantMatch<'a>>,
    bytes: Seq<u8>,
    idx: int,
    backtracks: Map<usize, usize>,
    variant_matches: Seq<(Specification, SimpleVariantMatch<'a>)>,
)
    requires
        graph.wf(),
        0 <= idx <= bytes.len() <= usize::MAX,
        single_bounded_loop(variant_matches),
        variant_matches[0].0->Loop_0.max->0 < usize::MAX,
        loop_lexer_start(graph.slots(), graph.start_node_id.0, variant_matches),
    ensures
        lex_from(graph, bytes, idx, backtracks) == loop_tokens(variant_matches, bytes, idx),
    decreases bytes.len() - idx,
{
    let vms = variant_matches;
    let l = vms[0].0->Loop_0;
    let cl = classes_of(*l.specification);
    let max = l.max->0;
    let slots = graph.slots();
    let start = graph.start_node_id.0;
    if idx < bytes.len() {
        let t = choose|t: NodeId|
            #![trigger slots[t.0 as int]]
            {
                &&& t.0 < slots.len()
                &&& slots[t.0 as int] == Some(Node::VariantMatch(&vms[0].1))
                &&& loop_chain(slots, slots[start as int]->Some_0, cl, max as nat, l.min as nat, t)
            };
        assert(slots[start as int] == Some(graph.nodes@[start as int]));
        assert(slots[t.0 as int] == Some(graph.nodes@[t.0 as int]));
        lemma_loop_chain_run(graph, bytes, idx, backtracks, start, cl, max as nat, l.min as nat, t, STEP_LIMIT as nat);
        lemma_copies_within(bytes, idx, cl, max as nat);
        let c = copies_at(bytes, idx, cl, max as nat);
        assert(c * 1 == c);
        if c >= l.min && c > 0 {
            let s = run(
                graph,
                bytes,
                MachineState { node: start, idx, backtracks, status: Status::Running },
                STEP_LIMIT as nat,
            );
            lemma_loop_lexer_tokens(graph, bytes, idx + c, s.backtracks, vms);
        }
    }
}

/// The tokens that a lexer of one loop without a bound over a byte class
/// cuts `bytes` into from `idx` on: each token is every byte of the class
/// that follows; `None` at the first position where fewer than the loop's
/// minimum follow.
pub open spec fn star_tokens<'a>(
    variant_matches: Seq<(Specification, SimpleVariantMatch<'a>)>,
    bytes: Seq<u8>,
    idx: int,
) -> Option<Seq<(&'a str, int, int)>>
    decreases bytes.len() - idx,
{
    let l = variant_matches[0].0->Loop_0;
    let c = all_copies_at(bytes, idx, classes_of(*l.specification));
    if idx >= bytes.len() {
        Some(Seq::empty())
    } else if c >= l.min && c > 0 && idx + c <= bytes.len() {
        match star_tokens(variant_matches, bytes, idx + c) {
            Some(rest) => Some(seq![(variant_matches[0].1.name, idx, idx + c)] + rest),
            None => None,
        }
    } else {
        None
    }
}

/// Where `all_copies_at` counts copies, they lie within the input.
proof fn lemma_all_copies_within(bytes: Seq<u8>, idx: int, classes: Seq<Specification>)
    requires
        0 <= idx <= bytes.len(),
    ensures
        idx + all_copies_at(bytes, idx, classes) * classes.len() <= bytes.len(),
    decreases bytes.len() - idx,
{
    if classes.len() > 0 && reads_at(bytes, idx, classes) {
        lemma_all_copies_within(bytes, idx + classes.len(), classes);
        let c1 = all_copies_at(bytes, idx + classes.len(), classes);
        assert((1 + c1) * classes.len() == classes.len() + c1 * classes.len()) by (nonlinear_arith);
    } else {
        assert(0 * classes.len() == 0);
    }
}

/// A graph that starts with the star chain of a loop without a bound over a
/// byte class (see [`star_lexer_start`]) lexes any input into the tokens of
/// [`star_tokens`]: each token takes every byte of the class that follows,
/// and lexing fails where fewer than the loop's minimum follow.
pub proof fn lemma_star_lexer_tokens<'a>(
    graph: &Graph<'a, SimpleVariantMatch<'a>>,
    bytes: Seq<u8>,
    idx: int,
    backtracks: Map<usize, usize>,
    variant_matches: Seq<(Specification, SimpleVariantMatch<'a>)>,
)
    requires
        graph.wf(),
        0 <= idx <= bytes.len(),
        single_unbounded_loop(variant_matches),
        variant_matches[0].0->Loop_0.min + bytes.len() + 3 <= usize::MAX,
        star_lexer_start(graph.slots(), graph.start_node_id.0, variant_matches),
    ensures
        lex_from(graph, bytes, idx, backtracks) == star_tokens(variant_matches, bytes, idx),
    decreases bytes.len() - idx,
{
    let vms = variant_matches;
    let l = vms[0].0->Loop_0;
    let cl = classes_of(*l.specification);
    let slots = graph.slots();
    let start = graph.start_node_id.0;
    if idx < bytes.len() {
        let t = choose|t: NodeId|
            #![trigger slots[t.0 as int]]
            {
                &&& t.0 < slots.len()
                &&& slots[t.0 as int] == Some(Node::VariantMatch(&vms[0].1))
                &&& star_chain(slots, slots[start as int]->Some_0, cl, l.min as nat, t)
            };
        assert(slots[start as int] == Some(graph.nodes@[start as int]));
        assert(slots[t.0 as int] == Some(graph.nodes@[t.0 as int]));
        lemma_star_chain_run(graph, bytes, idx, backtracks, start, cl, l.min as nat, t, STEP_LIMIT as nat);
        lemma_all_copies_within(bytes, idx, cl);
        let c = all_copies_at(bytes, idx, cl);
        assert(c * 1 == c);
        if c >= l.min && c > 0 {
            let s = run(
                graph,
                bytes,
                MachineState { node: start, idx, backtracks, status: Status::Running },
                STEP_LIMIT as nat,
            );
            lemma_star_lexer_tokens(graph, bytes, idx + c, s.backtracks, vms);
        }
    }
}

/// The bytes of `tokens`, one token after the other.
pub open spec fn concat_values<'a>(tokens: Seq<Token<'a>>) -> Seq<u8>
    decreases tokens.len(),
{
    if tokens.len() == 0 {
        Seq::empty()
    } else {
        concat_values(tokens.drop_last()) + tokens.last().value@
    }
}

/// Whether the bytes from `idx` on begin with bytes of the rope's pattern.
fn matches_rope(rope: &Rope, bytes: &[u8], idx: usize) -> (r: bool)
    requires
        rope.wf(),
    ensures
        r == rope_matches(*rope, bytes@, idx as int),
{
    let mut i: usize = 0;
    while i < rope.pattern.len()
        invariant
            rope.wf(),
            i <= rope.pattern@.len(),
            rope_prefix_matches(*rope, bytes@, idx as int, i as int),
        decreases rope.pattern@.len() - i,
    {
        if idx >= bytes.len() || i >= bytes.len() - idx {
            assert(!(idx + i < bytes@.len()));
            assert(rope.pattern@[i as int].wf());
            return false;
        }
        if !rope.pattern[i].contains(bytes[idx + i]) {
            assert(!rope.pattern@[i as int].has(bytes@[idx + i]));
            return false;
        }
        i = i + 1;
    }
    true
}

} // verus!
