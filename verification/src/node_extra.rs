//! Precomputed facts about a parsed pattern.
//!
//! A single pass over the syntax tree assigns capturing-group indices,
//! records the lookaround stack enclosing each group and reference, and
//! collects the references that are reachable (not under a `{0}` quantifier).
use crate::ast::{GroupBehavior, Node, NodeKind, RcNode};
use crate::parse::{capture_count, captures_in};
use std::collections::HashMap;
use std::rc::Rc;
use vstd::prelude::*;

verus! {

/// Facts about a pattern, keyed by node id.
pub struct NodeExtra {
    /// Capturing group node id to its 1-based index.
    pub capturing_group_to_index: HashMap<usize, u64>,
    /// 1-based index to the capturing group node.
    pub index_to_capturing_group: HashMap<u64, RcNode>,
    /// Group or reference node id to the lookaround groups enclosing it.
    pub node_to_lookahead_stack: HashMap<usize, Vec<RcNode>>,
    /// References reached with a live path.
    pub reachable_references: Vec<RcNode>,
}

/// A lookaround group node.
pub open spec fn is_lookaround_group(n: Node) -> bool {
    match n.kind {
        NodeKind::Group { behavior, body } => behavior.spec_is_lookaround(),
        _ => false,
    }
}

/// The recorded facts are of the right kinds: indexed groups are capturing
/// groups and lookaround stacks hold lookaround groups only.
pub open spec fn extra_wf(e: NodeExtra) -> bool {
    &&& forall|k: u64| #[trigger] e.index_to_capturing_group@.contains_key(k) ==> {
        &&& e.index_to_capturing_group@[k].kind matches NodeKind::Group { behavior, body }
        &&& behavior == GroupBehavior::Normal
    }
    &&& forall|k: usize| #[trigger] e.node_to_lookahead_stack@.contains_key(k) ==> all_lookarounds(
        e.node_to_lookahead_stack@[k]@,
    )
}

/// Every node of the list is a lookaround group.
pub open spec fn all_lookarounds(v: Seq<RcNode>) -> bool {
    forall|i: int| 0 <= i < v.len() ==> is_lookaround_group(*#[trigger] v[i])
}

/// The references under a node that are reached on a live path, in source
/// order; a `{0}` quantifier cuts its body off.
pub open spec fn reachable_refs(n: Node, reachable: bool) -> Seq<Node>
    decreases n,
{
    match n.kind {
        NodeKind::Reference { match_index } => if reachable {
            seq![n]
        } else {
            Seq::<Node>::empty()
        },
        NodeKind::Alternative { body } => reachable_refs_in(body@, reachable),
        NodeKind::Disjunction { body } => reachable_refs_in(body@, reachable),
        NodeKind::Group { behavior, body } => reachable_refs_in(body@, reachable),
        NodeKind::Quantifier { min, max, greedy, symbol, body } => reachable_refs(
            *body,
            reachable && max != Some(0u64),
        ),
        _ => Seq::<Node>::empty(),
    }
}

/// [`reachable_refs`] over a list of nodes.
pub open spec fn reachable_refs_in(s: Seq<RcNode>, reachable: bool) -> Seq<Node>
    decreases s,
{
    if s.len() == 0 {
        Seq::<Node>::empty()
    } else {
        reachable_refs_in(s.drop_last(), reachable) + reachable_refs(*s.last(), reachable)
    }
}

/// The nodes of a list of shared nodes.
pub open spec fn nodes_of(v: Seq<RcNode>) -> Seq<Node> {
    v.map_values(|r: RcNode| *r)
}

/// The facts the pass records under a node with the lookaround groups
/// `stack` around it, in visiting order: at each capturing group (`true`)
/// and each reference, the node and the lookaround groups around it.
pub open spec fn fact_events(n: Node, stack: Seq<Node>) -> Seq<(bool, Node, Seq<Node>)>
    decreases n,
{
    match n.kind {
        NodeKind::Reference { match_index } => seq![(false, n, stack)],
        NodeKind::Alternative { body } => fact_events_in(body@, stack),
        NodeKind::Disjunction { body } => fact_events_in(body@, stack),
        NodeKind::Group { behavior, body } => {
            let head = if behavior == GroupBehavior::Normal {
                seq![(true, n, stack)]
            } else {
                Seq::empty()
            };
            let inner = if behavior.spec_is_lookaround() {
                stack.push(n)
            } else {
                stack
            };
            head + fact_events_in(body@, inner)
        },
        NodeKind::Quantifier { min, max, greedy, symbol, body } => fact_events(*body, stack),
        _ => Seq::empty(),
    }
}

/// [`fact_events`] over a list of nodes.
pub open spec fn fact_events_in(s: Seq<RcNode>, stack: Seq<Node>) -> Seq<(bool, Node, Seq<Node>)>
    decreases s,
{
    if s.len() == 0 {
        Seq::empty()
    } else {
        fact_events_in(s.drop_last(), stack) + fact_events(*s.last(), stack)
    }
}

/// The node behind a shared node.
pub open spec fn node_at(r: &RcNode) -> Node {
    **r
}

/// The `i`-th node of a list.
pub open spec fn node_in(s: Seq<RcNode>, i: int) -> Node {
    *s[i]
}

/// The three maps of the facts as plain values.
pub open spec fn facts(e: NodeExtra) -> (Map<usize, u64>, Map<u64, Node>, Map<usize, Seq<Node>>) {
    (
        e.capturing_group_to_index@,
        e.index_to_capturing_group@.map_values(|r: RcNode| *r),
        e.node_to_lookahead_stack@.map_values(|v: Vec<RcNode>| nodes_of(v@)),
    )
}

/// Recording one fact: a capturing group gets the next index, one past the
/// number of groups indexed so far; both kinds get their lookaround stack.
pub open spec fn record_fact(
    state: (Map<usize, u64>, Map<u64, Node>, Map<usize, Seq<Node>>),
    event: (bool, Node, Seq<Node>),
) -> (Map<usize, u64>, Map<u64, Node>, Map<usize, Seq<Node>>) {
    let (group_index, index_group, stacks) = state;
    let (is_group, n, stack) = event;
    if is_group {
        let index = (group_index.len() + 1) as u64;
        (group_index.insert(n.id, index), index_group.insert(index, n), stacks.insert(n.id, stack))
    } else {
        (group_index, index_group, stacks.insert(n.id, stack))
    }
}

/// Recording a list of facts in order.
pub open spec fn record_facts(
    state: (Map<usize, u64>, Map<u64, Node>, Map<usize, Seq<Node>>),
    events: Seq<(bool, Node, Seq<Node>)>,
) -> (Map<usize, u64>, Map<u64, Node>, Map<usize, Seq<Node>>)
    decreases events.len(),
{
    if events.len() == 0 {
        state
    } else {
        record_fact(record_facts(state, events.drop_last()), events.last())
    }
}

proof fn lemma_record_facts_concat(
    state: (Map<usize, u64>, Map<u64, Node>, Map<usize, Seq<Node>>),
    a: Seq<(bool, Node, Seq<Node>)>,
    b: Seq<(bool, Node, Seq<Node>)>,
)
    ensures
        record_facts(state, a + b) == record_facts(record_facts(state, a), b),
    decreases b.len(),
{
    if b.len() == 0 {
        assert(a + b =~= a);
    } else {
        assert((a + b).drop_last() =~= a + b.drop_last());
        assert((a + b).last() == b.last());
        lemma_record_facts_concat(state, a, b.drop_last());
    }
}

/// What a visit keeps and adds.
pub open spec fn visit_step(old_e: NodeExtra, new_e: NodeExtra, added_refs: Seq<Node>, captures: nat) -> bool {
    &&& extra_wf(new_e)
    &&& nodes_of(new_e.reachable_references@) == nodes_of(old_e.reachable_references@) + added_refs
    &&& new_e.capturing_group_to_index@.len() <= old_e.capturing_group_to_index@.len() + captures
}

/// Builds [`NodeExtra`] for `root`.
pub fn build_node_extra(root: &RcNode) -> (res: NodeExtra)
    requires
        capture_count(**root) < u64::MAX,
    ensures
        extra_wf(res),
        nodes_of(res.reachable_references@) == reachable_refs(**root, true),
        facts(res) == record_facts(
            (Map::empty(), Map::empty(), Map::empty()),
            fact_events(**root, Seq::empty()),
        ),
{
    let mut extra = NodeExtra {
        capturing_group_to_index: HashMap::new(),
        index_to_capturing_group: HashMap::new(),
        node_to_lookahead_stack: HashMap::new(),
        reachable_references: Vec::new(),
    };
    let stack: Vec<RcNode> = Vec::new();
    proof {
        assert(nodes_of(extra.reachable_references@) =~= Seq::<Node>::empty());
        assert(nodes_of(stack@) =~= Seq::<Node>::empty());
        assert(facts(extra).1 =~= Map::empty());
        assert(facts(extra).2 =~= Map::empty());
    }
    visit(root, &stack, true, &mut extra);
    proof {
        assert(Seq::<Node>::empty() + reachable_refs(**root, true) =~= reachable_refs(**root, true));
    }
    extra
}

fn copy_stack(stack: &Vec<RcNode>) -> (res: Vec<RcNode>)
    ensures
        res@ == stack@,
{
    let mut out: Vec<RcNode> = Vec::new();
    let mut i: usize = 0;
    while i < stack.len()
        invariant
            i <= stack@.len(),
            out@ == stack@.take(i as int),
        decreases stack.len() - i,
    {
        out.push(Rc::clone(&stack[i]));
        i += 1;
        proof {
            assert(out@ =~= stack@.take(i as int));
        }
    }
    proof {
        assert(out@ =~= stack@);
    }
    out
}

fn visit(node: &RcNode, lookahead_stack: &Vec<RcNode>, reachable: bool, extra: &mut NodeExtra)
    requires
        extra_wf(*old(extra)),
        all_lookarounds(lookahead_stack@),
        old(extra).capturing_group_to_index@.len() + capture_count(**node) < u64::MAX,
    ensures
        visit_step(*old(extra), *final(extra), reachable_refs(**node, reachable), capture_count(**node)),
        facts(*final(extra)) == record_facts(facts(*old(extra)), fact_events(**node, nodes_of(lookahead_stack@))),
    decreases **node,
{
    match &node.kind {
        NodeKind::Reference { .. } => {
            let ghost start = *extra;
            let copy = copy_stack(lookahead_stack);
            extra.node_to_lookahead_stack.insert(node.id, copy);
            if reachable {
                extra.reachable_references.push(Rc::clone(node));
            }
            proof {
                let ev = (false, node_at(node), nodes_of(lookahead_stack@));
                assert(facts(*extra).1 =~= facts(start).1);
                assert(facts(*extra).2 =~= facts(start).2.insert(node.id, nodes_of(lookahead_stack@)));
                assert(seq![ev].drop_last() =~= Seq::<(bool, Node, Seq<Node>)>::empty());
                assert(facts(*extra) == record_fact(facts(start), ev));
                assert(nodes_of(extra.reachable_references@) =~= nodes_of(old(extra).reachable_references@)
                    + reachable_refs(**node, reachable));
                assert(extra.capturing_group_to_index@ == old(extra).capturing_group_to_index@);
                assert(record_facts(facts(start), seq![ev]) == record_fact(
                    record_facts(facts(start), Seq::<(bool, Node, Seq<Node>)>::empty()),
                    ev,
                ));
                assert(facts(*extra) == record_facts(facts(*old(extra)), fact_events(node_at(node), nodes_of(lookahead_stack@))));
            }
        },
        NodeKind::Alternative { body } => {
            visit_all(body, lookahead_stack, reachable, extra);
            proof {
                assert(facts(*extra) == record_facts(facts(*old(extra)), fact_events(node_at(node), nodes_of(lookahead_stack@))));
            }
        },
        NodeKind::Disjunction { body } => {
            visit_all(body, lookahead_stack, reachable, extra);
            proof {
                assert(facts(*extra) == record_facts(facts(*old(extra)), fact_events(node_at(node), nodes_of(lookahead_stack@))));
            }
        },
        NodeKind::Group { behavior, body } => {
            let ghost start = *extra;
            if *behavior == GroupBehavior::Normal {
                let index = extra.capturing_group_to_index.len() as u64 + 1;
                extra.capturing_group_to_index.insert(node.id, index);
                extra.index_to_capturing_group.insert(index, Rc::clone(node));
                let copy = copy_stack(lookahead_stack);
                extra.node_to_lookahead_stack.insert(node.id, copy);
                proof {
                    assert(extra.capturing_group_to_index@.dom() == start.capturing_group_to_index@.dom().insert(node.id));
                    assert(extra.capturing_group_to_index@.len() <= start.capturing_group_to_index@.len() + 1);
                    assert forall|k: u64| #[trigger] extra.index_to_capturing_group@.contains_key(k) implies {
                        &&& extra.index_to_capturing_group@[k].kind matches NodeKind::Group { behavior, body }
                        &&& behavior == GroupBehavior::Normal
                    } by {
                        if k != index {
                            assert(start.index_to_capturing_group@.contains_key(k));
                        }
                    }
                    assert forall|k: usize| #[trigger] extra.node_to_lookahead_stack@.contains_key(k) implies all_lookarounds(
                        extra.node_to_lookahead_stack@[k]@,
                    ) by {
                        if k != node.id {
                            assert(start.node_to_lookahead_stack@.contains_key(k));
                        }
                    }
                    assert(facts(*extra).1 =~= facts(start).1.insert(index, **node));
                    assert(facts(*extra).2 =~= facts(start).2.insert(node.id, nodes_of(lookahead_stack@)));
                    assert(facts(*extra) == record_fact(facts(start), (true, **node, nodes_of(lookahead_stack@))));
                }
            }
            let ghost mid = *extra;
            let new_stack = if behavior.is_lookaround() {
                let mut s = copy_stack(lookahead_stack);
                s.push(Rc::clone(node));
                s
            } else {
                copy_stack(lookahead_stack)
            };
            proof {
                assert forall|i: int| 0 <= i < new_stack@.len() implies is_lookaround_group(*#[trigger] new_stack@[i]) by {
                    if i < lookahead_stack@.len() {
                        assert(new_stack@[i] == lookahead_stack@[i]);
                    }
                }
                if behavior.spec_is_lookaround() {
                    assert(nodes_of(new_stack@) =~= nodes_of(lookahead_stack@).push(**node));
                } else {
                    assert(nodes_of(new_stack@) =~= nodes_of(lookahead_stack@));
                }
                let ev = (true, node_at(node), nodes_of(lookahead_stack@));
                let head = if *behavior == GroupBehavior::Normal {
                    seq![ev]
                } else {
                    Seq::<(bool, Node, Seq<Node>)>::empty()
                };
                assert(seq![ev].drop_last() =~= Seq::<(bool, Node, Seq<Node>)>::empty());
                if *behavior == GroupBehavior::Normal {
                    assert(record_facts(facts(start), head) == record_fact(
                        record_facts(facts(start), Seq::<(bool, Node, Seq<Node>)>::empty()),
                        ev,
                    ));
                    assert(facts(mid) == record_fact(facts(start), ev));
                } else {
                    assert(mid == start);
                }
                assert(record_facts(facts(start), head) == facts(mid));
                lemma_record_facts_concat(facts(start), head, fact_events_in(body@, nodes_of(new_stack@)));
            }
            visit_all(body, &new_stack, reachable, extra);
            proof {
                assert(facts(*extra) == record_facts(facts(*old(extra)), fact_events(node_at(node), nodes_of(lookahead_stack@))));
            }
        },
        NodeKind::Quantifier { max, body, .. } => {
            let child_reachable = reachable && *max != Some(0);
            visit(body, lookahead_stack, child_reachable, extra);
            proof {
                assert(facts(*extra) == record_facts(facts(*old(extra)), fact_events(node_at(node), nodes_of(lookahead_stack@))));
            }
        },
        _ => {
            proof {
                assert(nodes_of(extra.reachable_references@) =~= nodes_of(old(extra).reachable_references@)
                    + reachable_refs(**node, reachable));
                assert(facts(*extra) == record_facts(facts(*old(extra)), fact_events(node_at(node), nodes_of(lookahead_stack@))));
            }
        },
    }
}

fn visit_all(body: &Vec<RcNode>, lookahead_stack: &Vec<RcNode>, reachable: bool, extra: &mut NodeExtra)
    requires
        extra_wf(*old(extra)),
        all_lookarounds(lookahead_stack@),
        old(extra).capturing_group_to_index@.len() + captures_in(body@) < u64::MAX,
    ensures
        visit_step(*old(extra), *final(extra), reachable_refs_in(body@, reachable), captures_in(body@)),
        facts(*final(extra)) == record_facts(facts(*old(extra)), fact_events_in(body@, nodes_of(lookahead_stack@))),
    decreases body@,
{
    let mut i: usize = 0;
    proof {
        assert(body@.take(0) =~= Seq::<RcNode>::empty());
        assert(nodes_of(extra.reachable_references@) =~= nodes_of(old(extra).reachable_references@)
            + reachable_refs_in(body@.take(0), reachable));
    }
    while i < body.len()
        invariant
            i <= body@.len(),
            all_lookarounds(lookahead_stack@),
            old(extra).capturing_group_to_index@.len() + captures_in(body@) < u64::MAX,
            visit_step(*old(extra), *extra, reachable_refs_in(body@.take(i as int), reachable), captures_in(body@.take(i as int))),
            facts(*extra) == record_facts(facts(*old(extra)), fact_events_in(body@.take(i as int), nodes_of(lookahead_stack@))),
        decreases body.len() - i,
    {
        proof {
            let t = body@.take(i + 1);
            assert(t.drop_last() =~= body@.take(i as int));
            assert(t.last() == body@[i as int]);
            lemma_captures_prefix_bound(body@, i + 1);
        }
        let ghost before = *extra;
        visit(&body[i], lookahead_stack, reachable, extra);
        proof {
            lemma_record_facts_concat(
                facts(*old(extra)),
                fact_events_in(body@.take(i as int), nodes_of(lookahead_stack@)),
                fact_events(node_in(body@, i as int), nodes_of(lookahead_stack@)),
            );
            assert(nodes_of(extra.reachable_references@) =~= nodes_of(old(extra).reachable_references@)
                + reachable_refs_in(body@.take(i + 1), reachable));
        }
        i += 1;
    }
    proof {
        assert(body@.take(i as int) =~= body@);
    }
}

/// A prefix of a list holds no more capturing groups than the list.
proof fn lemma_captures_prefix_bound(s: Seq<RcNode>, j: int)
    requires
        0 <= j <= s.len(),
    ensures
        captures_in(s.take(j)) <= captures_in(s),
    decreases s.len(),
{
    if j < s.len() {
        assert(s.drop_last().take(j) =~= s.take(j));
        lemma_captures_prefix_bound(s.drop_last(), j);
    } else {
        assert(s.take(j) =~= s);
    }
}

} // verus!
