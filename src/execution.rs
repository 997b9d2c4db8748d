//! The graph execution engine: pull evaluation with memoization, cycle
//! detection and dirty propagation.

use crate::node::{inputs_count, node_wf, outputs_count, GraphError, GraphNode};
use crate::snarl::{
    snarl_get, snarl_insert, snarl_new, snarl_nodes, snarl_wire_list, snarl_wires, InPinId, NodeId, OutPinId,
};
use crate::types::{EDataType, EValue, VModel};
use egui_snarl::Snarl;
use std::collections::HashMap;
use vstd::prelude::*;

verus! {

broadcast use {vstd::std_specs::hash::group_hash_axioms, vstd::seq_lib::group_seq_properties};

/// Last computed outputs of each node, by node index. A node without an
/// entry is dirty.
pub struct GraphCache {
    nodes: HashMap<usize, Vec<EValue>>,
}

impl GraphCache {
    pub closed spec fn view(&self) -> Map<usize, Vec<EValue>> {
        self.nodes@
    }

    pub fn new() -> (r: GraphCache)
        ensures
            r.view() == Map::<usize, Vec<EValue>>::empty(),
    {
        GraphCache { nodes: HashMap::new() }
    }

    pub fn clear(&mut self)
        ensures
            final(self).view() == Map::<usize, Vec<EValue>>::empty(),
    {
        self.nodes.clear();
    }

    pub fn insert(&mut self, node: NodeId, values: Vec<EValue>)
        ensures
            final(self).view() == old(self).view().insert(node.0, values),
    {
        self.nodes.insert(node.0, values);
    }

    pub fn get(&self, node: &NodeId) -> (r: Option<&Vec<EValue>>)
        ensures
            self.view().contains_key(node.0) ==> r == Some(&self.view()[node.0]),
            !self.view().contains_key(node.0) ==> r is None,
    {
        self.nodes.get(&node.0)
    }

    pub fn contains_key(&self, node: &NodeId) -> (r: bool)
        ensures
            r == self.view().contains_key(node.0),
    {
        self.nodes.contains_key(&node.0)
    }

    pub fn remove(&mut self, node: &NodeId) -> (r: Option<Vec<EValue>>)
        ensures
            final(self).view() == old(self).view().remove(node.0),
            r is Some <==> old(self).view().contains_key(node.0),
    {
        self.nodes.remove(&node.0)
    }
}

/// A graph with its evaluation state: nodes and wires, inline values of
/// unconnected inputs, the cache, and a count of node executions.
pub struct GraphExecutionContext {
    snarl: Snarl<GraphNode>,
    inline_values: Vec<(InPinId, EValue)>,
    cache: GraphCache,
    executions: u64,
    /// When each cached node was stored, in evaluation order.
    order: Ghost<Map<usize, nat>>,
    clock: Ghost<nat>,
}

/// One wire step from node `a` to node `b`.
pub open spec fn wire_step(w: Set<(OutPinId, InPinId)>, a: usize, b: usize) -> bool {
    exists|x: (OutPinId, InPinId)| #[trigger] w.contains(x) && x.0.node.0 == a && x.1.node.0 == b
}

/// A sequence of nodes, each wired to the next.
pub open spec fn is_path(w: Set<(OutPinId, InPinId)>, p: Seq<usize>) -> bool {
    &&& p.len() >= 1
    &&& forall|i: int| 0 <= i < p.len() - 1 ==> wire_step(w, #[trigger] p[i], p[i + 1])
}

/// Node `b` is downstream of node `a` (or is `a`).
pub open spec fn reaches(w: Set<(OutPinId, InPinId)>, a: usize, b: usize) -> bool {
    exists|p: Seq<usize>| is_path(w, p) && p[0] == a && p.last() == b
}

impl GraphExecutionContext {
    pub closed spec fn nodes(&self) -> Map<usize, GraphNode> {
        snarl_nodes(self.snarl)
    }

    pub closed spec fn wires(&self) -> Set<(OutPinId, InPinId)> {
        snarl_wires(self.snarl)
    }

    pub closed spec fn cache(&self) -> Map<usize, Vec<EValue>> {
        self.cache.view()
    }

    pub closed spec fn executions(&self) -> nat {
        self.executions as nat
    }

    pub closed spec fn inline_values(&self) -> Seq<(InPinId, EValue)> {
        self.inline_values@
    }

    /// The wires into inputs that the target node reads.
    pub open spec fn live_wires(&self) -> Set<(OutPinId, InPinId)> {
        self.wires().filter(|x: (OutPinId, InPinId)| self.nodes().contains_key(x.1.node.0)
            && x.1.input < inputs_count(self.nodes()[x.1.node.0]))
    }

    /// The cached value of an output, if its node is cached.
    pub open spec fn cached_output(&self, pin: OutPinId) -> Option<VModel> {
        if self.cache().contains_key(pin.node.0) && pin.output < self.cache()[pin.node.0]@.len() {
            Some(self.cache()[pin.node.0]@[pin.output as int]@)
        } else {
            None
        }
    }

    /// Wires join existing nodes; a cached node's sources were cached
    /// before it, along every wire into an input that it reads.
    pub closed spec fn wf(&self) -> bool {
        &&& self.nodes().dom().finite()
        &&& forall|w: (OutPinId, InPinId)| #[trigger] self.wires().contains(w) ==> self.nodes().contains_key(w.0.node.0)
            && self.nodes().contains_key(w.1.node.0)
        &&& forall|k: usize| #[trigger] self.nodes().contains_key(k) ==> node_wf(self.nodes()[k])
        &&& forall|k: usize| #[trigger] self.cache().contains_key(k) ==> {
            &&& self.nodes().contains_key(k)
            &&& self.order@.contains_key(k)
            &&& self.order@[k] < self.clock@
            &&& self.cache()[k]@.len() == outputs_count(self.nodes()[k])
        }
        &&& forall|w: (OutPinId, InPinId)| #[trigger] self.live_wires().contains(w) && self.cache().contains_key(w.1.node.0)
            ==> self.cache().contains_key(w.0.node.0) && self.order@[w.0.node.0] < self.order@[w.1.node.0]
        &&& forall|i: int, j: int| 0 <= i < j < self.inline_values().len() ==> (#[trigger] self.inline_values()[i]).0
            != (#[trigger] self.inline_values()[j]).0
    }

    /// An empty graph.
    pub fn new() -> (r: GraphExecutionContext)
        ensures
            r.wf(),
            r.nodes() == Map::<usize, GraphNode>::empty(),
            r.wires() == Set::<(OutPinId, InPinId)>::empty(),
            r.cache() == Map::<usize, Vec<EValue>>::empty(),
            r.executions() == 0,
    {
        let r = GraphExecutionContext {
            snarl: snarl_new(),
            inline_values: Vec::new(),
            cache: GraphCache::new(),
            executions: 0,
            order: Ghost(Map::empty()),
            clock: Ghost(0),
        };
        assert(r.live_wires() =~= Set::empty());
        r
    }

    /// The number of node executions so far.
    pub fn executions_count(&self) -> (r: u64)
        ensures
            r == self.executions(),
    {
        self.executions
    }

    /// Whether the node has cached outputs.
    pub fn is_cached(&self, node: NodeId) -> (r: bool)
        ensures
            r == self.cache().contains_key(node.0),
    {
        self.cache.contains_key(&node)
    }

    /// Adds a node, unwired and dirty.
    pub fn add_node(&mut self, node: GraphNode) -> (r: NodeId)
        requires
            old(self).wf(),
            node_wf(node),
        ensures
            final(self).wf(),
            !old(self).nodes().contains_key(r.0),
            final(self).nodes() == old(self).nodes().insert(r.0, node),
            final(self).wires() == old(self).wires(),
            final(self).cache() == old(self).cache(),
            final(self).executions() == old(self).executions(),
    {
        let id = snarl_insert(&mut self.snarl, node);
        proof {
            assert(self.inline_values() == old(self).inline_values());
            assert(self.nodes().dom() =~= old(self).nodes().dom().insert(id.0));
            assert forall|k: usize| #[trigger] self.cache().contains_key(k) implies {
                &&& self.nodes().contains_key(k)
                &&& self.order@.contains_key(k)
                &&& self.order@[k] < self.clock@
                &&& self.cache()[k]@.len() == outputs_count(self.nodes()[k])
            } by {
                assert(old(self).cache().contains_key(k));
                assert(k != id.0);
            }
            assert forall|w: (OutPinId, InPinId)| #[trigger] self.live_wires().contains(w) implies old(self).live_wires().contains(w) by {
                assert(old(self).wires().contains(w));
                assert(old(self).nodes().contains_key(w.1.node.0));
                assert(w.1.node.0 != id.0);
            }
            assert(self.nodes().dom().finite());
            assert forall|w: (OutPinId, InPinId)| #[trigger] self.wires().contains(w) implies self.nodes().contains_key(w.0.node.0)
                && self.nodes().contains_key(w.1.node.0) by {
                assert(old(self).wires().contains(w));
            }
            assert forall|k: usize| #[trigger] self.nodes().contains_key(k) implies node_wf(self.nodes()[k]) by {
                if k != id.0 {
                    assert(old(self).nodes().contains_key(k));
                }
            }
            assert forall|w: (OutPinId, InPinId)| #[trigger] self.live_wires().contains(w) && self.cache().contains_key(w.1.node.0)
                implies self.cache().contains_key(w.0.node.0) && self.order@[w.0.node.0] < self.order@[w.1.node.0] by {
                assert(old(self).live_wires().contains(w));
            }
        }
        id
    }
}

} // verus!

verus! {

/// A sequence without repeats drawn from a finite set is no longer than it.
proof fn lemma_distinct_bound(s: Seq<usize>, u: Set<usize>)
    requires
        s.no_duplicates(),
        u.finite(),
        forall|i: int| 0 <= i < s.len() ==> u.contains(#[trigger] s[i]),
    ensures
        s.len() <= u.len(),
{
    s.unique_seq_to_set();
    assert(s.to_set().subset_of(u));
    vstd::set_lib::lemma_len_subset(s.to_set(), u);
}

/// Extending a path by one wire.
proof fn lemma_reach_step(w: Set<(OutPinId, InPinId)>, a: usize, x: (OutPinId, InPinId))
    requires
        reaches(w, a, x.0.node.0),
        w.contains(x),
    ensures
        reaches(w, a, x.1.node.0),
{
    let p = choose|p: Seq<usize>| is_path(w, p) && p[0] == a && p.last() == x.0.node.0;
    let q = p.push(x.1.node.0);
    assert forall|i: int| 0 <= i < q.len() - 1 implies wire_step(w, #[trigger] q[i], q[i + 1]) by {
        if i < p.len() - 1 {
            assert(q[i] == p[i] && q[i + 1] == p[i + 1]);
        } else {
            assert(q[i] == x.0.node.0 && q[i + 1] == x.1.node.0);
        }
    }
    assert(is_path(w, q) && q[0] == a && q.last() == x.1.node.0);
}

proof fn lemma_reach_self(w: Set<(OutPinId, InPinId)>, a: usize)
    ensures
        reaches(w, a, a),
{
    let p = seq![a];
    assert(is_path(w, p) && p[0] == a && p.last() == a);
}

/// A set of nodes closed under following wires holds everything a path
/// from one of its members reaches.
proof fn lemma_closed_reach(w: Set<(OutPinId, InPinId)>, s: Seq<usize>, p: Seq<usize>)
    requires
        is_path(w, p),
        s.contains(p[0]),
        forall|u: usize, x: (OutPinId, InPinId)| #[trigger] s.contains(u) && #[trigger] w.contains(x) && x.0.node.0 == u
            ==> s.contains(x.1.node.0),
    ensures
        s.contains(p.last()),
    decreases p.len(),
{
    if p.len() > 1 {
        let q = p.drop_last();
        assert forall|i: int| 0 <= i < q.len() - 1 implies wire_step(w, #[trigger] q[i], q[i + 1]) by {
            assert(q[i] == p[i] && q[i + 1] == p[i + 1]);
        }
        lemma_closed_reach(w, s, q);
        assert(wire_step(w, p[p.len() - 2], p[p.len() - 1]));
        let x = choose|x: (OutPinId, InPinId)| #[trigger] w.contains(x) && x.0.node.0 == p[p.len() - 2] && x.1.node.0 == p[p.len() - 1];
        assert(q.last() == p[p.len() - 2]);
    }
}

fn contains_id(v: &Vec<usize>, x: usize) -> (r: bool)
    ensures
        r == v@.contains(x),
{
    let mut i: usize = 0;
    while i < v.len()
        invariant
            i <= v@.len(),
            forall|q: int| 0 <= q < i ==> v@[q] != x,
        decreases v.len() - i,
    {
        if v[i] == x {
            return true;
        }
        i = i + 1;
    }
    false
}

impl GraphExecutionContext {
    /// Marks the node and everything downstream of it along wires dirty:
    /// their cache entries go, the others stay. Propagation goes on through
    /// nodes that were already dirty and visits each node once.
    pub fn mark_dirty(&mut self, node: NodeId)
        requires
            old(self).wf(),
        ensures
            final(self).wf(),
            mark_dirty_post(*old(self), *final(self), node),
            final(self).nodes() == old(self).nodes(),
            final(self).wires() == old(self).wires(),
            final(self).inline_values() == old(self).inline_values(),
            final(self).executions() == old(self).executions(),
            forall|k: usize| #[trigger] final(self).cache().contains_key(k) ==> old(self).cache().contains_key(k)
                && final(self).cache()[k] == old(self).cache()[k],
            !final(self).cache().contains_key(node.0),
            forall|m: usize| #[trigger] reaches(old(self).wires(), node.0, m) ==> !final(self).cache().contains_key(m),
            forall|m: usize| #[trigger] old(self).cache().contains_key(m) && !reaches(old(self).wires(), node.0, m)
                ==> final(self).cache().contains_key(m) && final(self).cache()[m] == old(self).cache()[m],
    {
        let wires = snarl_wire_list(&self.snarl);
        let mut work: Vec<usize> = Vec::new();
        work.push(node.0);
        let mut marked: Vec<usize> = Vec::new();
        let ghost mut removed: Set<usize> = Set::empty();
        let ghost universe = old(self).nodes().dom().insert(node.0);
        proof {
            lemma_reach_self(old(self).wires(), node.0);
        }
        while work.len() > 0
            invariant
                self.snarl == old(self).snarl,
                self.inline_values == old(self).inline_values,
                self.executions == old(self).executions,
                self.order == old(self).order,
                self.clock == old(self).clock,
                old(self).wf(),
                wires@.to_set() == old(self).wires(),
                universe == old(self).nodes().dom().insert(node.0),
                universe.finite(),
                marked@.no_duplicates(),
                forall|i: int| 0 <= i < marked@.len() ==> universe.contains(#[trigger] marked@[i]),
                forall|i: int| 0 <= i < work@.len() ==> universe.contains(#[trigger] work@[i]),
                forall|i: int| 0 <= i < marked@.len() ==> reaches(old(self).wires(), node.0, #[trigger] marked@[i]),
                forall|i: int| 0 <= i < work@.len() ==> reaches(old(self).wires(), node.0, #[trigger] work@[i]),
                marked@.contains(node.0) || work@.contains(node.0),
                forall|u: usize| #[trigger] removed.contains(u) ==> marked@.contains(u),
                self.cache() == old(self).cache().remove_keys(removed),
                forall|u: usize| #[trigger] marked@.contains(u) ==> !self.cache().contains_key(u),
                forall|u: usize, x: (OutPinId, InPinId)| #[trigger] marked@.contains(u) && #[trigger] old(self).wires().contains(x)
                    && x.0.node.0 == u ==> marked@.contains(x.1.node.0) || work@.contains(x.1.node.0),
            decreases universe.len() - marked@.len(), work@.len(),
        {
            let u = work.pop().unwrap();
            assert(universe.contains(u));
            assert(reaches(old(self).wires(), node.0, u));
            if contains_id(&marked, u) {
                continue;
            }
            proof {
                lemma_distinct_bound(marked@, universe);
                assert(marked@.push(u).no_duplicates()) by {
                    assert forall|i: int, j: int| 0 <= i < j < marked@.push(u).len() implies marked@.push(u)[i] != marked@.push(u)[j] by {
                        if j == marked@.len() {
                            assert(marked@.push(u)[i] == marked@[i]);
                        }
                    }
                }
                lemma_distinct_bound(marked@.push(u), universe);
            }
            marked.push(u);
            let was = self.cache.remove(&NodeId(u));
            proof {
                if was is Some {
                    assert(self.cache() =~= old(self).cache().remove_keys(removed.insert(u)));
                    removed = removed.insert(u);
                } else {
                    assert(self.cache() =~= old(self).cache().remove_keys(removed));
                }
            }
            let mut j: usize = 0;
            while j < wires.len()
                invariant
                    j <= wires@.len(),
                    self.snarl == old(self).snarl,
                    self.inline_values == old(self).inline_values,
                    self.executions == old(self).executions,
                    self.order == old(self).order,
                    self.clock == old(self).clock,
                    old(self).wf(),
                    wires@.to_set() == old(self).wires(),
                    universe == old(self).nodes().dom().insert(node.0),
                    universe.finite(),
                    marked@.no_duplicates(),
                    marked@.len() <= universe.len(),
                    marked@.contains(u),
                    reaches(old(self).wires(), node.0, u),
                    forall|i: int| 0 <= i < marked@.len() ==> universe.contains(#[trigger] marked@[i]),
                    forall|i: int| 0 <= i < work@.len() ==> universe.contains(#[trigger] work@[i]),
                    forall|i: int| 0 <= i < marked@.len() ==> reaches(old(self).wires(), node.0, #[trigger] marked@[i]),
                    forall|i: int| 0 <= i < work@.len() ==> reaches(old(self).wires(), node.0, #[trigger] work@[i]),
                    marked@.contains(node.0) || work@.contains(node.0),
                    forall|v: usize| #[trigger] removed.contains(v) ==> marked@.contains(v),
                    self.cache() == old(self).cache().remove_keys(removed),
                    forall|v: usize| #[trigger] marked@.contains(v) ==> !self.cache().contains_key(v),
                    forall|v: usize, x: (OutPinId, InPinId)| #[trigger] marked@.contains(v) && #[trigger] old(self).wires().contains(x)
                        && x.0.node.0 == v && v != u ==> marked@.contains(x.1.node.0) || work@.contains(x.1.node.0),
                    forall|q: int| 0 <= q < j && (#[trigger] wires@[q]).0.node.0 == u ==> marked@.contains(wires@[q].1.node.0)
                        || work@.contains(wires@[q].1.node.0),
                decreases wires.len() - j,
            {
                if wires[j].0.node.0 == u {
                    proof {
                        assert(wires@.to_set().contains(wires@[j as int]));
                        lemma_reach_step(old(self).wires(), node.0, wires@[j as int]);
                    }
                    work.push(wires[j].1.node.0);
                }
                j = j + 1;
            }
            proof {
                assert forall|v: usize, x: (OutPinId, InPinId)| #[trigger] marked@.contains(v) && #[trigger] old(self).wires().contains(x)
                    && x.0.node.0 == v implies marked@.contains(x.1.node.0) || work@.contains(x.1.node.0) by {
                    if v == u {
                        assert(wires@.to_set().contains(x));
                        let q = choose|q: int| 0 <= q < wires@.len() && wires@[q] == x;
                        assert(wires@[q].0.node.0 == u);
                    }
                }
            }
        }
        proof {
            assert(marked@.contains(node.0));
            assert(self.inline_values() == old(self).inline_values());
            assert forall|w: (OutPinId, InPinId)| #[trigger] self.live_wires().contains(w) && self.cache().contains_key(w.1.node.0)
                implies self.cache().contains_key(w.0.node.0) && self.order@[w.0.node.0] < self.order@[w.1.node.0] by {
                assert(old(self).live_wires().contains(w));
                assert(old(self).cache().contains_key(w.1.node.0));
                if removed.contains(w.0.node.0) {
                    assert(old(self).wires().contains(w));
                    assert(marked@.contains(w.0.node.0));
                    assert(marked@.contains(w.1.node.0));
                }
            }
            assert forall|m: usize| #[trigger] reaches(old(self).wires(), node.0, m) implies !self.cache().contains_key(m) by {
                let p = choose|p: Seq<usize>| is_path(old(self).wires(), p) && p[0] == node.0 && p.last() == m;
                lemma_closed_reach(old(self).wires(), marked@, p);
            }
            assert forall|m: usize| #[trigger] old(self).cache().contains_key(m) && !reaches(old(self).wires(), node.0, m)
                implies self.cache().contains_key(m) && self.cache()[m] == old(self).cache()[m] by {
                if removed.contains(m) {
                    assert(marked@.contains(m));
                    let i = choose|i: int| 0 <= i < marked@.len() && marked@[i] == m;
                    assert(reaches(old(self).wires(), node.0, marked@[i]));
                }
            }
        }
    }
}

} // verus!

verus! {

/// What marking `node` dirty does to the cache: the entries of the node
/// and of every node downstream of it along wires go, the others stay.
pub open spec fn mark_dirty_post(old: GraphExecutionContext, new: GraphExecutionContext, node: NodeId) -> bool {
    &&& new.nodes() == old.nodes()
    &&& new.wires() == old.wires()
    &&& !new.cache().contains_key(node.0)
    &&& forall|m: usize| #[trigger] reaches(old.wires(), node.0, m) ==> !new.cache().contains_key(m)
    &&& forall|m: usize| #[trigger] old.cache().contains_key(m) && !reaches(old.wires(), node.0, m)
        ==> new.cache().contains_key(m) && new.cache()[m] == old.cache()[m]
}

/// The wire from output 0 of `a` to input 0 of `b`.
pub open spec fn first_wire(a: NodeId, b: NodeId) -> (OutPinId, InPinId) {
    (OutPinId { node: a, output: 0 }, InPinId { node: b, input: 0 })
}

proof fn lemma_chain_paths(w: Set<(OutPinId, InPinId)>, a: NodeId, b: NodeId, c: NodeId, p: Seq<usize>)
    requires
        w == set![first_wire(a, b), first_wire(b, c)],
        a.0 != b.0,
        a.0 != c.0,
        is_path(w, p),
        p[0] == b.0,
    ensures
        forall|i: int| 0 <= i < p.len() ==> #[trigger] p[i] == b.0 || p[i] == c.0,
    decreases p.len(),
{
    if p.len() > 1 {
        let q = p.drop_last();
        assert forall|i: int| 0 <= i < q.len() - 1 implies wire_step(w, #[trigger] q[i], q[i + 1]) by {
            assert(q[i] == p[i] && q[i + 1] == p[i + 1]);
        }
        lemma_chain_paths(w, a, b, c, q);
        let k = p.len() - 2;
        assert(q[k] == p[k]);
        assert(wire_step(w, p[k], p[k + 1]));
        let x = choose|x: (OutPinId, InPinId)| #[trigger] w.contains(x) && x.0.node.0 == p[k] && x.1.node.0 == p[k + 1];
        assert forall|i: int| 0 <= i < p.len() implies #[trigger] p[i] == b.0 || p[i] == c.0 by {
            if i < p.len() - 1 {
                assert(p[i] == q[i]);
            }
        }
    }
}

/// Dirty propagation on a chain A→B→C (output 0 wired to input 0):
/// marking A dirty invalidates B and C; marking B dirty
/// invalidates C and leaves A's entry as it was.
pub proof fn lemma_dirty_chain(
    c0: GraphExecutionContext,
    c1: GraphExecutionContext,
    a: NodeId,
    b: NodeId,
    c: NodeId,
    marked: NodeId,
)
    requires
        c0.wires() == set![first_wire(a, b), first_wire(b, c)],
        a.0 != b.0 && b.0 != c.0 && a.0 != c.0,
        mark_dirty_post(c0, c1, marked),
        marked == a || marked == b,
    ensures
        marked == a ==> !c1.cache().contains_key(b.0) && !c1.cache().contains_key(c.0),
        marked == b ==> !c1.cache().contains_key(c.0),
        marked == b && c0.cache().contains_key(a.0) ==> c1.cache().contains_key(a.0) && c1.cache()[a.0] == c0.cache()[a.0],
{
    let w = c0.wires();
    let live = c0.wires();
    assert(live.contains(first_wire(a, b)));
    assert(live.contains(first_wire(b, c)));
    let path_ab = seq![a.0, b.0];
    assert(wire_step(live, path_ab[0], path_ab[1]));
    assert(is_path(live, path_ab));
    let path_abc = seq![a.0, b.0, c.0];
    assert(wire_step(live, path_abc[1], path_abc[2]));
    assert(is_path(live, path_abc));
    let path_bc = seq![b.0, c.0];
    assert(wire_step(live, path_bc[0], path_bc[1]));
    assert(is_path(live, path_bc));
    if marked == a {
        assert(reaches(live, a.0, b.0)) by {
            assert(path_ab[0] == a.0 && path_ab.last() == b.0);
        }
        assert(reaches(live, a.0, c.0)) by {
            assert(path_abc[0] == a.0 && path_abc.last() == c.0);
        }
    } else {
        assert(reaches(live, b.0, c.0)) by {
            assert(path_bc[0] == b.0 && path_bc.last() == c.0);
        }
        if reaches(w, b.0, a.0) {
            let p = choose|p: Seq<usize>| is_path(w, p) && p[0] == b.0 && p.last() == a.0;
            lemma_chain_paths(w, a, b, c, p);
            assert(p[p.len() - 1] == b.0 || p[p.len() - 1] == c.0);
        }
    }
}

} // verus!

verus! {

/// Position of the first inline value of the pin among the first `n`.
pub open spec fn inline_index(vals: Seq<(InPinId, EValue)>, pin: InPinId, n: nat) -> Option<int>
    decreases n,
{
    if n == 0 || n > vals.len() {
        None
    } else {
        match inline_index(vals, pin, (n - 1) as nat) {
            Some(k) => Some(k),
            None => if vals[n - 1].0 == pin { Some(n - 1) } else { None },
        }
    }
}

proof fn lemma_inline_index_stable(vals: Seq<(InPinId, EValue)>, pin: InPinId, k: nat, n: nat)
    requires
        k <= n <= vals.len(),
        inline_index(vals, pin, k) is Some,
    ensures
        inline_index(vals, pin, n) == inline_index(vals, pin, k),
    decreases n - k,
{
    if n > k {
        lemma_inline_index_stable(vals, pin, k, (n - 1) as nat);
    }
}

/// The evaluation stack holds distinct existing nodes.
pub open spec fn stack_ok(ctx: GraphExecutionContext, stack: Seq<usize>) -> bool {
    &&& stack.no_duplicates()
    &&& forall|i: int| 0 <= i < stack.len() ==> ctx.nodes().contains_key(#[trigger] stack[i])
}

/// What every step of an evaluation keeps: the graph, the cached entries,
/// the stack's prefix; nodes that become cached were not on the stack.
pub open spec fn eval_frame(
    old: GraphExecutionContext,
    new: GraphExecutionContext,
    old_stack: Seq<usize>,
    new_stack: Seq<usize>,
) -> bool {
    &&& new.nodes() == old.nodes()
    &&& new.wires() == old.wires()
    &&& new.inline_values() == old.inline_values()
    &&& new.executions() >= old.executions()
    &&& forall|k: usize| #[trigger] old.cache().contains_key(k) ==> new.cache().contains_key(k) && new.cache()[k] == old.cache()[k]
    &&& forall|k: usize| #[trigger] new.cache().contains_key(k) && !old.cache().contains_key(k) ==> !old_stack.contains(k)
    &&& new_stack.len() >= old_stack.len()
    &&& new_stack.subrange(0, old_stack.len() as int) == old_stack
    &&& stack_ok(new, new_stack)
}

/// The target node takes a connection from the source: a list node that
/// has room takes any type while empty, else the types must fit.
pub open spec fn accepts(reg: crate::registry::ETypesRegistry, src: GraphNode, dst: GraphNode) -> bool {
    match dst {
        GraphNode::List(l) => l.items_count() + 1 < usize::MAX && (l.items_count() == 0 || port_fits(
            reg,
            src,
            crate::node::input_port(dst),
        )),
        _ => port_fits(reg, src, crate::node::input_port(dst)),
    }
}

/// A list node after a connection into input `input`: an empty one takes
/// the incoming type, and the free input becomes an item.
pub open spec fn list_connected(l: crate::node::ListNode, new: GraphNode, input: usize, incoming: Option<EDataType>) -> bool {
    &&& new is List
    &&& new->List_0.fixed() == l.fixed()
    &&& new->List_0.item() == if l.items_count() == 0 { incoming->Some_0 } else { l.item() }
    &&& new->List_0.items_count() == if input == l.items_count() { l.items_count() + 1 } else { l.items_count() }
}

/// The wire leaves output `out` for an input of another node whose type
/// differs from `ty`.
pub open spec fn droppable(g: GraphExecutionContext, out: OutPinId, ty: EDataType, w: (OutPinId, InPinId)) -> bool {
    &&& w.0 == out
    &&& w.1.node != out.node
    &&& g.nodes().contains_key(w.1.node.0)
    &&& w.1.input < inputs_count(g.nodes()[w.1.node.0])
    &&& crate::node::input_port(g.nodes()[w.1.node.0]) is Specific
    &&& !crate::types::type_eq(crate::node::input_port(g.nodes()[w.1.node.0])->Specific_0, ty)
}

/// Whether the wire from `o` into input `j` of list node `node` is there
/// once the items after the removed item `t`, up to input `i`, have moved
/// down one input; `w0` holds the wires before any moved.
pub open spec fn shifted(w0: Set<(OutPinId, InPinId)>, node: NodeId, t: usize, i: usize, o: OutPinId, j: usize) -> bool {
    if j < t || j > i {
        w0.contains((o, InPinId { node, input: j }))
    } else if j == t {
        w0.contains((o, InPinId { node, input: t })) || (i > t && w0.contains((o, InPinId { node, input: (t + 1) as usize })))
    } else if j < i {
        w0.contains((o, InPinId { node, input: (j + 1) as usize }))
    } else {
        false
    }
}

/// Disconnecting the wire takes an item out of a list node.
pub open spec fn list_item_removed(g: GraphExecutionContext, from: OutPinId, to: InPinId) -> bool {
    &&& g.nodes().contains_key(to.node.0)
    &&& g.nodes()[to.node.0] is List
    &&& g.wires().contains((from, to))
    &&& to.input < g.nodes()[to.node.0]->List_0.items_count()
}

/// Two distinct outputs are wired into the input.
pub open spec fn fan_in(wires: Set<(OutPinId, InPinId)>, pin: InPinId) -> bool {
    exists|o1: OutPinId, o2: OutPinId| o1 != o2 && wires.contains((o1, pin)) && wires.contains((o2, pin))
}

/// No output is wired into the input.
pub open spec fn unconnected(wires: Set<(OutPinId, InPinId)>, pin: InPinId) -> bool {
    forall|o: OutPinId| !#[trigger] wires.contains((o, pin))
}

/// What reading an input of `node` yields: with several sources an error
/// and no change; without a source its inline value where the node takes
/// inline values and one is set, else its port's default.
pub open spec fn input_read_post(
    old: GraphExecutionContext,
    new: GraphExecutionContext,
    reg: crate::registry::ETypesRegistry,
    node: GraphNode,
    pin: InPinId,
    r: Result<EValue, GraphError>,
) -> bool {
    &&& fan_in(old.wires(), pin) ==> r == Err::<EValue, GraphError>(GraphError::MultipleSources(pin)) && new == old
    &&& forall|o: OutPinId| #[trigger] sole_source(old.wires(), pin, o) ==> (r matches Ok(v) ==> new.cached_output(o) == Some(v@))
    &&& unconnected(old.wires(), pin) ==> new == old && match inline_index(old.inline_values(), pin, old.inline_values().len()) {
        Some(k) if crate::node::inline_values_allowed(node) => r matches Ok(v) && v@ == old.inline_values()[k].1@,
        _ => match r {
            Ok(v) => crate::node::default_input(reg, node) == Ok::<VModel, crate::registry::RegistryError>(v@),
            Err(e) => crate::node::default_input(reg, node) is Err,
        },
    }
}

/// The input's only source is `o`.
pub open spec fn sole_source(wires: Set<(OutPinId, InPinId)>, pin: InPinId, o: OutPinId) -> bool {
    &&& wires.contains((o, pin))
    &&& forall|o2: OutPinId| #[trigger] wires.contains((o2, pin)) ==> o2 == o
}

/// An output of node `src` fits an input port.
pub open spec fn port_fits(reg: crate::registry::ETypesRegistry, src: GraphNode, port: crate::node::NodePortType) -> bool {
    match port {
        crate::node::NodePortType::BasedOnSource => true,
        crate::node::NodePortType::Specific(t) => match crate::node::output_type(reg, src) {
            Some(o) => crate::types::type_eq(o, t),
            None => false,
        },
    }
}

/// Node `k` can be pulled: it is cached, or it is not among the nodes being
/// evaluated (`visited`), it can run, and each of its inputs can be read.
/// `fuel` bounds the depth of the nodes pulled.
pub open spec fn ev(c: GraphExecutionContext, reg: crate::registry::ETypesRegistry, k: usize, visited: Set<usize>, fuel: nat) -> bool
    decreases fuel, 0nat, 0nat,
{
    &&& c.nodes().contains_key(k)
    &&& (c.cache().contains_key(k) || {
        &&& fuel > 0
        &&& !visited.contains(k)
        &&& crate::node::node_runs(reg, c.nodes()[k])
        &&& inputs_ok(c, reg, k, visited.insert(k), (fuel - 1) as nat, inputs_count(c.nodes()[k]))
    })
}

/// The first `n` inputs of node `k` can be read.
pub open spec fn inputs_ok(c: GraphExecutionContext, reg: crate::registry::ETypesRegistry, k: usize, visited: Set<usize>, fuel: nat, n: nat) -> bool
    decreases fuel, 2nat, n,
{
    if n == 0 {
        true
    } else {
        inputs_ok(c, reg, k, visited, fuel, (n - 1) as nat) && input_ok(
            c,
            reg,
            InPinId { node: NodeId(k), input: (n - 1) as usize },
            visited,
            fuel,
        )
    }
}

/// An input can be read: unconnected, with an inline value where the node
/// takes one or else a default that builds; or with a single source whose
/// output exists, fits the port, and whose node can be pulled.
pub open spec fn input_ok(c: GraphExecutionContext, reg: crate::registry::ETypesRegistry, pin: InPinId, visited: Set<usize>, fuel: nat) -> bool
    decreases fuel, 1nat, 0nat,
{
    let n = c.nodes()[pin.node.0];
    if unconnected(c.wires(), pin) {
        (crate::node::inline_values_allowed(n) && inline_index(c.inline_values(), pin, c.inline_values().len()) is Some)
            || crate::node::default_input(reg, n) is Ok
    } else {
        let o = choose|o: OutPinId| sole_source(c.wires(), pin, o);
        &&& sole_source(c.wires(), pin, o)
        &&& c.nodes().contains_key(o.node.0)
        &&& o.output < outputs_count(c.nodes()[o.node.0])
        &&& port_fits(reg, c.nodes()[o.node.0], crate::node::input_port(n))
        &&& ev(c, reg, o.node.0, visited, fuel)
    }
}

/// Pulling the uncached node `k` with `visited` being evaluated meets the
/// node `x` again: following first inputs, each with a single uncached
/// source, reaches `x` while `x` is being evaluated.
pub open spec fn cycle_at(c: GraphExecutionContext, k: usize, visited: Set<usize>, x: usize, fuel: nat) -> bool
    decreases fuel,
{
    let o = choose|o: OutPinId| sole_source(c.wires(), InPinId { node: NodeId(k), input: 0 }, o);
    &&& fuel > 0
    &&& c.nodes().contains_key(k)
    &&& !c.cache().contains_key(k)
    &&& !visited.contains(k)
    &&& sole_source(c.wires(), InPinId { node: NodeId(k), input: 0 }, o)
    &&& !c.cache().contains_key(o.node.0)
    &&& c.nodes().contains_key(o.node.0)
    &&& ((visited.insert(k).contains(o.node.0) && x == o.node.0) || cycle_at(c, o.node.0, visited.insert(k), x, (fuel - 1) as nat))
}

/// The second context extends the first: same graph and inline values,
/// cached entries kept.
pub open spec fn grows(c1: GraphExecutionContext, c2: GraphExecutionContext) -> bool {
    &&& c2.nodes() == c1.nodes()
    &&& c2.wires() == c1.wires()
    &&& c2.inline_values() == c1.inline_values()
    &&& forall|k: usize| #[trigger] c1.cache().contains_key(k) ==> c2.cache().contains_key(k) && c2.cache()[k] == c1.cache()[k]
}

/// Every node pushed on the stack since `old_stack` is cached.
pub open spec fn pushed_cached(c: GraphExecutionContext, old_stack: Seq<usize>, new_stack: Seq<usize>) -> bool {
    forall|q: int| old_stack.len() <= q < new_stack.len() ==> c.cache().contains_key(#[trigger] new_stack[q])
}

/// The sole source of an input is the one `choose` picks.
proof fn lemma_sole_source_unique(w: Set<(OutPinId, InPinId)>, pin: InPinId, o: OutPinId)
    requires
        sole_source(w, pin, o),
    ensures
        (choose|o2: OutPinId| sole_source(w, pin, o2)) == o,
{
    let o2 = choose|o2: OutPinId| sole_source(w, pin, o2);
    assert(w.contains((o2, pin)));
}

proof fn lemma_inputs_ok_at(c: GraphExecutionContext, reg: crate::registry::ETypesRegistry, k: usize, v: Set<usize>, fuel: nat, n: nat, i: nat)
    requires
        inputs_ok(c, reg, k, v, fuel, n),
        i < n,
    ensures
        input_ok(c, reg, InPinId { node: NodeId(k), input: i as usize }, v, fuel),
    decreases n,
{
    if i < n - 1 {
        lemma_inputs_ok_at(c, reg, k, v, fuel, (n - 1) as nat, i);
    }
}

proof fn lemma_ev_mono(
    c1: GraphExecutionContext,
    c2: GraphExecutionContext,
    reg: crate::registry::ETypesRegistry,
    k: usize,
    v1: Set<usize>,
    v2: Set<usize>,
    fuel: nat,
)
    requires
        ev(c1, reg, k, v1, fuel),
        grows(c1, c2),
        forall|x: usize| #[trigger] v2.contains(x) ==> v1.contains(x) || c2.cache().contains_key(x),
    ensures
        ev(c2, reg, k, v2, fuel),
    decreases fuel, 0nat, 0nat,
{
    if !c2.cache().contains_key(k) {
        assert(!c1.cache().contains_key(k));
        lemma_inputs_ok_mono(c1, c2, reg, k, v1.insert(k), v2.insert(k), (fuel - 1) as nat, inputs_count(c1.nodes()[k]));
    }
}

proof fn lemma_inputs_ok_mono(
    c1: GraphExecutionContext,
    c2: GraphExecutionContext,
    reg: crate::registry::ETypesRegistry,
    k: usize,
    v1: Set<usize>,
    v2: Set<usize>,
    fuel: nat,
    n: nat,
)
    requires
        inputs_ok(c1, reg, k, v1, fuel, n),
        grows(c1, c2),
        forall|x: usize| #[trigger] v2.contains(x) ==> v1.contains(x) || c2.cache().contains_key(x),
    ensures
        inputs_ok(c2, reg, k, v2, fuel, n),
    decreases fuel, 2nat, n,
{
    if n > 0 {
        lemma_inputs_ok_mono(c1, c2, reg, k, v1, v2, fuel, (n - 1) as nat);
        lemma_input_ok_mono(c1, c2, reg, InPinId { node: NodeId(k), input: (n - 1) as usize }, v1, v2, fuel);
    }
}

proof fn lemma_input_ok_mono(
    c1: GraphExecutionContext,
    c2: GraphExecutionContext,
    reg: crate::registry::ETypesRegistry,
    pin: InPinId,
    v1: Set<usize>,
    v2: Set<usize>,
    fuel: nat,
)
    requires
        input_ok(c1, reg, pin, v1, fuel),
        grows(c1, c2),
        forall|x: usize| #[trigger] v2.contains(x) ==> v1.contains(x) || c2.cache().contains_key(x),
    ensures
        input_ok(c2, reg, pin, v2, fuel),
    decreases fuel, 1nat, 0nat,
{
    if !unconnected(c1.wires(), pin) {
        let o = choose|o: OutPinId| sole_source(c1.wires(), pin, o);
        lemma_ev_mono(c1, c2, reg, o.node.0, v1, v2, fuel);
    }
}

/// The error is the cyclic-dependency error at `x`.
pub open spec fn r_is_cycle(e: GraphError, x: usize) -> bool {
    e == GraphError::CyclicDependency(NodeId(x))
}

/// Evaluation steps compose.
proof fn lemma_frame_trans(
    a: GraphExecutionContext,
    b: GraphExecutionContext,
    c: GraphExecutionContext,
    sa: Seq<usize>,
    sb: Seq<usize>,
    sc: Seq<usize>,
)
    requires
        eval_frame(a, b, sa, sb),
        eval_frame(b, c, sb, sc),
    ensures
        eval_frame(a, c, sa, sc),
{
    assert(sc.subrange(0, sa.len() as int) =~= sc.subrange(0, sb.len() as int).subrange(0, sa.len() as int));
    assert forall|k: usize| #[trigger] c.cache().contains_key(k) && !a.cache().contains_key(k) implies !sa.contains(k) by {
        if !b.cache().contains_key(k) {
            if sa.contains(k) {
                let j = choose|j: int| 0 <= j < sa.len() && sa[j] == k;
                assert(sb[j] == sa[j]);
            }
        }
    }
}

impl GraphExecutionContext {
    proof fn lemma_stack_bound(&self, stack: Seq<usize>)
        requires
            self.wf(),
            stack_ok(*self, stack),
        ensures
            stack.len() <= self.nodes().dom().len(),
    {
        lemma_distinct_bound(stack, self.nodes().dom());
    }

    /// The inline value of an input, if one was set.
    fn inline_value(&self, pin: InPinId) -> (r: Option<&EValue>)
        ensures
            match inline_index(self.inline_values(), pin, self.inline_values().len()) {
                Some(k) => r == Some(&self.inline_values()[k].1),
                None => r is None,
            },
    {
        let mut i: usize = 0;
        while i < self.inline_values.len()
            invariant
                i <= self.inline_values@.len(),
                inline_index(self.inline_values@, pin, i as nat) is None,
            decreases self.inline_values.len() - i,
        {
            if self.inline_values[i].0 == pin {
                proof {
                    lemma_inline_index_stable(self.inline_values@, pin, (i + 1) as nat, self.inline_values@.len());
                }
                return Some(&self.inline_values[i].1);
            }
            i = i + 1;
        }
        None
    }

    fn eval_node(&mut self, reg: &crate::registry::ETypesRegistry, stack: &mut Vec<usize>, id: NodeId) -> (r: Result<(), GraphError>)
        requires
            old(self).wf(),
            stack_ok(*old(self), old(stack)@),
            !old(self).cache().contains_key(id.0),
        ensures
            final(self).wf(),
            eval_frame(*old(self), *final(self), old(stack)@, final(stack)@),
            r is Ok ==> final(self).cache().contains_key(id.0) && pushed_cached(*final(self), old(stack)@, final(stack)@),
            r is Err ==> !final(self).cache().contains_key(id.0),
            !old(self).nodes().contains_key(id.0) ==> r == Err::<(), GraphError>(GraphError::UnknownNode(id))
                && *final(self) == *old(self) && final(stack)@ == old(stack)@,
            old(self).nodes().contains_key(id.0) && old(stack)@.contains(id.0) ==> r == Err::<(), GraphError>(
                GraphError::CyclicDependency(id),
            ) && *final(self) == *old(self) && final(stack)@ == old(stack)@,
            (exists|f: nat| ev(*old(self), *reg, id.0, old(stack)@.to_set(), f)) ==> r is Ok,
            forall|x: usize, f: nat| #[trigger] cycle_at(*old(self), id.0, old(stack)@.to_set(), x, f) ==> r == Err::<
                (),
                GraphError,
            >(GraphError::CyclicDependency(NodeId(x))),
        decreases old(self).nodes().dom().len() - old(stack)@.len(), 0nat,
    {
        proof {
            old(self).lemma_stack_bound(old(stack)@);
        }
        let ghost s0 = old(stack)@.to_set();
        let ghost can = exists|f: nat| ev(*old(self), *reg, id.0, s0, f);
        let ghost f: nat = if can { choose|f: nat| ev(*old(self), *reg, id.0, s0, f) } else { 0 };
        proof {
            assert(stack@.subrange(0, stack@.len() as int) =~= stack@);
        }
        let node = match snarl_get(&self.snarl, id) {
            Some(n) => n.duplicate(),
            None => {
                return Err(GraphError::UnknownNode(id));
            },
        };
        if contains_id(stack, id.0) {
            return Err(GraphError::CyclicDependency(id));
        }
        proof {
        }
        stack.push(id.0);
        proof {
            assert(stack@.subrange(0, old(stack)@.len() as int) =~= old(stack)@);
            lemma_distinct_bound(stack@, self.nodes().dom());
            assert(stack@.to_set() =~= s0.insert(id.0));
        }
        let count = node.inputs_count();
        let mut inputs: Vec<EValue> = Vec::new();
        let mut i: usize = 0;
        while i < count
            invariant
                i <= count,
                count == inputs_count(node),
                node == old(self).nodes()[id.0],
                old(self).nodes().contains_key(id.0),
                node_wf(node),
                inputs@.len() == i,
                self.wf(),
                eval_frame(*old(self), *self, old(stack)@, stack@),
                stack@.len() > old(stack)@.len(),
                stack@[old(stack)@.len() as int] == id.0,
                i == 0 ==> stack@ == old(stack)@.push(id.0) && *self == *old(self),
                forall|q: int| old(stack)@.len() < q < stack@.len() ==> self.cache().contains_key(#[trigger] stack@[q]),
                !self.cache().contains_key(id.0),
                !old(stack)@.contains(id.0),
                s0 == old(stack)@.to_set(),
                can == (exists|f: nat| ev(*old(self), *reg, id.0, s0, f)),
                can ==> ev(*old(self), *reg, id.0, s0, f),
                i > 0 ==> forall|x: usize, g: nat| !#[trigger] cycle_at(*old(self), id.0, s0, x, g),
                forall|o: OutPinId, p: InPinId| #[trigger] self.wires().contains((o, p)) && p.node == id && p.input < i
                    ==> self.cache().contains_key(o.node.0),
            decreases count - i,
        {
            let ghost before = *self;
            let ghost stack_before = stack@;
            let pin = InPinId { node: id, input: i };
            proof {
                self.lemma_stack_bound(stack@);
                if can {
                    assert(NodeId(id.0) == id);
                    assert(!old(self).cache().contains_key(id.0));
                    lemma_inputs_ok_at(*old(self), *reg, id.0, s0.insert(id.0), (f - 1) as nat, inputs_count(old(self).nodes()[id.0]), i as nat);
                    assert(InPinId { node: NodeId(id.0), input: (i as nat) as usize } == pin);
                    assert forall|x: usize| #[trigger] stack@.to_set().contains(x) implies s0.insert(id.0).contains(x)
                        || self.cache().contains_key(x) by {
                        let q = choose|q: int| 0 <= q < stack@.len() && stack@[q] == x;
                        if q < old(stack)@.len() {
                            assert(stack@.subrange(0, old(stack)@.len() as int)[q] == old(stack)@[q]);
                            assert(old(stack)@.contains(x));
                        }
                    }
                    lemma_input_ok_mono(*old(self), *self, *reg, pin, s0.insert(id.0), stack@.to_set(), (f - 1) as nat);
                }
            }
            let res = self.read_input_inner(reg, stack, pin, &node);
            proof {
                lemma_frame_trans(*old(self), before, *self, old(stack)@, stack_before, stack@);
                if can {
                    assert(input_ok(before, *reg, pin, stack_before.to_set(), (f - 1) as nat));
                    assert(res is Ok);
                }
            }
            let v = match res {
                Ok(v) => v,
                Err(e) => {
                    proof {
                        if i == 0 {
                            assert forall|x: usize, g: nat| #[trigger] cycle_at(*old(self), id.0, s0, x, g) implies r_is_cycle(
                                e,
                                x,
                            ) by {
                                let o = choose|o: OutPinId| sole_source(old(self).wires(), InPinId { node: NodeId(id.0), input: 0 }, o);
                                assert(NodeId(id.0) == id);
                                assert(pin == InPinId { node: id, input: 0 });
                                assert(stack_before.to_set() =~= s0.insert(id.0));
                                assert(before == *old(self));
                                assert(sole_source(before.wires(), pin, o));
                                if s0.insert(id.0).contains(o.node.0) && x == o.node.0 {
                                    assert(stack_before.to_set().contains(o.node.0));
                                    assert(stack_before.contains(o.node.0));
                                    assert(o.node == NodeId(x));
                                } else {
                                    assert(cycle_at(before, o.node.0, stack_before.to_set(), x, (g - 1) as nat));
                                }
                            }
                        }
                    }
                    return Err(e);
                },
            };
            proof {
                if i == 0 {
                    assert forall|x: usize, g: nat| !#[trigger] cycle_at(*old(self), id.0, s0, x, g) by {
                        if cycle_at(*old(self), id.0, s0, x, g) {
                            let o = choose|o: OutPinId| sole_source(old(self).wires(), InPinId { node: NodeId(id.0), input: 0 }, o);
                            assert(NodeId(id.0) == id);
                            assert(pin == InPinId { node: id, input: 0 });
                            assert(stack_before.to_set() =~= s0.insert(id.0));
                            assert(before == *old(self));
                            assert(sole_source(before.wires(), pin, o));
                            if s0.insert(id.0).contains(o.node.0) && x == o.node.0 {
                                assert(stack_before.to_set().contains(o.node.0));
                                assert(stack_before.contains(o.node.0));
                            } else {
                                assert(cycle_at(before, o.node.0, stack_before.to_set(), x, (g - 1) as nat));
                            }
                                        let o = choose|o: OutPinId| sole_source(old(self).wires(), InPinId { node: NodeId(id.0), input: 0 }, o);
                                assert(NodeId(id.0) == id);
                            assert(pin == InPinId { node: id, input: 0 });
                            assert(stack_before.to_set() =~= s0.insert(id.0));
                            if s0.insert(id.0).contains(o.node.0) && x == o.node.0 {
                                assert(stack_before.to_set().contains(o.node.0));
                                assert(stack_before.contains(o.node.0));
                            }
                        }
                    }
                }
                assert(stack_before.contains(id.0));
                assert(!self.cache().contains_key(id.0));
                assert(stack@.subrange(0, stack_before.len() as int) == stack_before);
                let j = choose|j: int| 0 <= j < stack_before.len() && stack_before[j] == id.0;
                assert(stack@[j] == stack_before[j]);
                assert forall|o: OutPinId, p: InPinId| #[trigger] self.wires().contains((o, p)) && p.node == id && p.input < i + 1
                    implies self.cache().contains_key(o.node.0) by {
                    if p.input < i {
                        assert(before.wires().contains((o, p)));
                    } else {
                        assert(p == InPinId { node: id, input: i });
                    }
                }
                assert forall|q: int| old(stack)@.len() < q < stack@.len() implies self.cache().contains_key(#[trigger] stack@[q]) by {
                    if q < stack_before.len() {
                        assert(stack@.subrange(0, stack_before.len() as int)[q] == stack_before[q]);
                        assert(before.cache().contains_key(stack_before[q]));
                    }
                }
            }
            inputs.push(v);
            i = i + 1;
        }
        let ghost before = *self;
        let outputs = match node.execute(reg, id, &inputs) {
            Ok(o) => o,
            Err(e) => {
                return Err(e);
            },
        };
        if self.executions < u64::MAX {
            self.executions = self.executions + 1;
        }
        self.cache.insert(id, outputs);
        proof {
            let c = self.clock@;
            self.order = Ghost(self.order@.insert(id.0, c));
            self.clock = Ghost(c + 1);
            assert forall|w: (OutPinId, InPinId)| #[trigger] self.live_wires().contains(w) && self.cache().contains_key(w.1.node.0)
                implies self.cache().contains_key(w.0.node.0) && self.order@[w.0.node.0] < self.order@[w.1.node.0] by {
                assert(before.live_wires().contains(w));
                if w.1.node.0 == id.0 {
                    assert(w.1.node == id);
                    assert(before.wires().contains((w.0, w.1)));
                    assert(before.cache().contains_key(w.0.node.0));
                } else {
                    assert(before.cache().contains_key(w.1.node.0));
                    assert(before.cache().contains_key(w.0.node.0));
                }
            }
            assert forall|k: usize| #[trigger] self.cache().contains_key(k) implies {
                &&& self.nodes().contains_key(k)
                &&& self.order@.contains_key(k)
                &&& self.order@[k] < self.clock@
                &&& self.cache()[k]@.len() == outputs_count(self.nodes()[k])
            } by {
                if k != id.0 {
                    assert(before.cache().contains_key(k));
                }
            }
            assert forall|q: int| old(stack)@.len() <= q < stack@.len() implies self.cache().contains_key(#[trigger] stack@[q]) by {
                if q > old(stack)@.len() {
                    assert(before.cache().contains_key(stack@[q]));
                }
            }
        }
        Ok(())
    }

    fn read_output_inner(&mut self, reg: &crate::registry::ETypesRegistry, stack: &mut Vec<usize>, pin: OutPinId) -> (r: Result<EValue, GraphError>)
        requires
            old(self).wf(),
            stack_ok(*old(self), old(stack)@),
        ensures
            final(self).wf(),
            eval_frame(*old(self), *final(self), old(stack)@, final(stack)@),
            r matches Ok(v) ==> final(self).cached_output(pin) == Some(v@),
            r is Ok ==> pushed_cached(*final(self), old(stack)@, final(stack)@),
            r is Err && !old(self).cache().contains_key(pin.node.0) ==> !final(self).cache().contains_key(pin.node.0)
                || pin.output >= final(self).cache()[pin.node.0]@.len(),
            (exists|f: nat| ev(*old(self), *reg, pin.node.0, old(stack)@.to_set(), f)) && pin.output < outputs_count(
                old(self).nodes()[pin.node.0],
            ) ==> r is Ok,
            forall|x: usize, f: nat| #[trigger] cycle_at(*old(self), pin.node.0, old(stack)@.to_set(), x, f) ==> r
                == Err::<EValue, GraphError>(GraphError::CyclicDependency(NodeId(x))),
            old(self).cache().contains_key(pin.node.0) ==> *final(self) == *old(self) && final(stack)@ == old(stack)@,
            old(self).nodes().contains_key(pin.node.0) && !old(self).cache().contains_key(pin.node.0) && old(stack)@.contains(
                pin.node.0,
            ) ==> r == Err::<EValue, GraphError>(GraphError::CyclicDependency(pin.node)),
            old(self).cache().contains_key(pin.node.0) && pin.output >= old(self).cache()[pin.node.0]@.len()
                ==> r is Err,
            old(self).cached_output(pin) is Some ==> r is Ok,
            !old(self).nodes().contains_key(pin.node.0) ==> r == Err::<EValue, GraphError>(GraphError::UnknownNode(pin.node)),
        decreases old(self).nodes().dom().len() - old(stack)@.len(), 1nat,
    {
        if self.cache.contains_key(&pin.node) {
            let outs = self.cache.get(&pin.node).unwrap();
            if pin.output < outs.len() {
                let v = outs[pin.output].duplicate();
                proof {
                    assert(stack@.subrange(0, stack@.len() as int) =~= stack@);
                }
                return Ok(v);
            } else {
                proof {
                    assert(stack@.subrange(0, stack@.len() as int) =~= stack@);
                }
                return Err(GraphError::OutputOutOfBounds { node: pin.node, index: pin.output, count: outs.len() });
            }
        }
        self.eval_node(reg, stack, pin.node)?;
        match self.cache.get(&pin.node) {
            None => Err(GraphError::MissingCacheAfterEvaluation(pin.node)),
            Some(outs) => {
                if pin.output < outs.len() {
                    Ok(outs[pin.output].duplicate())
                } else {
                    Err(GraphError::OutputOutOfBounds { node: pin.node, index: pin.output, count: outs.len() })
                }
            },
        }
    }

    fn read_input_inner(
        &mut self,
        reg: &crate::registry::ETypesRegistry,
        stack: &mut Vec<usize>,
        pin: InPinId,
        node: &GraphNode,
    ) -> (r: Result<EValue, GraphError>)
        requires
            old(self).wf(),
            stack_ok(*old(self), old(stack)@),
            old(self).nodes().contains_key(pin.node.0),
            *node == old(self).nodes()[pin.node.0],
            pin.input < inputs_count(*node),
        ensures
            final(self).wf(),
            eval_frame(*old(self), *final(self), old(stack)@, final(stack)@),
            r is Ok ==> forall|o: OutPinId| #[trigger] old(self).wires().contains((o, pin)) ==> final(self).cache().contains_key(o.node.0),
            r is Ok ==> pushed_cached(*final(self), old(stack)@, final(stack)@),
            input_read_post(*old(self), *final(self), *reg, *node, pin, r),
            (exists|f: nat| input_ok(*old(self), *reg, pin, old(stack)@.to_set(), f)) ==> r is Ok,
            forall|o: OutPinId, x: usize, f: nat| #[trigger] sole_source(old(self).wires(), pin, o) && #[trigger] cycle_at(
                *old(self),
                o.node.0,
                old(stack)@.to_set(),
                x,
                f,
            ) ==> r == Err::<EValue, GraphError>(GraphError::CyclicDependency(NodeId(x))),
            forall|o: OutPinId| #[trigger] sole_source(old(self).wires(), pin, o) && old(self).nodes().contains_key(o.node.0)
                && !old(self).cache().contains_key(o.node.0) && old(stack)@.contains(o.node.0) ==> r == Err::<EValue, GraphError>(
                GraphError::CyclicDependency(o.node),
            ),
        decreases old(self).nodes().dom().len() - old(stack)@.len(), 2nat,
    {
        let remotes = crate::snarl::snarl_remotes(&self.snarl, pin);
        proof {
            if exists|o1: OutPinId, o2: OutPinId| o1 != o2 && self.wires().contains((o1, pin)) && self.wires().contains((o2, pin)) {
                let (o1, o2) = choose|o1: OutPinId, o2: OutPinId| o1 != o2 && self.wires().contains((o1, pin)) && self.wires().contains((o2, pin));
                assert(crate::snarl::sources_of(self.wires(), pin).contains(o1));
                assert(crate::snarl::sources_of(self.wires(), pin).contains(o2));
                assert(remotes@.to_set().contains(o1));
                assert(remotes@.to_set().contains(o2));
                assert(remotes@.len() >= 2);
            }
        }
        if remotes.len() == 0 {
            proof {
                assert(stack@.subrange(0, stack@.len() as int) =~= stack@);
                assert forall|o: OutPinId| #[trigger] old(self).wires().contains((o, pin)) implies false by {
                    assert(crate::snarl::sources_of(self.wires(), pin).contains(o));
                    assert(remotes@.to_set().contains(o));
                }
            }
            if node.has_inline_values() {
                if let Some(v) = self.inline_value(pin) {
                    return Ok(v.duplicate());
                }
            }
            return node.default_input_value(reg, pin.node, pin.input);
        } else if remotes.len() == 1 {
            let remote = remotes[0];
            proof {
                assert forall|o: OutPinId| #[trigger] old(self).wires().contains((o, pin)) implies o == remote by {
                    assert(crate::snarl::sources_of(self.wires(), pin).contains(o));
                    assert(remotes@.to_set().contains(o));
                }
                assert(remotes@.to_set().contains(remote));
                assert(self.wires().contains((remote, pin)));
            }
            proof {
                assert(sole_source(old(self).wires(), pin, remote));
                assert forall|o: OutPinId| #[trigger] sole_source(old(self).wires(), pin, o) implies o == remote by {}
                if exists|f: nat| input_ok(*old(self), *reg, pin, old(stack)@.to_set(), f) {
                    let f = choose|f: nat| input_ok(*old(self), *reg, pin, old(stack)@.to_set(), f);
                    assert(!unconnected(old(self).wires(), pin));
                    lemma_sole_source_unique(old(self).wires(), pin, remote);
                    assert(ev(*old(self), *reg, remote.node.0, old(stack)@.to_set(), f));
                    assert(remote.output < outputs_count(old(self).nodes()[remote.node.0]));
                }
            }
            let v = self.read_output_inner(reg, stack, remote)?;
            let port = node.try_input(pin.node, pin.input);
            match port {
                Ok(crate::node::NodePortType::Specific(t)) => {
                    let src = match snarl_get(&self.snarl, remote.node) {
                        Some(n) => n,
                        None => {
                            return Err(GraphError::UnknownNode(remote.node));
                        },
                    };
                    let out_ty = src.try_output(reg, remote.node, remote.output)?;
                    if out_ty.same_as(&t) {
                        Ok(v)
                    } else {
                        Err(GraphError::IncompatibleTypes(pin))
                    }
                },
                Ok(crate::node::NodePortType::BasedOnSource) => Ok(v),
                Err(e) => Err(e),
            }
        } else {
            proof {
                assert(stack@.subrange(0, stack@.len() as int) =~= stack@);
                assert(remotes@.to_set().contains(remotes@[0]));
                assert(crate::snarl::sources_of(self.wires(), pin).contains(remotes@[0]));
                assert(self.wires().contains((remotes@[0], pin)));
                assert(remotes@.to_set().contains(remotes@[1]));
                assert(self.wires().contains((remotes@[1], pin)));
                assert(remotes@[0] != remotes@[1]);
                assert forall|o: OutPinId| !#[trigger] sole_source(old(self).wires(), pin, o) by {
                    if sole_source(old(self).wires(), pin, o) {
                        assert(remotes@[0] == o && remotes@[1] == o);
                    }
                }
            }
            Err(GraphError::MultipleSources(pin))
        }
    }
}

} // verus!

verus! {

/// What a pull on an output does: the graph stays, cached entries stay,
/// a success leaves the value cached, and a node that was cached is
/// answered from the cache without any change.
pub open spec fn read_output_post(
    old: GraphExecutionContext,
    new: GraphExecutionContext,
    pin: OutPinId,
    r: Result<EValue, GraphError>,
) -> bool {
    &&& new.nodes() == old.nodes()
    &&& new.wires() == old.wires()
    &&& new.inline_values() == old.inline_values()
    &&& new.executions() >= old.executions()
    &&& forall|k: usize| #[trigger] old.cache().contains_key(k) ==> new.cache().contains_key(k) && new.cache()[k] == old.cache()[k]
    &&& (r matches Ok(v) ==> new.cached_output(pin) == Some(v@))
    &&& old.cache().contains_key(pin.node.0) ==> new == old
    &&& old.cached_output(pin) is Some ==> r is Ok
    &&& !old.nodes().contains_key(pin.node.0) ==> r == Err::<EValue, GraphError>(GraphError::UnknownNode(pin.node))
    &&& r is Err && !old.cache().contains_key(pin.node.0) ==> !new.cache().contains_key(pin.node.0) || pin.output
        >= new.cache()[pin.node.0]@.len()
}

/// Every node with side effects can be evaluated.
pub open spec fn side_effects_evaluable(c: GraphExecutionContext, reg: crate::registry::ETypesRegistry) -> bool {
    forall|k: usize| #[trigger] c.nodes().contains_key(k) && crate::node::side_effects(c.nodes()[k]) ==> exists|f: nat|
        ev(c, reg, k, Set::empty(), f)
}

/// Every node with side effects is cached.
pub open spec fn side_effects_cached(c: GraphExecutionContext) -> bool {
    forall|k: usize| #[trigger] c.nodes().contains_key(k) && crate::node::side_effects(c.nodes()[k]) ==> c.cache().contains_key(k)
}

/// Some node with side effects is uncached, and every such node meets a
/// cycle when pulled.
pub open spec fn side_effects_cyclic(c: GraphExecutionContext) -> bool {
    &&& exists|k: usize| #[trigger] c.nodes().contains_key(k) && crate::node::side_effects(c.nodes()[k]) && !c.cache().contains_key(k)
    &&& forall|k: usize| #[trigger] c.nodes().contains_key(k) && crate::node::side_effects(c.nodes()[k]) && !c.cache().contains_key(k)
        ==> exists|x: usize, f: nat| cycle_at(c, k, Set::empty(), x, f)
}

/// The output can be pulled: its node can be evaluated and has the output.
pub open spec fn output_evaluable(c: GraphExecutionContext, reg: crate::registry::ETypesRegistry, pin: OutPinId) -> bool {
    &&& exists|f: nat| ev(c, reg, pin.node.0, Set::empty(), f)
    &&& pin.output < outputs_count(c.nodes()[pin.node.0])
}

/// The input exists and can be read.
pub open spec fn input_evaluable(c: GraphExecutionContext, reg: crate::registry::ETypesRegistry, pin: InPinId) -> bool {
    &&& c.nodes().contains_key(pin.node.0)
    &&& pin.input < inputs_count(c.nodes()[pin.node.0])
    &&& exists|f: nat| input_ok(c, reg, pin, Set::empty(), f)
}

impl GraphExecutionContext {
    /// Reads an output, evaluating its node and whatever it depends on
    /// when it is not cached.
    pub fn read_output(&mut self, reg: &crate::registry::ETypesRegistry, pin: OutPinId) -> (r: Result<EValue, GraphError>)
        requires
            old(self).wf(),
        ensures
            final(self).wf(),
            read_output_post(*old(self), *final(self), pin, r),
            output_evaluable(*old(self), *reg, pin) ==> r is Ok,
            forall|x: usize, f: nat| #[trigger] cycle_at(*old(self), pin.node.0, Set::empty(), x, f) ==> r == Err::<
                EValue,
                GraphError,
            >(GraphError::CyclicDependency(NodeId(x))),
    {
        let mut stack: Vec<usize> = Vec::new();
        proof {
            assert(stack@.to_set() =~= Set::<usize>::empty());
        }
        self.read_output_inner(reg, &mut stack, pin)
    }

    /// Reads an input: its inline value or default when unconnected, the
    /// connected output when there is one, an error when there are several.
    pub fn read_input(&mut self, reg: &crate::registry::ETypesRegistry, pin: InPinId) -> (r: Result<EValue, GraphError>)
        requires
            old(self).wf(),
        ensures
            final(self).wf(),
            input_evaluable(*old(self), *reg, pin) ==> r is Ok,
            forall|o: OutPinId, x: usize, f: nat| old(self).nodes().contains_key(pin.node.0) && pin.input < inputs_count(
                old(self).nodes()[pin.node.0],
            ) && #[trigger] sole_source(old(self).wires(), pin, o) && #[trigger] cycle_at(*old(self), o.node.0, Set::empty(), x, f)
                ==> r == Err::<EValue, GraphError>(GraphError::CyclicDependency(NodeId(x))),
            r is Err && !(old(self).nodes().contains_key(pin.node.0) && pin.input < inputs_count(old(self).nodes()[pin.node.0]))
                ==> *final(self) == *old(self),
            final(self).nodes() == old(self).nodes(),
            final(self).wires() == old(self).wires(),
            forall|k: usize| #[trigger] old(self).cache().contains_key(k) ==> final(self).cache().contains_key(k)
                && final(self).cache()[k] == old(self).cache()[k],
            !old(self).nodes().contains_key(pin.node.0) ==> r == Err::<EValue, GraphError>(GraphError::UnknownNode(pin.node)),
            old(self).nodes().contains_key(pin.node.0) && pin.input >= inputs_count(old(self).nodes()[pin.node.0]) ==> r
                == Err::<EValue, GraphError>(GraphError::InputOutOfBounds {
                node: pin.node,
                index: pin.input,
                count: inputs_count(old(self).nodes()[pin.node.0]) as usize,
            }),
            old(self).nodes().contains_key(pin.node.0) && pin.input < inputs_count(old(self).nodes()[pin.node.0])
                ==> input_read_post(*old(self), *final(self), *reg, old(self).nodes()[pin.node.0], pin, r),
    {
        let node = match snarl_get(&self.snarl, pin.node) {
            Some(n) => n.duplicate(),
            None => {
                return Err(GraphError::UnknownNode(pin.node));
            },
        };
        let count = node.inputs_count();
        if pin.input >= count {
            return Err(GraphError::InputOutOfBounds { node: pin.node, index: pin.input, count });
        }
        let mut stack: Vec<usize> = Vec::new();
        proof {
            assert(stack@.to_set() =~= Set::<usize>::empty());
        }
        self.read_input_inner(reg, &mut stack, pin, &node)
    }

    /// Evaluates every node with side effects that is not cached yet;
    /// cached nodes are left as they are.
    pub fn full_eval(&mut self, reg: &crate::registry::ETypesRegistry) -> (r: Result<(), GraphError>)
        requires
            old(self).wf(),
        ensures
            final(self).wf(),
            final(self).nodes() == old(self).nodes(),
            final(self).wires() == old(self).wires(),
            forall|k: usize| #[trigger] old(self).cache().contains_key(k) ==> final(self).cache().contains_key(k)
                && final(self).cache()[k] == old(self).cache()[k],
            r is Ok ==> forall|k: usize| #[trigger] old(self).nodes().contains_key(k) && crate::node::side_effects(old(self).nodes()[k])
                ==> final(self).cache().contains_key(k),
            side_effects_evaluable(*old(self), *reg) ==> r is Ok,
            side_effects_cached(*old(self)) ==> r is Ok && *final(self) == *old(self),
            side_effects_cyclic(*old(self)) ==> r matches Err(GraphError::CyclicDependency(_)),
    {
        let ids = crate::snarl::snarl_node_ids(&self.snarl);
        let ghost touched = false;
        let mut i: usize = 0;
        while i < ids.len()
            invariant
                i <= ids@.len(),
                self.wf(),
                ids@.map_values(|n: NodeId| n.0).to_set() == old(self).nodes().dom(),
                self.nodes() == old(self).nodes(),
                self.wires() == old(self).wires(),
                self.inline_values() == old(self).inline_values(),
                forall|k: usize| #[trigger] old(self).cache().contains_key(k) ==> self.cache().contains_key(k)
                    && self.cache()[k] == old(self).cache()[k],
                forall|q: int| 0 <= q < i && crate::node::side_effects(old(self).nodes()[#[trigger] ids@[q].0])
                    ==> self.cache().contains_key(ids@[q].0),
                !touched ==> *self == *old(self),
                side_effects_cached(*old(self)) ==> !touched,
                side_effects_cyclic(*old(self)) ==> !touched,
            decreases ids.len() - i,
        {
            let id = ids[i];
            proof {
                assert(ids@.map_values(|n: NodeId| n.0)[i as int] == id.0);
                assert(self.nodes().contains_key(id.0));
            }
            let node = snarl_get(&self.snarl, id).unwrap();
            if node.has_side_effects() && !self.cache.contains_key(&id) {
                let mut stack: Vec<usize> = Vec::new();
                let ghost before = *self;
                proof {
                    assert(stack@.to_set() =~= Set::<usize>::empty());
                    if side_effects_evaluable(*old(self), *reg) {
                        let f = choose|f: nat| ev(*old(self), *reg, id.0, Set::empty(), f);
                        assert(grows(*old(self), *self));
                        lemma_ev_mono(*old(self), *self, *reg, id.0, Set::empty(), Set::empty(), f);
                    }
                    if side_effects_cyclic(*old(self)) {
                        assert(!old(self).cache().contains_key(id.0));
                        let (x, f) = choose|x: usize, f: nat| cycle_at(*old(self), id.0, Set::empty(), x, f);
                        assert(cycle_at(*self, id.0, stack@.to_set(), x, f));
                    }
                }
                match self.eval_node(reg, &mut stack, id) {
                    Ok(()) => {},
                    Err(e) => {
                        return Err(e);
                    },
                }
                proof {
                    touched = true;
                    assert forall|q: int| 0 <= q < i + 1 && crate::node::side_effects(old(self).nodes()[#[trigger] ids@[q].0])
                        implies self.cache().contains_key(ids@[q].0) by {
                        if q < i {
                            assert(before.cache().contains_key(ids@[q].0));
                        }
                    }
                }
            }
            i = i + 1;
        }
        proof {
            assert forall|k: usize| #[trigger] old(self).nodes().contains_key(k) && crate::node::side_effects(old(self).nodes()[k])
                implies self.cache().contains_key(k) by {
                let ms = ids@.map_values(|n: NodeId| n.0);
                assert(ms.to_set().contains(k));
                assert(ms.contains(k));
                let q = choose|q: int| 0 <= q < ms.len() && #[trigger] ms[q] == k;
                assert(ids@[q].0 == k);
            }
            if side_effects_cyclic(*old(self)) {
                let k = choose|k: usize| #[trigger] old(self).nodes().contains_key(k) && crate::node::side_effects(old(self).nodes()[k])
                    && !old(self).cache().contains_key(k);
                assert(self.cache().contains_key(k));
            }
        }
        Ok(())
    }
}

/// Memoization: once a pull on an output succeeded, the next pull on it
/// with nothing changed in between returns an equal value, executes no
/// node, and leaves the context as it was.
pub proof fn lemma_read_memoized(
    c0: GraphExecutionContext,
    c1: GraphExecutionContext,
    c2: GraphExecutionContext,
    pin: OutPinId,
    r1: Result<EValue, GraphError>,
    r2: Result<EValue, GraphError>,
)
    requires
        read_output_post(c0, c1, pin, r1),
        r1 is Ok,
        read_output_post(c1, c2, pin, r2),
    ensures
        r2 is Ok,
        (r2 matches Ok(v2) && r1 matches Ok(v1) && v2@ == v1@),
        c2 == c1,
        c2.executions() == c1.executions(),
{
}

/// A cached node has no cycle through the inputs that it reads: the
/// sources of a cached node were cached before it, so two nodes wired
/// into each other can never both be cached, and neither can be alone.
pub proof fn lemma_cycle_never_cached(c: GraphExecutionContext, wxy: (OutPinId, InPinId), wyx: (OutPinId, InPinId))
    requires
        c.wf(),
        c.live_wires().contains(wxy),
        c.live_wires().contains(wyx),
        wxy.1.node == wyx.0.node,
        wyx.1.node == wxy.0.node,
    ensures
        !c.cache().contains_key(wxy.0.node.0),
        !c.cache().contains_key(wyx.0.node.0),
{
}

/// Cycle detection: a pull on either node of two nodes wired into each
/// other fails (and, as every pull, terminates).
pub proof fn lemma_cycle_pull_fails(
    c0: GraphExecutionContext,
    c1: GraphExecutionContext,
    wxy: (OutPinId, InPinId),
    wyx: (OutPinId, InPinId),
    pin: OutPinId,
    r: Result<EValue, GraphError>,
)
    requires
        c1.wf(),
        read_output_post(c0, c1, pin, r),
        c0.live_wires().contains(wxy),
        c0.live_wires().contains(wyx),
        wxy.1.node == wyx.0.node,
        wyx.1.node == wxy.0.node,
        pin.node == wxy.0.node || pin.node == wyx.0.node,
    ensures
        r is Err,
{
    assert(c1.live_wires() == c0.live_wires());
    lemma_cycle_never_cached(c1, wxy, wyx);
}

proof fn lemma_two_cycle_half(c: GraphExecutionContext, x: NodeId, y: NodeId)
    requires
        c.wires() == set![first_wire(x, y), first_wire(y, x)],
        x != y,
    ensures
        sole_source(c.wires(), InPinId { node: x, input: 0 }, OutPinId { node: y, output: 0 }),
        (choose|o: OutPinId| sole_source(c.wires(), InPinId { node: NodeId(x.0), input: 0 }, o)) == (OutPinId { node: y, output: 0 }),
{
    let pin = InPinId { node: x, input: 0 };
    assert(c.wires().contains(first_wire(y, x)));
    assert forall|o2: OutPinId| #[trigger] c.wires().contains((o2, pin)) implies o2 == (OutPinId { node: y, output: 0 }) by {
        if (o2, pin) == first_wire(x, y) {
            assert(pin.node == y);
        }
    }
    assert(NodeId(x.0) == x);
    lemma_sole_source_unique(c.wires(), pin, OutPinId { node: y, output: 0 });
}

/// Two nodes wired into each other, output 0 into input 0 both ways and no
/// other wire, neither cached: a pull on either node meets itself again, so
/// [GraphExecutionContext::read_output] on it fails with the
/// cyclic-dependency error naming it, and reading input 0 of one fails
/// naming the other.
pub proof fn lemma_two_cycle(c: GraphExecutionContext, x: NodeId, y: NodeId)
    requires
        c.wires() == set![first_wire(x, y), first_wire(y, x)],
        x != y,
        c.nodes().contains_key(x.0),
        c.nodes().contains_key(y.0),
        !c.cache().contains_key(x.0),
        !c.cache().contains_key(y.0),
    ensures
        cycle_at(c, x.0, Set::empty(), x.0, 2),
        cycle_at(c, y.0, Set::empty(), y.0, 2),
        sole_source(c.wires(), InPinId { node: x, input: 0 }, OutPinId { node: y, output: 0 }),
        sole_source(c.wires(), InPinId { node: y, input: 0 }, OutPinId { node: x, output: 0 }),
{
    lemma_two_cycle_half(c, x, y);
    assert(set![first_wire(x, y), first_wire(y, x)] =~= set![first_wire(y, x), first_wire(x, y)]);
    lemma_two_cycle_half(c, y, x);
    assert(x.0 != y.0);
    assert(Set::<usize>::empty().insert(x.0).insert(y.0).contains(x.0));
    assert(cycle_at(c, y.0, Set::empty().insert(x.0), x.0, 1));
    assert(Set::<usize>::empty().insert(y.0).insert(x.0).contains(y.0));
    assert(cycle_at(c, x.0, Set::empty().insert(y.0), y.0, 1));
}

/// Fan-in is never resolved silently: reading an input wired from two
/// distinct outputs fails with a multiple-sources error.
pub proof fn lemma_fan_in_rejected(
    c0: GraphExecutionContext,
    c1: GraphExecutionContext,
    reg: crate::registry::ETypesRegistry,
    node: GraphNode,
    pin: InPinId,
    r: Result<EValue, GraphError>,
)
    requires
        input_read_post(c0, c1, reg, node, pin, r),
        fan_in(c0.wires(), pin),
    ensures
        r == Err::<EValue, GraphError>(GraphError::MultipleSources(pin)),
{
}

} // verus!

verus! {

impl GraphExecutionContext {
    /// Keeps the well-formedness across a change of wires and of the
    /// target node's state, when the target is dirty and every new wire
    /// ends at it.
    proof fn lemma_rewire_wf(old: GraphExecutionContext, new: GraphExecutionContext, target: usize)
        requires
            old.wf(),
            new.inline_values() == old.inline_values(),
            !old.cache().contains_key(target),
            new.cache() == old.cache(),
            new.order == old.order,
            new.clock == old.clock,
            new.nodes().dom() == old.nodes().dom(),
            forall|k: usize| k != target && #[trigger] old.nodes().contains_key(k) ==> new.nodes()[k] == old.nodes()[k],
            old.nodes().contains_key(target) ==> node_wf(new.nodes()[target]),
            forall|w: (OutPinId, InPinId)| #[trigger] new.wires().contains(w) ==> old.wires().contains(w)
                || (w.1.node.0 == target && old.nodes().contains_key(w.0.node.0) && old.nodes().contains_key(target)),
        ensures
            new.wf(),
    {
        assert forall|w: (OutPinId, InPinId)| #[trigger] new.live_wires().contains(w) && new.cache().contains_key(w.1.node.0)
            implies new.cache().contains_key(w.0.node.0) && new.order@[w.0.node.0] < new.order@[w.1.node.0] by {
            assert(w.1.node.0 != target);
            assert(old.wires().contains(w));
            assert(old.live_wires().contains(w));
        }
        assert forall|k: usize| #[trigger] new.nodes().contains_key(k) implies node_wf(new.nodes()[k]) by {
            assert(old.nodes().contains_key(k));
        }
        assert forall|k: usize| #[trigger] new.cache().contains_key(k) implies {
            &&& new.nodes().contains_key(k)
            &&& new.order@.contains_key(k)
            &&& new.order@[k] < new.clock@
            &&& new.cache()[k]@.len() == outputs_count(new.nodes()[k])
        } by {
            assert(old.cache().contains_key(k));
        }
        assert forall|w: (OutPinId, InPinId)| #[trigger] new.wires().contains(w) implies new.nodes().contains_key(w.0.node.0)
            && new.nodes().contains_key(w.1.node.0) by {
            if old.wires().contains(w) {
            }
        }
    }

    /// Adds a wire without checking types or existing connections; the
    /// target and everything downstream of it become dirty.
    pub fn connect_raw(&mut self, from: OutPinId, to: InPinId) -> (r: Result<bool, GraphError>)
        requires
            old(self).wf(),
        ensures
            final(self).wf(),
            final(self).nodes() == old(self).nodes(),
            !old(self).nodes().contains_key(from.node.0) ==> r == Err::<bool, GraphError>(GraphError::UnknownNode(from.node))
                && *final(self) == *old(self),
            old(self).nodes().contains_key(from.node.0) && !old(self).nodes().contains_key(to.node.0) ==> r == Err::<
                bool,
                GraphError,
            >(GraphError::UnknownNode(to.node)) && *final(self) == *old(self),
            r is Ok ==> final(self).wires() == old(self).wires().insert((from, to)) && !final(self).cache().contains_key(to.node.0)
                && r == Ok::<bool, GraphError>(!old(self).wires().contains((from, to))),
            old(self).nodes().contains_key(from.node.0) && old(self).nodes().contains_key(to.node.0) ==> r is Ok,
    {
        if snarl_get(&self.snarl, from.node).is_none() {
            return Err(GraphError::UnknownNode(from.node));
        }
        if snarl_get(&self.snarl, to.node).is_none() {
            return Err(GraphError::UnknownNode(to.node));
        }
        self.mark_dirty(to.node);
        let ghost mid = *self;
        let added = crate::snarl::snarl_connect(&mut self.snarl, from, to);
        proof {
            GraphExecutionContext::lemma_rewire_wf(mid, *self, to.node.0);
        }
        Ok(added)
    }

    /// Removes a wire; the target and everything downstream of it become
    /// dirty. When the wire fed an item of a list node, the items after it
    /// move up one input and the list node has one item less.
    pub fn disconnect(&mut self, from: OutPinId, to: InPinId) -> (r: Result<bool, GraphError>)
        requires
            old(self).wf(),
        ensures
            final(self).wf(),
            final(self).nodes().dom() == old(self).nodes().dom(),
            !old(self).nodes().contains_key(from.node.0) ==> r == Err::<bool, GraphError>(GraphError::UnknownNode(from.node)),
            old(self).nodes().contains_key(from.node.0) && !old(self).nodes().contains_key(to.node.0) ==> r == Err::<
                bool,
                GraphError,
            >(GraphError::UnknownNode(to.node)),
            r is Err ==> *final(self) == *old(self),
            old(self).nodes().contains_key(from.node.0) && old(self).nodes().contains_key(to.node.0) ==> r == Ok::<
                bool,
                GraphError,
            >(old(self).wires().contains((from, to))),
            r is Ok ==> !final(self).cache().contains_key(to.node.0),
            r is Ok && !list_item_removed(*old(self), from, to) ==> final(self).wires() == old(self).wires().remove((from, to))
                && final(self).nodes() == old(self).nodes(),
            r is Ok && list_item_removed(*old(self), from, to) ==> {
                let l = old(self).nodes()[to.node.0]->List_0;
                &&& final(self).nodes()[to.node.0] is List
                &&& final(self).nodes()[to.node.0]->List_0.item() == l.item()
                &&& final(self).nodes()[to.node.0]->List_0.fixed() == l.fixed()
                &&& final(self).nodes()[to.node.0]->List_0.items_count() == l.items_count() - 1
                &&& forall|k: usize| k != to.node.0 && #[trigger] old(self).nodes().contains_key(k) ==> final(self).nodes()[k]
                    == old(self).nodes()[k]
                &&& forall|w: (OutPinId, InPinId)| w.1.node != to.node ==> (#[trigger] final(self).wires().contains(w)
                    <==> old(self).wires().contains(w))
                &&& to.input + 1 < l.items_count() ==> forall|o: OutPinId| !#[trigger] final(self).wires().contains(
                    (o, InPinId { node: to.node, input: (l.items_count() - 1) as usize }),
                )
                &&& forall|o: OutPinId, j: usize| #[trigger] final(self).wires().contains((o, InPinId { node: to.node, input: j }))
                    <==> shifted(old(self).wires().remove((from, to)), to.node, to.input, (l.items_count() - 1) as usize, o, j)
                &&& inline_index(
                    final(self).inline_values(),
                    InPinId { node: to.node, input: (l.items_count() - 1) as usize },
                    final(self).inline_values().len(),
                ) is None
                &&& forall|p: InPinId| p != (InPinId { node: to.node, input: (l.items_count() - 1) as usize })
                    ==> #[trigger] inline_of(final(self).inline_values(), p) == inline_of(old(self).inline_values(), p)
            },
    {
        let target = match snarl_get(&self.snarl, from.node) {
            Some(_) => match snarl_get(&self.snarl, to.node) {
                Some(n) => n.duplicate(),
                None => {
                    return Err(GraphError::UnknownNode(to.node));
                },
            },
            None => {
                return Err(GraphError::UnknownNode(from.node));
            },
        };
        self.mark_dirty(to.node);
        let ghost mid = *self;
        let removed = crate::snarl::snarl_disconnect(&mut self.snarl, from, to);
        let ghost w0 = self.wires();
        if let GraphNode::List(l) = &target {
            let count = l.count();
            if removed && to.input < count {
                let mut i: usize = to.input;
                while i + 1 < count
                    invariant
                        to.input <= i < count,
                        count == l.items_count(),
                        self.nodes() == mid.nodes(),
                        self.cache == mid.cache,
                        self.order == mid.order,
                        self.clock == mid.clock,
                        self.inline_values == mid.inline_values,
                        self.executions == mid.executions,
                        mid.wf(),
                        mid.nodes().contains_key(to.node.0),
                        forall|w: (OutPinId, InPinId)| #[trigger] self.wires().contains(w) ==> mid.wires().contains(w)
                            || (w.1.node == to.node && mid.nodes().contains_key(w.0.node.0)),
                        forall|w: (OutPinId, InPinId)| w.1.node != to.node ==> (#[trigger] self.wires().contains(w)
                            <==> mid.wires().contains(w)),
                        i > to.input ==> forall|o: OutPinId| !#[trigger] self.wires().contains(
                            (o, InPinId { node: to.node, input: i }),
                        ),
                        forall|o: OutPinId, j: usize| #[trigger] self.wires().contains((o, InPinId { node: to.node, input: j }))
                            <==> shifted(w0, to.node, to.input, i, o, j),
                    decreases count - i,
                {
                    let src_pin = InPinId { node: to.node, input: i + 1 };
                    let dst_pin = InPinId { node: to.node, input: i };
                    let remotes = crate::snarl::snarl_remotes(&self.snarl, src_pin);
                    let ghost ws = self.wires();
                    crate::snarl::snarl_drop_inputs(&mut self.snarl, src_pin);
                    let mut k: usize = 0;
                    while k < remotes.len()
                        invariant
                            k <= remotes@.len(),
                            remotes@.to_set() == crate::snarl::sources_of(ws, src_pin),
                            dst_pin == (InPinId { node: to.node, input: i }),
                            src_pin == (InPinId { node: to.node, input: (i + 1) as usize }),
                            to.input <= i < count,
                            self.nodes() == mid.nodes(),
                            self.cache == mid.cache,
                            self.order == mid.order,
                            self.clock == mid.clock,
                            self.inline_values == mid.inline_values,
                            self.executions == mid.executions,
                            mid.wf(),
                            mid.nodes().contains_key(to.node.0),
                            forall|w: (OutPinId, InPinId)| #[trigger] ws.contains(w) ==> mid.wires().contains(w)
                                || (w.1.node == to.node && mid.nodes().contains_key(w.0.node.0)),
                            forall|w: (OutPinId, InPinId)| #[trigger] self.wires().contains(w) ==> mid.wires().contains(w)
                                || (w.1.node == to.node && mid.nodes().contains_key(w.0.node.0)),
                            forall|w: (OutPinId, InPinId)| w.1.node != to.node ==> (#[trigger] self.wires().contains(w)
                                <==> mid.wires().contains(w)),
                            forall|o: OutPinId| !#[trigger] self.wires().contains((o, src_pin)),
                            forall|o: OutPinId, j: usize| #[trigger] self.wires().contains((o, InPinId { node: to.node, input: j }))
                                <==> if j == i + 1 {
                                false
                            } else if j == i {
                                shifted(w0, to.node, to.input, i, o, j) || remotes@.subrange(0, k as int).contains(o)
                            } else {
                                shifted(w0, to.node, to.input, i, o, j)
                            },
                            forall|o: OutPinId, j: usize| #[trigger] ws.contains((o, InPinId { node: to.node, input: j }))
                                <==> shifted(w0, to.node, to.input, i, o, j),
                        decreases remotes.len() - k,
                    {
                        proof {
                            assert(remotes@.to_set().contains(remotes@[k as int]));
                            assert(ws.contains((remotes@[k as int], src_pin)));
                            assert(mid.nodes().contains_key(remotes@[k as int].node.0));
                            assert(self.nodes().contains_key(to.node.0));
                        }
                        let ghost prev = self.wires();
                        crate::snarl::snarl_connect(&mut self.snarl, remotes[k], dst_pin);
                        proof {
                            assert(self.wires() == prev.insert((remotes@[k as int], dst_pin)));
                            assert forall|w: (OutPinId, InPinId)| #[trigger] self.wires().contains(w) implies mid.wires().contains(w)
                                || (w.1.node == to.node && mid.nodes().contains_key(w.0.node.0)) by {
                                if w != (remotes@[k as int], dst_pin) {
                                    assert(prev.contains(w));
                                }
                            }
                            assert forall|w: (OutPinId, InPinId)| w.1.node != to.node implies (#[trigger] self.wires().contains(w)
                                <==> mid.wires().contains(w)) by {
                                assert(w != (remotes@[k as int], dst_pin));
                                assert(self.wires().contains(w) == prev.contains(w));
                            }
                            assert(remotes@.subrange(0, k + 1) =~= remotes@.subrange(0, k as int).push(remotes@[k as int]));
                            assert forall|o: OutPinId, j: usize| #[trigger] self.wires().contains((o, InPinId { node: to.node, input: j }))
                                <==> if j == i + 1 {
                                false
                            } else if j == i {
                                shifted(w0, to.node, to.input, i, o, j) || remotes@.subrange(0, k + 1).contains(o)
                            } else {
                                shifted(w0, to.node, to.input, i, o, j)
                            } by {
                                assert(self.wires().contains((o, InPinId { node: to.node, input: j })) == (prev.contains(
                                    (o, InPinId { node: to.node, input: j }),
                                ) || (o, InPinId { node: to.node, input: j }) == (remotes@[k as int], dst_pin)));
                            }
                        }
                        k = k + 1;
                    }
                    proof {
                        assert(remotes@.subrange(0, remotes@.len() as int) =~= remotes@);
                        assert forall|o: OutPinId, j: usize| #[trigger] self.wires().contains((o, InPinId { node: to.node, input: j }))
                            <==> shifted(w0, to.node, to.input, (i + 1) as usize, o, j) by {
                            if j == i {
                                assert(remotes@.contains(o) <==> remotes@.to_set().contains(o));
                                assert(remotes@.to_set().contains(o) <==> ws.contains((o, src_pin)));
                                assert(ws.contains((o, src_pin)) <==> shifted(w0, to.node, to.input, i, o, (i + 1) as usize));
                            }
                        }
                    }
                    i = i + 1;
                }
                let shrunk = GraphNode::List(l.with_count(count - 1));
                let ghost before_replace = *self;
                crate::snarl::snarl_replace(&mut self.snarl, to.node, shrunk);
                proof {
                    assert(self.wires() == before_replace.wires());
                    assert(self.nodes().dom() =~= mid.nodes().dom());
                    assert forall|w: (OutPinId, InPinId)| #[trigger] self.wires().contains(w) implies mid.wires().contains(w)
                        || (w.1.node.0 == to.node.0 && mid.nodes().contains_key(w.0.node.0) && mid.nodes().contains_key(to.node.0)) by {
                        assert(before_replace.wires().contains(w));
                    }
                    GraphExecutionContext::lemma_rewire_wf(mid, *self, to.node.0);
                }
                self.remove_inline_value(InPinId { node: to.node, input: count - 1 });
                return Ok(removed);
            }
        }
        proof {
            assert(self.nodes() == mid.nodes());
            assert(self.nodes().dom() =~= mid.nodes().dom());
            GraphExecutionContext::lemma_rewire_wf(mid, *self, to.node.0);
        }
        Ok(removed)
    }

    /// Connects an output to an input after checking that the output's
    /// type fits the input; an existing connection of the input is
    /// replaced, so an input never gains a second source this way. A list
    /// node takes the item type of its first connection and grows a free
    /// input when its free input is connected. The target and everything
    /// downstream of it become dirty. `Ok(false)`: the types do not fit,
    /// or a list node cannot grow further; nothing changed.
    pub fn connect(&mut self, reg: &mut crate::registry::ETypesRegistry, from: OutPinId, to: InPinId) -> (r: Result<bool, GraphError>)
        requires
            old(self).wf(),
            old(reg).wf(),
        ensures
            final(self).wf(),
            final(reg).wf(),
            final(reg).objects() == old(reg).objects(),
            !old(self).nodes().contains_key(from.node.0) ==> r == Err::<bool, GraphError>(GraphError::UnknownNode(from.node)),
            old(self).nodes().contains_key(from.node.0) && !old(self).nodes().contains_key(to.node.0) ==> r == Err::<
                bool,
                GraphError,
            >(GraphError::UnknownNode(to.node)),
            !(r matches Ok(true)) ==> *final(self) == *old(self),
            r matches Ok(true) ==> {
                &&& forall|o: OutPinId| #[trigger] final(self).wires().contains((o, to)) <==> o == from
                &&& forall|w: (OutPinId, InPinId)| #[trigger] final(self).wires().contains(w) ==> w == (from, to)
                    || old(self).wires().contains(w)
                &&& forall|w: (OutPinId, InPinId)| w.1 != to && w.0 != (OutPinId { node: to.node, output: 0 })
                    ==> (#[trigger] final(self).wires().contains(w) <==> old(self).wires().contains(w))
                &&& !final(self).cache().contains_key(to.node.0)
                &&& final(self).nodes().dom() == old(self).nodes().dom()
                &&& forall|k: usize| k != to.node.0 && #[trigger] old(self).nodes().contains_key(k) ==> final(self).nodes()[k]
                    == old(self).nodes()[k]
                &&& !(old(self).nodes()[to.node.0] is List) ==> final(self).nodes()[to.node.0] == old(self).nodes()[to.node.0]
                &&& old(self).nodes()[to.node.0] is List ==> list_connected(
                    old(self).nodes()[to.node.0]->List_0,
                    final(self).nodes()[to.node.0],
                    to.input,
                    crate::node::output_type(*final(reg), old(self).nodes()[from.node.0]),
                )
            },
            old(self).nodes().contains_key(from.node.0) && old(self).nodes().contains_key(to.node.0) ==> {
                let src = old(self).nodes()[from.node.0];
                let dst = old(self).nodes()[to.node.0];
                &&& from.output >= outputs_count(src) ==> r == Err::<bool, GraphError>(
                    GraphError::OutputOutOfBounds { node: from.node, index: from.output, count: outputs_count(src) as usize },
                )
                &&& from.output < outputs_count(src) && to.input >= inputs_count(dst) ==> r == Err::<bool, GraphError>(
                    GraphError::InputOutOfBounds { node: to.node, index: to.input, count: inputs_count(dst) as usize },
                )
                &&& from.output < outputs_count(src) && to.input < inputs_count(dst) ==> r == Ok::<bool, GraphError>(
                    accepts(*final(reg), src, dst),
                )
            },
            r matches Ok(true) && old(self).nodes()[to.node.0] is List && old(self).nodes()[to.node.0]->List_0.items_count() == 0
                ==> forall|w: (OutPinId, InPinId)| #[trigger] final(self).wires().contains(w) && w.0 == (OutPinId {
                node: to.node,
                output: 0,
            }) ==> !droppable(
                *final(self),
                OutPinId { node: to.node, output: 0 },
                crate::node::output_type(*final(reg), final(self).nodes()[to.node.0])->Some_0,
                w,
            ),
    {
        let src = match snarl_get(&self.snarl, from.node) {
            Some(n) => n.duplicate(),
            None => {
                return Err(GraphError::UnknownNode(from.node));
            },
        };
        let dst = match snarl_get(&self.snarl, to.node) {
            Some(n) => n.duplicate(),
            None => {
                return Err(GraphError::UnknownNode(to.node));
            },
        };
        if let GraphNode::List(l) = &src {
            reg.list_of(l.item_type());
        }
        let ghost reg1 = *reg;
        let out_ty = src.try_output(reg, from.node, from.output)?;
        let port = dst.try_input(to.node, to.input)?;
        let retyped = match &dst {
            GraphNode::List(l) => l.count() == 0,
            _ => false,
        };
        let new_dst = match &dst {
            GraphNode::List(l) => {
                let count = l.count();
                if count >= usize::MAX - 1 {
                    return Ok(false);
                }
                let item = if count == 0 {
                    out_ty
                } else {
                    match port {
                        crate::node::NodePortType::Specific(t) => {
                            if !out_ty.same_as(&t) {
                                return Ok(false);
                            }
                            t
                        },
                        crate::node::NodePortType::BasedOnSource => out_ty,
                    }
                };
                let grown = if to.input == count {
                    count + 1
                } else {
                    count
                };
                GraphNode::List(l.with_state(item, grown))
            },
            _ => {
                match port {
                    crate::node::NodePortType::Specific(t) => {
                        if !out_ty.same_as(&t) {
                            return Ok(false);
                        }
                    },
                    crate::node::NodePortType::BasedOnSource => {},
                }
                dst
            },
        };
        self.mark_dirty(to.node);
        let ghost mid = *self;
        crate::snarl::snarl_drop_inputs(&mut self.snarl, to);
        crate::snarl::snarl_connect(&mut self.snarl, from, to);
        let out_pin = OutPinId { node: to.node, output: 0 };
        if let GraphNode::List(l2) = &new_dst {
            if retyped {
                reg.list_of(l2.item_type());
                proof {
                    if src is List {
                        crate::registry::ETypesRegistry::lemma_list_of_keeps(reg1, *reg, l2.item(), src->List_0.item());
                    }
                }
            }
        }
        let out_ty = if retyped {
            new_dst.try_output(reg, to.node, 0)
        } else {
            Ok(EDataType::Boolean)
        };
        crate::snarl::snarl_replace(&mut self.snarl, to.node, new_dst);
        proof {
            assert(self.nodes().dom() =~= mid.nodes().dom());
            GraphExecutionContext::lemma_rewire_wf(mid, *self, to.node.0);
        }
        if let Ok(t) = out_ty {
            if retyped {
                let ghost before = *self;
                self.revalidate_output(out_pin, &t);
                proof {
                    assert forall|o: OutPinId| #[trigger] self.wires().contains((o, to)) <==> o == from by {
                        assert(self.wires().contains((o, to)) == before.wires().contains((o, to)));
                    }
                }
            }
        }
        Ok(true)
    }

    /// Drops the wires from `out` into inputs of other nodes whose type
    /// differs from `ty`, the output's type after its node changed.
    fn revalidate_output(&mut self, out: OutPinId, ty: &EDataType)
        requires
            old(self).wf(),
            old(self).nodes().contains_key(out.node.0),
            !old(self).cache().contains_key(out.node.0),
        ensures
            final(self).wf(),
            final(self).nodes() == old(self).nodes(),
            final(self).cache() == old(self).cache(),
            final(self).executions() == old(self).executions(),
            final(self).inline_values() == old(self).inline_values(),
            forall|w: (OutPinId, InPinId)| #[trigger] final(self).wires().contains(w) <==> old(self).wires().contains(w)
                && !droppable(*old(self), out, *ty, w),
    {
        let ws = snarl_wire_list(&self.snarl);
        let mut j: usize = 0;
        while j < ws.len()
            invariant
                j <= ws@.len(),
                ws@.to_set() == old(self).wires(),
                ws@.no_duplicates(),
                self.wf(),
                old(self).wf(),
                self.nodes() == old(self).nodes(),
                self.cache() == old(self).cache(),
                self.order == old(self).order,
                self.clock == old(self).clock,
                self.executions == old(self).executions,
                self.inline_values == old(self).inline_values,
                old(self).nodes().contains_key(out.node.0),
                !old(self).cache().contains_key(out.node.0),
                forall|w: (OutPinId, InPinId)| #[trigger] self.wires().contains(w) <==> old(self).wires().contains(w)
                    && !(droppable(*old(self), out, *ty, w) && exists|q: int| 0 <= q < j && ws@[q] == w),
            decreases ws.len() - j,
        {
            let w = ws[j];
            proof {
                assert(ws@.to_set().contains(w));
                assert(old(self).wires().contains(w));
                assert(self.nodes().contains_key(w.1.node.0));
                assert(node_wf(self.nodes()[w.1.node.0]));
            }
            let drop = if w.0 == out && w.1.node.0 != out.node.0 {
                let target = snarl_get(&self.snarl, w.1.node).unwrap();
                match target.try_input(w.1.node, w.1.input) {
                    Ok(crate::node::NodePortType::Specific(pt)) => !pt.same_as(ty),
                    _ => false,
                }
            } else {
                false
            };
            assert(drop == droppable(*old(self), out, *ty, w));
            let ghost prev = *self;
            if drop {
                crate::snarl::snarl_disconnect(&mut self.snarl, w.0, w.1);
                proof {
                    GraphExecutionContext::lemma_rewire_wf(prev, *self, out.node.0);
                }
            }
            proof {
                assert forall|x: (OutPinId, InPinId)| #[trigger] self.wires().contains(x) <==> old(self).wires().contains(x)
                    && !(droppable(*old(self), out, *ty, x) && exists|q: int| 0 <= q < j + 1 && ws@[q] == x) by {
                    if x == w {
                        assert(ws@[j as int] == x);
                    } else {
                        assert(self.wires().contains(x) == prev.wires().contains(x));
                        if exists|q: int| 0 <= q < j + 1 && ws@[q] == x {
                            let q = choose|q: int| 0 <= q < j + 1 && ws@[q] == x;
                            assert(q != j);
                        }
                    }
                }
            }
            j = j + 1;
        }
        proof {
            assert forall|w: (OutPinId, InPinId)| #[trigger] self.wires().contains(w) <==> old(self).wires().contains(w)
                && !droppable(*old(self), out, *ty, w) by {
                if old(self).wires().contains(w) {
                    assert(ws@.to_set().contains(w));
                    let q = choose|q: int| 0 <= q < ws@.len() && ws@[q] == w;
                }
            }
        }
    }

    /// Removes the inline value of an input, if one is set.
    fn remove_inline_value(&mut self, pin: InPinId)
        requires
            old(self).wf(),
        ensures
            final(self).wf(),
            final(self).nodes() == old(self).nodes(),
            final(self).wires() == old(self).wires(),
            final(self).cache() == old(self).cache(),
            final(self).executions() == old(self).executions(),
            inline_index(final(self).inline_values(), pin, final(self).inline_values().len()) is None,
            forall|p: InPinId| p != pin ==> #[trigger] inline_of(final(self).inline_values(), p) == inline_of(old(self).inline_values(), p),
    {
        let mut i: usize = 0;
        while i < self.inline_values.len()
            invariant
                i <= self.inline_values@.len(),
                inline_index(self.inline_values@, pin, i as nat) is None,
                *self == *old(self),
            ensures
                i <= self.inline_values@.len(),
                i < self.inline_values@.len() ==> self.inline_values@[i as int].0 == pin,
                inline_index(self.inline_values@, pin, i as nat) is None,
                *self == *old(self),
            decreases self.inline_values.len() - i,
        {
            if self.inline_values[i].0 == pin {
                break;
            }
            i = i + 1;
        }
        let ghost before = *self;
        if i < self.inline_values.len() {
            self.inline_values.remove(i);
            proof {
                let b = before.inline_values();
                let a = self.inline_values();
                assert(a =~= b.remove(i as int));
                assert forall|x: int, y: int| 0 <= x < y < a.len() implies (#[trigger] a[x]).0 != (#[trigger] a[y]).0 by {
                    let bx = if x < i { x } else { x + 1 };
                    let by_ = if y < i { y } else { y + 1 };
                    assert(a[x] == b[bx] && a[y] == b[by_]);
                }
                assert forall|q: int| 0 <= q < a.len() implies (#[trigger] a[q]).0 != pin by {
                    let bq = if q < i { q } else { q + 1 };
                    assert(a[q] == b[bq]);
                    assert(b[i as int].0 == pin);
                }
                lemma_inline_none_from(a, pin, a.len());
                assert forall|p: InPinId| p != pin implies #[trigger] inline_of(a, p) == inline_of(b, p) by {
                    lemma_inline_of_remove(b, i as int, p);
                }
                assert(self.nodes() == before.nodes() && self.wires() == before.wires() && self.cache() == before.cache());
                assert(self.live_wires() == before.live_wires());
            }
        } else {
            proof {
                lemma_inline_index_none(self.inline_values@, pin, i as nat);
            }
        }
    }

    /// Sets the inline value of an input; the node and everything
    /// downstream of it become dirty.
    pub fn set_inline_value(&mut self, pin: InPinId, value: EValue) -> (r: Result<(), GraphError>)
        requires
            old(self).wf(),
        ensures
            final(self).wf(),
            final(self).nodes() == old(self).nodes(),
            final(self).wires() == old(self).wires(),
            !old(self).nodes().contains_key(pin.node.0) ==> r == Err::<(), GraphError>(GraphError::UnknownNode(pin.node))
                && *final(self) == *old(self),
            old(self).nodes().contains_key(pin.node.0) ==> r is Ok,
            r is Ok ==> !final(self).cache().contains_key(pin.node.0) && match inline_index(
                final(self).inline_values(),
                pin,
                final(self).inline_values().len(),
            ) {
                Some(k) => final(self).inline_values()[k].1@ == value@,
                None => false,
            },
    {
        if snarl_get(&self.snarl, pin.node).is_none() {
            return Err(GraphError::UnknownNode(pin.node));
        }
        self.mark_dirty(pin.node);
        let mut i: usize = 0;
        while i < self.inline_values.len()
            invariant
                i <= self.inline_values@.len(),
                inline_index(self.inline_values@, pin, i as nat) is None,
                self.wf(),
                !self.cache().contains_key(pin.node.0),
                self.nodes() == old(self).nodes(),
                self.wires() == old(self).wires(),
            ensures
                i <= self.inline_values@.len(),
                i < self.inline_values@.len() ==> self.inline_values@[i as int].0 == pin,
                inline_index(self.inline_values@, pin, i as nat) is None,
            decreases self.inline_values.len() - i,
        {
            if self.inline_values[i].0 == pin {
                break;
            }
            i = i + 1;
        }
        let ghost before = self.inline_values@;
        let ghost snap = *self;
        if i < self.inline_values.len() {
            self.inline_values.set(i, (pin, value));
            proof {
                assert forall|a: int, b: int| 0 <= a < b < self.inline_values@.len() implies (#[trigger] self.inline_values@[a]).0
                    != (#[trigger] self.inline_values@[b]).0 by {
                    assert(before[i as int].0 == pin);
                    if a != i && b != i {
                        assert(before[a] == self.inline_values@[a] && before[b] == self.inline_values@[b]);
                    } else if a == i {
                        assert(before[b] == self.inline_values@[b]);
                    } else {
                        assert(before[a] == self.inline_values@[a]);
                    }
                }
                lemma_inline_prefix(before, self.inline_values@, pin, i as nat);
                lemma_inline_index_stable(self.inline_values@, pin, (i + 1) as nat, self.inline_values@.len());
            }
        } else {
            self.inline_values.push((pin, value));
            proof {
                lemma_inline_prefix(before, self.inline_values@, pin, i as nat);
                lemma_inline_index_none(before, pin, i as nat);
                assert forall|a: int, b: int| 0 <= a < b < self.inline_values@.len() implies (#[trigger] self.inline_values@[a]).0
                    != (#[trigger] self.inline_values@[b]).0 by {
                    if b == i {
                        assert(before[a].0 != pin);
                    } else {
                        assert(before[a] == self.inline_values@[a] && before[b] == self.inline_values@[b]);
                    }
                }
            }
        }
        assert(self.cache() == snap.cache() && self.nodes() == snap.nodes() && self.wires() == snap.wires());
        assert(self.live_wires() == snap.live_wires());
        Ok(())
    }
}

proof fn lemma_inline_index_none(vals: Seq<(InPinId, EValue)>, pin: InPinId, n: nat)
    requires
        n <= vals.len(),
        inline_index(vals, pin, n) is None,
    ensures
        forall|q: int| 0 <= q < n ==> (#[trigger] vals[q]).0 != pin,
    decreases n,
{
    if n > 0 {
        lemma_inline_index_none(vals, pin, (n - 1) as nat);
    }
}

/// The entry of a pin among inline values, if any.
pub open spec fn inline_of(vals: Seq<(InPinId, EValue)>, p: InPinId) -> Option<(InPinId, EValue)> {
    match inline_index(vals, p, vals.len()) {
        Some(k) => Some(vals[k]),
        None => None,
    }
}

proof fn lemma_inline_none_from(vals: Seq<(InPinId, EValue)>, pin: InPinId, n: nat)
    requires
        n <= vals.len(),
        forall|q: int| 0 <= q < vals.len() ==> (#[trigger] vals[q]).0 != pin,
    ensures
        inline_index(vals, pin, n) is None,
    decreases n,
{
    if n > 0 {
        lemma_inline_none_from(vals, pin, (n - 1) as nat);
    }
}

proof fn lemma_inline_index_bound(vals: Seq<(InPinId, EValue)>, pin: InPinId, n: nat)
    ensures
        inline_index(vals, pin, n) matches Some(k) ==> 0 <= k < n && k < vals.len() && vals[k].0 == pin,
    decreases n,
{
    if n > 0 {
        lemma_inline_index_bound(vals, pin, (n - 1) as nat);
    }
}

/// Removing the entry at `i` keeps what every other pin finds.
proof fn lemma_inline_of_remove(b: Seq<(InPinId, EValue)>, i: int, p: InPinId)
    requires
        0 <= i < b.len(),
        b[i].0 != p,
    ensures
        inline_of(b.remove(i), p) == inline_of(b, p),
{
    lemma_inline_index_remove(b, i, p, b.len());
    lemma_inline_index_bound(b, p, b.len());
    if let Some(k) = inline_index(b, p, b.len()) {
        if k < i {
            assert(b.remove(i)[k] == b[k]);
        } else {
            assert(b.remove(i)[k - 1] == b[k]);
        }
    }
}

proof fn lemma_inline_index_remove(b: Seq<(InPinId, EValue)>, i: int, p: InPinId, n: nat)
    requires
        0 <= i < b.len(),
        n <= b.len(),
        b[i].0 != p,
    ensures
        n <= i ==> inline_index(b.remove(i), p, n) == inline_index(b, p, n),
        n > i ==> match inline_index(b, p, n) {
            Some(k) => inline_index(b.remove(i), p, (n - 1) as nat) == Some(if k < i { k } else { k - 1 }),
            None => inline_index(b.remove(i), p, (n - 1) as nat) is None,
        },
    decreases n,
{
    if n > 0 {
        lemma_inline_index_remove(b, i, p, (n - 1) as nat);
        lemma_inline_index_bound(b, p, (n - 1) as nat);
        lemma_inline_index_bound(b, p, n);
        if n - 1 > i {
            assert(b.remove(i)[n - 2] == b[n - 1]);
        } else if n - 1 < i {
            assert(b.remove(i)[n - 1] == b[n - 1]);
        } else {
            assert(b[n - 1].0 != p);
            assert(inline_index(b, p, n) == inline_index(b, p, (n - 1) as nat));
        }
    }
}

proof fn lemma_inline_prefix(a: Seq<(InPinId, EValue)>, b: Seq<(InPinId, EValue)>, pin: InPinId, n: nat)
    requires
        n <= a.len(),
        n <= b.len(),
        forall|q: int| 0 <= q < n ==> a[q] == b[q],
    ensures
        inline_index(a, pin, n) == inline_index(b, pin, n),
    decreases n,
{
    if n > 0 {
        lemma_inline_prefix(a, b, pin, (n - 1) as nat);
    }
}

} // verus!
