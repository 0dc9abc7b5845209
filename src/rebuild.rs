use vstd::prelude::*;

use crate::fragment::{fragment_for, fragment_of, Fragment, FragmentKind};
use crate::graph::{attached_of, has_node, inputs_of, outputs_of, Descriptor, Graph, Link, Node};
use crate::order::runs_before;

verus! {

/// The live input cells of a node once its fragment is rebuilt: a variable
/// exposes one cell, fed by the scalar; a placeholder and the zero fallback
/// compute no signal and expose none.
pub open spec fn rebuilt_cells(n: Node) -> Seq<u32> {
    match fragment_of(n.operation@).kind {
        FragmentKind::Variable => seq![n.scalar],
        FragmentKind::Constant => Seq::empty(),
        FragmentKind::Placeholder => Seq::empty(),
    }
}

/// `b` is what the rebuild pass makes of `a`: a dirty node gets the
/// fragment its tag selects and fresh cells, a clean one stays as it was,
/// and both end clean.
pub open spec fn rebuilt_from(a: Node, b: Node) -> bool {
    &&& b.id == a.id
    &&& b.operation == a.operation
    &&& b.scalar == a.scalar
    &&& b.array == a.array
    &&& b.rank == a.rank
    &&& b.attached == a.attached
    &&& !b.dirty
    &&& a.dirty ==> b.fragment == fragment_of(a.operation@) && b.live_inputs@ == rebuilt_cells(a)
    &&& !a.dirty ==> b.fragment == a.fragment && b.live_inputs@ == a.live_inputs@
}

/// The number of dirty nodes in `nodes`.
pub open spec fn dirty_count(nodes: Seq<Node>) -> nat
    decreases nodes.len(),
{
    if nodes.len() == 0 {
        0
    } else if nodes.last().dirty {
        dirty_count(nodes.drop_last()) + 1
    } else {
        dirty_count(nodes.drop_last())
    }
}

/// One entry of the composed graph: the node at `position` of the store,
/// with its fragment, its descriptor lists and its live cells.
pub struct ComposedEntry {
    pub position: usize,
    pub node: u64,
    pub rank: u64,
    pub fragment: Fragment,
    pub inputs: Vec<Descriptor>,
    pub outputs: Vec<Descriptor>,
    pub live_inputs: Vec<u32>,
}

/// Some entry of `r` is the node at position `i`.
pub open spec fn lists_position(r: Seq<ComposedEntry>, i: usize) -> bool {
    exists|k: int| 0 <= k < r.len() && #[trigger] r[k].position == i
}

/// A copy of a list of cells.
fn copy_cells(v: &Vec<u32>) -> (r: Vec<u32>)
    ensures
        r@ == v@,
{
    let mut r: Vec<u32> = Vec::new();
    let mut i: usize = 0;
    while i < v.len()
        invariant
            i <= v@.len(),
            r@ == v@.subrange(0, i as int),
        decreases v@.len() - i,
    {
        r.push(v[i]);
        i += 1;
        assert(r@ =~= v@.subrange(0, i as int));
    }
    assert(v@.subrange(0, v@.len() as int) =~= v@);
    r
}

impl Graph {
    /// The output list of node `id`, derived from the links.
    pub fn output_descriptors(&self, id: u64) -> (r: Vec<Descriptor>)
        ensures
            r@ == outputs_of(self.links@, id),
    {
        let mut r: Vec<Descriptor> = Vec::new();
        let mut j: usize = 0;
        while j < self.links.len()
            invariant
                j <= self.links@.len(),
                r@ == outputs_of(self.links@.subrange(0, j as int), id),
            decreases self.links@.len() - j,
        {
            assert(self.links@.subrange(0, j + 1).drop_last() =~= self.links@.subrange(0, j as int));
            let l = self.links[j];
            if l.source == id {
                r.push(Descriptor { slot: l.source_slot, source_type: l.source_type, sink_type: l.sink_type });
            }
            j += 1;
        }
        assert(self.links@.subrange(0, self.links@.len() as int) =~= self.links@);
        r
    }

    /// The input list of node `id`, derived from the links.
    pub fn input_descriptors(&self, id: u64) -> (r: Vec<Descriptor>)
        ensures
            r@ == inputs_of(self.links@, id),
    {
        let mut r: Vec<Descriptor> = Vec::new();
        let mut j: usize = 0;
        while j < self.links.len()
            invariant
                j <= self.links@.len(),
                r@ == inputs_of(self.links@.subrange(0, j as int), id),
            decreases self.links@.len() - j,
        {
            assert(self.links@.subrange(0, j + 1).drop_last() =~= self.links@.subrange(0, j as int));
            let l = self.links[j];
            if l.sink == id {
                r.push(Descriptor { slot: l.sink_slot, source_type: l.source_type, sink_type: l.sink_type });
            }
            j += 1;
        }
        assert(self.links@.subrange(0, self.links@.len() as int) =~= self.links@);
        r
    }

    /// Rebuilds the fragment and live cells of every dirty node from its
    /// tag, and clears its dirty flag. Returns how many nodes were rebuilt.
    pub fn rebuild_fragments(&mut self) -> (count: usize)
        requires
            old(self).wf(),
        ensures
            final(self).wf(),
            final(self).next_node == old(self).next_node,
            final(self).next_link == old(self).next_link,
            final(self).links@ == old(self).links@,
            final(self).order_changed == old(self).order_changed,
            final(self).nodes@.len() == old(self).nodes@.len(),
            forall|j: int| 0 <= j < old(self).nodes@.len() ==> rebuilt_from(old(self).nodes@[j], #[trigger] final(self).nodes@[j]),
            forall|j: int| 0 <= j < final(self).nodes@.len() ==> !(#[trigger] final(self).nodes@[j]).dirty
                && final(self).nodes@[j].fragment == fragment_of(final(self).nodes@[j].operation@),
            count == dirty_count(old(self).nodes@),
    {
        let n = self.nodes.len();
        let mut count: usize = 0;
        let mut k: usize = 0;
        while k < n
            invariant
                n == self.nodes@.len(),
                n == old(self).nodes@.len(),
                k <= n,
                count <= k,
                count == dirty_count(old(self).nodes@.subrange(0, k as int)),
                self.links@ == old(self).links@,
                self.next_node == old(self).next_node,
                self.next_link == old(self).next_link,
                self.order_changed == old(self).order_changed,
                forall|q: int| 0 <= q < k ==> rebuilt_from(old(self).nodes@[q], #[trigger] self.nodes@[q]),
                forall|q: int| k <= q < n ==> #[trigger] self.nodes@[q] == old(self).nodes@[q],
            decreases n - k,
        {
            assert(old(self).nodes@.subrange(0, k + 1).drop_last() =~= old(self).nodes@.subrange(0, k as int));
            if self.nodes[k].dirty {
                let f = fragment_for(self.nodes[k].operation.as_str());
                match f.kind {
                    FragmentKind::Variable => {
                        let s = self.nodes[k].scalar;
                        self.nodes[k].live_inputs = vec![s];
                        assert(self.nodes@[k as int].live_inputs@ =~= seq![s]);
                    },
                    _ => {
                        self.nodes[k].live_inputs = Vec::new();
                    },
                }
                self.nodes[k].fragment = f;
                self.nodes[k].dirty = false;
                count += 1;
            }
            k += 1;
        }
        assert(old(self).nodes@.subrange(0, n as int) =~= old(self).nodes@);
        proof {
            assert forall|j: int| 0 <= j < self.nodes@.len() implies (#[trigger] self.nodes@[j]).id == old(self).nodes@[j].id by {
                assert(rebuilt_from(old(self).nodes@[j], self.nodes@[j]));
            }
            assert forall|j: int| 0 <= j < self.links@.len() implies has_node(self.nodes@, (#[trigger] self.links@[j]).source)
                && has_node(self.nodes@, self.links@[j].sink) by {
                let ns = old(self).nodes@;
                let a = choose|a: int| 0 <= a < ns.len() && ns[a].id == self.links@[j].source;
                let b = choose|b: int| 0 <= b < ns.len() && ns[b].id == self.links@[j].sink;
                assert(self.nodes@[a].id == ns[a].id);
                assert(self.nodes@[b].id == ns[b].id);
            }
            assert forall|j: int| 0 <= j < self.nodes@.len() && !(#[trigger] self.nodes@[j]).dirty
                implies self.nodes@[j].fragment == fragment_of(self.nodes@[j].operation@) by {
                assert(rebuilt_from(old(self).nodes@[j], self.nodes@[j]));
            }
            assert forall|j: int| 0 <= j < self.nodes@.len() implies (#[trigger] self.nodes@[j]).attached@
                == attached_of(self.links@, self.nodes@[j].id) by {
                assert(rebuilt_from(old(self).nodes@[j], self.nodes@[j]));
            }
        }
        count
    }

    /// Clears the retyped flag of every link: the pass has taken the new
    /// link types into the descriptor lists.
    pub fn clear_retyped(&mut self)
        requires
            old(self).wf(),
        ensures
            final(self).wf(),
            final(self).next_node == old(self).next_node,
            final(self).next_link == old(self).next_link,
            final(self).nodes@ == old(self).nodes@,
            final(self).order_changed == old(self).order_changed,
            final(self).links@.len() == old(self).links@.len(),
            forall|j: int| 0 <= j < old(self).links@.len() ==> #[trigger] final(self).links@[j] == (Link {
                retyped: false,
                ..old(self).links@[j]
            }),
    {
        let m = self.links.len();
        let mut j: usize = 0;
        while j < m
            invariant
                m == self.links@.len(),
                m == old(self).links@.len(),
                j <= m,
                self.nodes@ == old(self).nodes@,
                self.next_node == old(self).next_node,
                self.next_link == old(self).next_link,
                self.order_changed == old(self).order_changed,
                forall|q: int| 0 <= q < j ==> #[trigger] self.links@[q] == (Link { retyped: false, ..old(self).links@[q] }),
                forall|q: int| j <= q < m ==> #[trigger] self.links@[q] == old(self).links@[q],
            decreases m - j,
        {
            let l = self.links[j];
            self.links.set(j, Link { retyped: false, ..l });
            j += 1;
        }
        proof {
            assert forall|q: int| 0 <= q < m implies has_node(self.nodes@, (#[trigger] self.links@[q]).source)
                && has_node(self.nodes@, self.links@[q].sink) && self.links@[q].id < self.next_link by {
                assert(self.links@[q] == (Link { retyped: false, ..old(self).links@[q] }));
            }
            assert forall|a: int, b: int| 0 <= a < m && 0 <= b < m && a != b implies #[trigger] self.links@[a].id
                != #[trigger] self.links@[b].id by {
                assert(self.links@[a] == (Link { retyped: false, ..old(self).links@[a] }));
                assert(self.links@[b] == (Link { retyped: false, ..old(self).links@[b] }));
            }
            assert forall|q: int| 0 <= q < m implies (#[trigger] old(self).links@[q]).id == self.links@[q].id
                && old(self).links@[q].source == self.links@[q].source && old(self).links@[q].sink == self.links@[q].sink by {
                assert(self.links@[q] == (Link { retyped: false, ..old(self).links@[q] }));
            }
            assert forall|j: int| 0 <= j < self.nodes@.len() implies (#[trigger] self.nodes@[j]).attached@
                == attached_of(self.links@, self.nodes@[j].id) by {
                crate::graph::lemma_attached_shape(old(self).links@, self.links@, self.nodes@[j].id);
            }
        }
    }

    /// Reads and lowers the order-changed flag: several changes in one
    /// cycle are seen once.
    pub fn take_order_changed(&mut self) -> (changed: bool)
        requires
            old(self).wf(),
        ensures
            final(self).wf(),
            final(self).next_node == old(self).next_node,
            final(self).next_link == old(self).next_link,
            changed == old(self).order_changed,
            !final(self).order_changed,
            final(self).nodes@ == old(self).nodes@,
            final(self).links@ == old(self).links@,
    {
        let changed = self.order_changed;
        self.order_changed = false;
        changed
    }

    /// The composed graph of the current state: one entry per node, in the
    /// order the nodes run, each with its fragment, its descriptor lists and
    /// its live cells.
    pub fn composed(&self) -> (r: Vec<ComposedEntry>)
        ensures
            r@.len() == self.nodes@.len(),
            forall|a: int, b: int|
                0 <= a < b < r@.len() ==> runs_before(self.nodes@, #[trigger] r@[a].position as int, #[trigger] r@[b].position as int),
            forall|i: usize| i < self.nodes@.len() ==> #[trigger] lists_position(r@, i),
            forall|k: int| 0 <= k < r@.len() ==> {
                let e = #[trigger] r@[k];
                let n = self.nodes@[e.position as int];
                &&& e.position < self.nodes@.len()
                &&& e.node == n.id
                &&& e.rank == n.rank
                &&& e.fragment == n.fragment
                &&& e.inputs@ == inputs_of(self.links@, n.id)
                &&& e.outputs@ == outputs_of(self.links@, n.id)
                &&& e.live_inputs@ == n.live_inputs@
            },
    {
        let order = self.rank_order();
        let mut r: Vec<ComposedEntry> = Vec::new();
        let mut k: usize = 0;
        while k < order.len()
            invariant
                order@.len() == self.nodes@.len(),
                forall|q: int| 0 <= q < order@.len() ==> #[trigger] order@[q] < self.nodes@.len(),
                k <= order@.len(),
                r@.len() == k,
                forall|q: int| 0 <= q < k ==> (#[trigger] r@[q]).position == order@[q],
                forall|q: int| 0 <= q < k ==> {
                    let e = #[trigger] r@[q];
                    let n = self.nodes@[e.position as int];
                    &&& e.node == n.id
                    &&& e.rank == n.rank
                    &&& e.fragment == n.fragment
                    &&& e.inputs@ == inputs_of(self.links@, n.id)
                    &&& e.outputs@ == outputs_of(self.links@, n.id)
                    &&& e.live_inputs@ == n.live_inputs@
                },
            decreases order@.len() - k,
        {
            let p = order[k];
            let node = &self.nodes[p];
            let entry = ComposedEntry {
                position: p,
                node: node.id,
                rank: node.rank,
                fragment: node.fragment,
                inputs: self.input_descriptors(node.id),
                outputs: self.output_descriptors(node.id),
                live_inputs: copy_cells(&node.live_inputs),
            };
            r.push(entry);
            k += 1;
        }
        proof {
            assert forall|a: int, b: int| 0 <= a < b < r@.len() implies runs_before(self.nodes@, #[trigger] r@[a].position as int, #[trigger] r@[b].position as int) by {
                assert(r@[a].position == order@[a] && r@[b].position == order@[b]);
            }
            assert forall|i: usize| i < self.nodes@.len() implies #[trigger] lists_position(r@, i) by {
                assert(order@.contains(i));
                let q = choose|q: int| 0 <= q < order@.len() && order@[q] == i;
                assert(r@[q].position == i);
            }
        }
        r
    }

    /// One rebuild pass: rebuilds dirty fragments, takes the link changes
    /// into the descriptor lists, lowers the order-changed flag, and hands out
    /// the composed graph of the resulting state.
    pub fn rebuild(&mut self) -> (r: Vec<ComposedEntry>)
        requires
            old(self).wf(),
        ensures
            final(self).wf(),
            final(self).next_node == old(self).next_node,
            final(self).next_link == old(self).next_link,
            !final(self).order_changed,
            final(self).nodes@.len() == old(self).nodes@.len(),
            forall|j: int| 0 <= j < old(self).nodes@.len() ==> rebuilt_from(old(self).nodes@[j], #[trigger] final(self).nodes@[j]),
            forall|j: int| 0 <= j < final(self).nodes@.len() ==> !(#[trigger] final(self).nodes@[j]).dirty
                && final(self).nodes@[j].fragment == fragment_of(final(self).nodes@[j].operation@),
            final(self).links@.len() == old(self).links@.len(),
            forall|j: int| 0 <= j < old(self).links@.len() ==> #[trigger] final(self).links@[j] == (Link {
                retyped: false,
                ..old(self).links@[j]
            }),
            r@.len() == final(self).nodes@.len(),
            forall|a: int, b: int|
                0 <= a < b < r@.len() ==> runs_before(final(self).nodes@, #[trigger] r@[a].position as int, #[trigger] r@[b].position as int),
            forall|i: usize| i < final(self).nodes@.len() ==> #[trigger] lists_position(r@, i),
            forall|k: int| 0 <= k < r@.len() ==> {
                let e = #[trigger] r@[k];
                let n = final(self).nodes@[e.position as int];
                &&& e.position < final(self).nodes@.len()
                &&& e.node == n.id
                &&& e.rank == n.rank
                &&& e.fragment == n.fragment
                &&& e.inputs@ == inputs_of(final(self).links@, n.id)
                &&& e.outputs@ == outputs_of(final(self).links@, n.id)
                &&& e.live_inputs@ == n.live_inputs@
            },
    {
        self.rebuild_fragments();
        self.clear_retyped();
        self.take_order_changed();
        self.composed()
    }
}

} // verus!
