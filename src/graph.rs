use vstd::prelude::*;

use crate::fragment::{fragment_of, initial_fragment, Fragment, FragmentKind};
use crate::seqs::{dropped, keep};

verus! {

/// Why a structural command was rejected. A rejected command leaves the
/// graph as it was.
#[derive(Clone, Copy, Debug, PartialEq, Eq, Structural)]
pub enum GraphError {
    /// The command names a node or link that is not in the graph.
    InvalidEndpoint,
    /// Every handle of the kind asked for has been handed out.
    HandlesExhausted,
}

/// One entry of a node's input or output list: the slot and the link-type
/// codes of one attached link.
#[derive(Clone, Copy, Debug, PartialEq, Eq, Structural)]
pub struct Descriptor {
    pub slot: usize,
    pub source_type: i32,
    pub sink_type: i32,
}

/// A node of the graph. `scalar` and `array` hold the bit patterns of the
/// node's `f32` parameters; the graph stores them and never reads them as
/// numbers.
pub struct Node {
    pub id: u64,
    pub operation: String,
    pub scalar: u32,
    pub array: Vec<u32>,
    pub fragment: Fragment,
    pub live_inputs: Vec<u32>,
    pub rank: u64,
    pub dirty: bool,
    /// The handles of the links attached to this node. The link table owns
    /// the endpoints; this is the node's index of them, for traversal.
    pub attached: Vec<u64>,
}

/// A directed link from an output slot of `source` to an input slot of
/// `sink`. The record owns both mirrored endpoints: the one attached under
/// the sink node (carrying the type codes and flags) and the one attached
/// under the source node.
#[derive(Clone, Copy, Debug, PartialEq, Eq, Structural)]
pub struct Link {
    pub id: u64,
    pub source: u64,
    pub source_slot: usize,
    pub sink: u64,
    pub sink_slot: usize,
    pub source_type: i32,
    pub sink_type: i32,
    pub open: bool,
    pub retyped: bool,
}

/// The node store, the link table and the order-changed flag, in insertion
/// order.
pub struct Graph {
    pub nodes: Vec<Node>,
    pub links: Vec<Link>,
    pub next_node: u64,
    pub next_link: u64,
    pub order_changed: bool,
}

pub open spec fn has_node(nodes: Seq<Node>, id: u64) -> bool {
    exists|i: int| 0 <= i < nodes.len() && (#[trigger] nodes[i]).id == id
}

pub open spec fn has_link(links: Seq<Link>, id: u64) -> bool {
    exists|i: int| 0 <= i < links.len() && (#[trigger] links[i]).id == id
}

/// The link that `connect` creates: untyped, open, and flagged for the
/// rebuild pass.
pub open spec fn new_link(id: u64, source: u64, source_slot: usize, sink: u64, sink_slot: usize) -> Link {
    Link {
        id,
        source,
        source_slot,
        sink,
        sink_slot,
        source_type: 0,
        sink_type: 0,
        open: true,
        retyped: true,
    }
}

/// The output list of node `n`: one descriptor per link leaving it, in link
/// order.
pub open spec fn outputs_of(links: Seq<Link>, n: u64) -> Seq<Descriptor>
    decreases links.len(),
{
    if links.len() == 0 {
        Seq::empty()
    } else if links.last().source == n {
        outputs_of(links.drop_last(), n).push(
            Descriptor {
                slot: links.last().source_slot,
                source_type: links.last().source_type,
                sink_type: links.last().sink_type,
            },
        )
    } else {
        outputs_of(links.drop_last(), n)
    }
}

/// The input list of node `n`: one descriptor per link entering it, in link
/// order.
pub open spec fn inputs_of(links: Seq<Link>, n: u64) -> Seq<Descriptor>
    decreases links.len(),
{
    if links.len() == 0 {
        Seq::empty()
    } else if links.last().sink == n {
        inputs_of(links.drop_last(), n).push(
            Descriptor {
                slot: links.last().sink_slot,
                source_type: links.last().source_type,
                sink_type: links.last().sink_type,
            },
        )
    } else {
        inputs_of(links.drop_last(), n)
    }
}

/// The handles of the links attached to node `n`, in link order: those it
/// feeds (their sink-side endpoint hangs under `n`) and those that feed it
/// (their source-side endpoint hangs under `n`), a link from `n` to itself
/// once.
pub open spec fn attached_of(links: Seq<Link>, n: u64) -> Seq<u64>
    decreases links.len(),
{
    if links.len() == 0 {
        Seq::empty()
    } else if links.last().source == n || links.last().sink == n {
        attached_of(links.drop_last(), n).push(links.last().id)
    } else {
        attached_of(links.drop_last(), n)
    }
}

/// `b` is `a` with a new attachment list, and nothing else changed.
pub open spec fn same_but_attached(a: Node, b: Node) -> bool {
    &&& b.id == a.id
    &&& b.operation == a.operation
    &&& b.scalar == a.scalar
    &&& b.array == a.array
    &&& b.fragment == a.fragment
    &&& b.live_inputs == a.live_inputs
    &&& b.rank == a.rank
    &&& b.dirty == a.dirty
}

/// Holds of the handles outside `ids`.
pub open spec fn not_in(ids: Seq<u64>) -> spec_fn(u64) -> bool {
    |x: u64| !ids.contains(x)
}

pub proof fn lemma_attached_push(links: Seq<Link>, l: Link, n: u64)
    ensures
        attached_of(links.push(l), n) == (if l.source == n || l.sink == n {
            attached_of(links, n).push(l.id)
        } else {
            attached_of(links, n)
        }),
{
    assert(links.push(l).drop_last() =~= links);
}

pub proof fn lemma_attached_untouched(links: Seq<Link>, n: u64)
    requires
        forall|k: int| 0 <= k < links.len() ==> (#[trigger] links[k]).source != n && links[k].sink != n,
    ensures
        attached_of(links, n) == Seq::<u64>::empty(),
    decreases links.len(),
{
    if links.len() > 0 {
        let d = links.drop_last();
        assert forall|k: int| 0 <= k < d.len() implies (#[trigger] d[k]).source != n && d[k].sink != n by {
            assert(d[k] == links[k]);
        }
        lemma_attached_untouched(d, n);
        assert(links[links.len() - 1] == links.last());
    }
}

/// Attachment depends on the handles and endpoints of the links alone.
pub proof fn lemma_attached_shape(a: Seq<Link>, b: Seq<Link>, n: u64)
    requires
        a.len() == b.len(),
        forall|k: int|
            0 <= k < a.len() ==> (#[trigger] a[k]).id == b[k].id && a[k].source == b[k].source && a[k].sink
                == b[k].sink,
    ensures
        attached_of(a, n) == attached_of(b, n),
    decreases a.len(),
{
    if a.len() > 0 {
        let (da, db) = (a.drop_last(), b.drop_last());
        assert forall|k: int| 0 <= k < da.len() implies (#[trigger] da[k]).id == db[k].id && da[k].source
            == db[k].source && da[k].sink == db[k].sink by {
            assert(da[k] == a[k] && db[k] == b[k]);
        }
        lemma_attached_shape(da, db, n);
        assert(a[a.len() - 1] == a.last() && b[b.len() - 1] == b.last());
    }
}

/// Removing links from the table removes their handles from each node's
/// attachment list, where `drop` tells the removed links by handle.
pub proof fn lemma_attached_keep(links: Seq<Link>, surv: spec_fn(Link) -> bool, drop: Seq<u64>, n: u64)
    requires
        forall|k: int| 0 <= k < links.len() ==> not_in(drop)((#[trigger] links[k]).id) == surv(links[k]),
    ensures
        attached_of(keep(links, surv), n) == keep(attached_of(links, n), not_in(drop)),
    decreases links.len(),
{
    if links.len() > 0 {
        let d = links.drop_last();
        let l = links.last();
        assert forall|k: int| 0 <= k < d.len() implies not_in(drop)((#[trigger] d[k]).id) == surv(d[k]) by {
            assert(d[k] == links[k]);
        }
        lemma_attached_keep(d, surv, drop, n);
        assert(links[links.len() - 1] == l);
        assert(d.push(l) =~= links);
        crate::seqs::lemma_keep_push(d, surv, l);
        lemma_attached_push(d, l, n);
        lemma_attached_push(keep(d, surv), l, n);
        crate::seqs::lemma_keep_push(attached_of(d, n), not_in(drop), l.id);
    }
}

/// The links that remain once link `id` is removed.
pub open spec fn links_without(links: Seq<Link>, id: u64) -> Seq<Link> {
    keep(links, other_than(id))
}

/// Holds of every link but link `id`.
pub open spec fn other_than(id: u64) -> spec_fn(Link) -> bool {
    |l: Link| l.id != id
}

/// Whether a link has an endpoint on a node of `batch`.
pub open spec fn touches(l: Link, batch: Seq<u64>) -> bool {
    batch.contains(l.source) || batch.contains(l.sink)
}

/// Holds of the links that the deletion of `batch` leaves in place.
pub open spec fn link_survives(batch: Seq<u64>) -> spec_fn(Link) -> bool {
    |l: Link| !touches(l, batch)
}

/// Holds of the nodes outside `batch`.
pub open spec fn node_survives(batch: Seq<u64>) -> spec_fn(Node) -> bool {
    |n: Node| !batch.contains(n.id)
}

/// The links that survive the deletion of the nodes in `batch`.
pub open spec fn links_surviving(links: Seq<Link>, batch: Seq<u64>) -> Seq<Link> {
    keep(links, link_survives(batch))
}

/// The number of links that the deletion of `batch` removes: each link with
/// an endpoint in the batch counts once, also when both are.
pub open spec fn links_removed(links: Seq<Link>, batch: Seq<u64>) -> nat {
    dropped(links, link_survives(batch))
}

/// Every handle of `batch` names a node of `nodes`.
pub open spec fn all_present(nodes: Seq<Node>, batch: Seq<u64>) -> bool {
    forall|k: int| 0 <= k < batch.len() ==> has_node(nodes, #[trigger] batch[k])
}

/// The nodes that survive the deletion of the nodes in `batch`.
pub open spec fn nodes_surviving(nodes: Seq<Node>, batch: Seq<u64>) -> Seq<Node> {
    keep(nodes, node_survives(batch))
}

/// The position of node `id`; meaningful when the node is present.
pub open spec fn node_index(nodes: Seq<Node>, id: u64) -> int {
    choose|i: int| 0 <= i < nodes.len() && nodes[i].id == id
}

/// `a` and `b` hold the same nodes but at position `i`.
pub open spec fn same_except(a: Seq<Node>, b: Seq<Node>, i: int) -> bool {
    &&& a.len() == b.len()
    &&& 0 <= i < a.len()
    &&& forall|j: int| 0 <= j < a.len() && j != i ==> #[trigger] a[j] == b[j]
}

/// The cells that a built fragment reads, after a new scalar is pushed: the
/// scalar feeds cell 0.
pub open spec fn push_scalar(cells: Seq<u32>, scalar: u32) -> Seq<u32> {
    if cells.len() > 0 {
        cells.update(0, scalar)
    } else {
        cells
    }
}

/// The cells after a new array is pushed: element `k` feeds cell `k + 1`.
pub open spec fn push_array(cells: Seq<u32>, array: Seq<u32>) -> Seq<u32> {
    Seq::new(cells.len(), |k: int| if 1 <= k && k - 1 < array.len() { array[k - 1] } else { cells[k] })
}

impl Graph {
    /// The graph's invariant: handles are unique and below the next handle
    /// to hand out, every link's two endpoints are attached to nodes of the
    /// graph, each node's attachment index lists exactly the links attached
    /// to it, and a clean node's fragment is the one its tag selects.
    pub open spec fn wf(&self) -> bool {
        &&& forall|i: int, j: int|
            0 <= i < self.nodes@.len() && 0 <= j < self.nodes@.len() && i != j
                ==> #[trigger] self.nodes@[i].id != #[trigger] self.nodes@[j].id
        &&& forall|i: int| 0 <= i < self.nodes@.len() ==> #[trigger] self.nodes@[i].id < self.next_node
        &&& forall|i: int, j: int|
            0 <= i < self.links@.len() && 0 <= j < self.links@.len() && i != j
                ==> #[trigger] self.links@[i].id != #[trigger] self.links@[j].id
        &&& forall|i: int| 0 <= i < self.links@.len() ==> #[trigger] self.links@[i].id < self.next_link
        &&& forall|i: int|
            0 <= i < self.links@.len() ==> has_node(self.nodes@, (#[trigger] self.links@[i]).source)
                && has_node(self.nodes@, self.links@[i].sink)
        &&& forall|i: int|
            0 <= i < self.nodes@.len() && !(#[trigger] self.nodes@[i]).dirty
                ==> self.nodes@[i].fragment == fragment_of(self.nodes@[i].operation@)
        &&& forall|i: int|
            0 <= i < self.nodes@.len() ==> (#[trigger] self.nodes@[i]).attached@ == attached_of(
                self.links@,
                self.nodes@[i].id,
            )
    }

    /// An empty graph.
    pub fn new() -> (g: Graph)
        ensures
            g.wf(),
            g.next_node == 0,
            g.next_link == 0,
            g.nodes@.len() == 0,
            g.links@.len() == 0,
            !g.order_changed,
    {
        Graph { nodes: Vec::new(), links: Vec::new(), next_node: 0, next_link: 0, order_changed: false }
    }

    /// The position of node `id` in the store.
    pub fn find_node(&self, id: u64) -> (r: Option<usize>)
        ensures
            match r {
                Some(i) => i < self.nodes@.len() && self.nodes@[i as int].id == id,
                None => !has_node(self.nodes@, id),
            },
    {
        let mut i: usize = 0;
        while i < self.nodes.len()
            invariant
                i <= self.nodes@.len(),
                forall|k: int| 0 <= k < i ==> (#[trigger] self.nodes@[k]).id != id,
            decreases self.nodes@.len() - i,
        {
            if self.nodes[i].id == id {
                return Some(i);
            }
            i += 1;
        }
        None
    }

    /// The position of link `id` in the table.
    pub fn find_link(&self, id: u64) -> (r: Option<usize>)
        ensures
            match r {
                Some(i) => i < self.links@.len() && self.links@[i as int].id == id,
                None => !has_link(self.links@, id),
            },
    {
        let mut i: usize = 0;
        while i < self.links.len()
            invariant
                i <= self.links@.len(),
                forall|k: int| 0 <= k < i ==> (#[trigger] self.links@[k]).id != id,
            decreases self.links@.len() - i,
        {
            if self.links[i].id == id {
                return Some(i);
            }
            i += 1;
        }
        None
    }

    /// The node with handle `id`, if it is in the graph.
    pub fn node(&self, id: u64) -> (r: Option<&Node>)
        ensures
            match r {
                Some(n) => n.id == id && exists|i: int|
                    0 <= i < self.nodes@.len() && self.nodes@[i] == *n,
                None => !has_node(self.nodes@, id),
            },
    {
        match self.find_node(id) {
            Some(i) => Some(&self.nodes[i]),
            None => None,
        }
    }

    /// The link with handle `id`, if it is in the graph.
    pub fn link(&self, id: u64) -> (r: Option<Link>)
        ensures
            match r {
                Some(l) => l.id == id && self.links@.contains(l),
                None => !has_link(self.links@, id),
            },
    {
        match self.find_link(id) {
            Some(i) => Some(self.links[i]),
            None => None,
        }
    }

    /// Places a new node: rank 0, dirty, with the initial fragment and no
    /// live input cells.
    pub fn create_node(&mut self, operation: String, scalar: u32, array: Vec<u32>) -> (r: Result<
        u64,
        GraphError,
    >)
        requires
            old(self).wf(),
        ensures
            final(self).wf(),
            final(self).next_link == old(self).next_link,
            final(self).next_node == (if r is Ok { old(self).next_node + 1 } else { old(self).next_node as int }),
            final(self).links@ == old(self).links@,
            final(self).order_changed == old(self).order_changed,
            old(self).next_node == u64::MAX ==> r == Err::<u64, GraphError>(
                GraphError::HandlesExhausted,
            ) && final(self).nodes@ == old(self).nodes@,
            old(self).next_node < u64::MAX ==> {
                &&& r == Ok::<u64, GraphError>(old(self).next_node)
                &&& !has_node(old(self).nodes@, old(self).next_node)
                &&& final(self).nodes@.len() == old(self).nodes@.len() + 1
                &&& final(self).nodes@.drop_last() == old(self).nodes@
                &&& final(self).nodes@.last().id == old(self).next_node
                &&& final(self).nodes@.last().operation@ == operation@
                &&& final(self).nodes@.last().scalar == scalar
                &&& final(self).nodes@.last().array@ == array@
                &&& final(self).nodes@.last().fragment == initial_fragment()
                &&& final(self).nodes@.last().live_inputs@.len() == 0
                &&& final(self).nodes@.last().rank == 0
                &&& final(self).nodes@.last().dirty
            },
    {
        if self.next_node == u64::MAX {
            return Err(GraphError::HandlesExhausted);
        }
        let id = self.next_node;
        let node = Node {
            id,
            operation,
            scalar,
            array,
            fragment: Fragment { kind: FragmentKind::Placeholder, inputs: 0, outputs: 1 },
            live_inputs: Vec::new(),
            rank: 0,
            dirty: true,
            attached: Vec::new(),
        };
        self.nodes.push(node);
        self.next_node = id + 1;
        assert(self.nodes@.drop_last() =~= old(self).nodes@);
        assert(forall|i: int| 0 <= i < old(self).nodes@.len() ==> self.nodes@[i] == old(self).nodes@[i]);
        assert forall|i: int| 0 <= i < self.links@.len() implies has_node(self.nodes@, (#[trigger] self.links@[i]).source)
            && has_node(self.nodes@, self.links@[i].sink) by {
            let a = choose|a: int| 0 <= a < old(self).nodes@.len() && old(self).nodes@[a].id == self.links@[i].source;
            let b = choose|b: int| 0 <= b < old(self).nodes@.len() && old(self).nodes@[b].id == self.links@[i].sink;
            assert(self.nodes@[a].id == self.links@[i].source);
            assert(self.nodes@[b].id == self.links@[i].sink);
        }
        assert forall|k: int| 0 <= k < self.links@.len() implies (#[trigger] self.links@[k]).source != id
            && self.links@[k].sink != id by {
            let a = choose|a: int| 0 <= a < old(self).nodes@.len() && old(self).nodes@[a].id == self.links@[k].source;
            let b = choose|b: int| 0 <= b < old(self).nodes@.len() && old(self).nodes@[b].id == self.links@[k].sink;
        }
        proof {
            lemma_attached_untouched(self.links@, id);
        }
        assert(self.nodes@.last().attached@ =~= Seq::<u64>::empty());
        Ok(id)
    }

    proof fn lemma_index_unique(&self, id: u64, i: int)
        requires
            self.wf(),
            0 <= i < self.nodes@.len(),
            self.nodes@[i].id == id,
        ensures
            node_index(self.nodes@, id) == i,
    {
        let k = node_index(self.nodes@, id);
        assert(0 <= k < self.nodes@.len() && self.nodes@[k].id == id);
    }

    proof fn lemma_same_ids_wf(&self, other: &Graph, i: int)
        requires
            self.wf(),
            same_except(self.nodes@, other.nodes@, i),
            other.nodes@[i].id == self.nodes@[i].id,
            other.nodes@[i].attached == self.nodes@[i].attached,
            other.links@ == self.links@,
            other.next_node == self.next_node,
            other.next_link == self.next_link,
            !other.nodes@[i].dirty ==> other.nodes@[i].fragment == fragment_of(other.nodes@[i].operation@),
        ensures
            other.wf(),
    {
        assert forall|j: int| 0 <= j < other.nodes@.len() implies (#[trigger] other.nodes@[j]).id == self.nodes@[j].id by {
            if j != i {
                assert(other.nodes@[j] == self.nodes@[j]);
            }
        }
        assert forall|j: int| 0 <= j < other.links@.len() implies has_node(other.nodes@, (#[trigger] other.links@[j]).source)
            && has_node(other.nodes@, other.links@[j].sink) by {
            let a = choose|a: int| 0 <= a < self.nodes@.len() && self.nodes@[a].id == self.links@[j].source;
            let b = choose|b: int| 0 <= b < self.nodes@.len() && self.nodes@[b].id == self.links@[j].sink;
            assert(other.nodes@[a].id == self.nodes@[a].id);
            assert(other.nodes@[b].id == self.nodes@[b].id);
        }
        assert forall|j: int| 0 <= j < other.nodes@.len() && !(#[trigger] other.nodes@[j]).dirty
            implies other.nodes@[j].fragment == fragment_of(other.nodes@[j].operation@) by {
            if j != i {
                assert(other.nodes@[j] == self.nodes@[j]);
            }
        }
        assert forall|j: int| 0 <= j < other.nodes@.len() implies (#[trigger] other.nodes@[j]).attached@
            == attached_of(other.links@, other.nodes@[j].id) by {
            if j != i {
                assert(other.nodes@[j] == self.nodes@[j]);
            }
        }
    }

    /// Changes a node's operation tag. The fragment is left as it is: the
    /// node is only flagged dirty, and the rebuild pass rebuilds it.
    pub fn set_operation(&mut self, id: u64, operation: String) -> (r: Result<(), GraphError>)
        requires
            old(self).wf(),
        ensures
            final(self).wf(),
            final(self).next_node == old(self).next_node,
            final(self).next_link == old(self).next_link,
            final(self).links@ == old(self).links@,
            final(self).order_changed == old(self).order_changed,
            !has_node(old(self).nodes@, id) ==> r == Err::<(), GraphError>(GraphError::InvalidEndpoint)
                && final(self).nodes@ == old(self).nodes@,
            has_node(old(self).nodes@, id) ==> {
                let i = node_index(old(self).nodes@, id);
                let (a, b) = (old(self).nodes@[i], final(self).nodes@[i]);
                &&& r == Ok::<(), GraphError>(())
                &&& same_except(old(self).nodes@, final(self).nodes@, i)
                &&& b.id == a.id && b.scalar == a.scalar && b.array == a.array && b.rank == a.rank
                &&& b.fragment == a.fragment && b.live_inputs == a.live_inputs && b.attached == a.attached
                &&& b.operation@ == operation@
                &&& b.dirty
            },
    {
        let i = match self.find_node(id) {
            Some(i) => i,
            None => return Err(GraphError::InvalidEndpoint),
        };
        proof {
            self.lemma_index_unique(id, i as int);
        }
        self.nodes[i].operation = operation;
        self.nodes[i].dirty = true;
        proof {
            old(self).lemma_same_ids_wf(self, i as int);
        }
        Ok(())
    }

    /// Changes a node's scalar parameter. Where the node's fragment is built
    /// (the node is clean), the value is pushed into live input cell 0.
    pub fn set_scalar(&mut self, id: u64, scalar: u32) -> (r: Result<(), GraphError>)
        requires
            old(self).wf(),
        ensures
            final(self).wf(),
            final(self).next_node == old(self).next_node,
            final(self).next_link == old(self).next_link,
            final(self).links@ == old(self).links@,
            final(self).order_changed == old(self).order_changed,
            !has_node(old(self).nodes@, id) ==> r == Err::<(), GraphError>(GraphError::InvalidEndpoint)
                && final(self).nodes@ == old(self).nodes@,
            has_node(old(self).nodes@, id) ==> {
                let i = node_index(old(self).nodes@, id);
                let (a, b) = (old(self).nodes@[i], final(self).nodes@[i]);
                &&& r == Ok::<(), GraphError>(())
                &&& same_except(old(self).nodes@, final(self).nodes@, i)
                &&& b.id == a.id && b.operation == a.operation && b.array == a.array
                &&& b.rank == a.rank && b.fragment == a.fragment && b.dirty == a.dirty && b.attached == a.attached
                &&& b.scalar == scalar
                &&& b.live_inputs@ == (if a.dirty { a.live_inputs@ } else { push_scalar(a.live_inputs@, scalar) })
            },
    {
        let i = match self.find_node(id) {
            Some(i) => i,
            None => return Err(GraphError::InvalidEndpoint),
        };
        proof {
            self.lemma_index_unique(id, i as int);
        }
        self.nodes[i].scalar = scalar;
        if !self.nodes[i].dirty && self.nodes[i].live_inputs.len() > 0 {
            self.nodes[i].live_inputs.set(0, scalar);
        }
        proof {
            old(self).lemma_same_ids_wf(self, i as int);
            assert(self.nodes@[i as int].live_inputs@ =~= (if old(self).nodes@[i as int].dirty {
                old(self).nodes@[i as int].live_inputs@
            } else {
                push_scalar(old(self).nodes@[i as int].live_inputs@, scalar)
            }));
        }
        Ok(())
    }

    /// Changes a node's array parameter. Where the node's fragment is built,
    /// element `k` is pushed into live input cell `k + 1`.
    pub fn set_array(&mut self, id: u64, array: Vec<u32>) -> (r: Result<(), GraphError>)
        requires
            old(self).wf(),
        ensures
            final(self).wf(),
            final(self).next_node == old(self).next_node,
            final(self).next_link == old(self).next_link,
            final(self).links@ == old(self).links@,
            final(self).order_changed == old(self).order_changed,
            !has_node(old(self).nodes@, id) ==> r == Err::<(), GraphError>(GraphError::InvalidEndpoint)
                && final(self).nodes@ == old(self).nodes@,
            has_node(old(self).nodes@, id) ==> {
                let i = node_index(old(self).nodes@, id);
                let (a, b) = (old(self).nodes@[i], final(self).nodes@[i]);
                &&& r == Ok::<(), GraphError>(())
                &&& same_except(old(self).nodes@, final(self).nodes@, i)
                &&& b.id == a.id && b.operation == a.operation && b.scalar == a.scalar
                &&& b.rank == a.rank && b.fragment == a.fragment && b.dirty == a.dirty && b.attached == a.attached
                &&& b.array@ == array@
                &&& b.live_inputs@ == (if a.dirty { a.live_inputs@ } else { push_array(a.live_inputs@, array@) })
            },
    {
        let i = match self.find_node(id) {
            Some(i) => i,
            None => return Err(GraphError::InvalidEndpoint),
        };
        proof {
            self.lemma_index_unique(id, i as int);
        }
        if !self.nodes[i].dirty {
            let n = self.nodes[i].live_inputs.len();
            let mut k: usize = 1;
            while k < n
                invariant
                    1 <= k,
                    i < self.nodes@.len(),
                    same_except(old(self).nodes@, self.nodes@, i as int),
                    self.links@ == old(self).links@,
                    self.next_node == old(self).next_node,
                    self.next_link == old(self).next_link,
                    self.order_changed == old(self).order_changed,
                    n == old(self).nodes@[i as int].live_inputs@.len(),
                    self.nodes@[i as int].live_inputs@.len() == n,
                    self.nodes@[i as int].id == old(self).nodes@[i as int].id,
                    self.nodes@[i as int].operation == old(self).nodes@[i as int].operation,
                    self.nodes@[i as int].scalar == old(self).nodes@[i as int].scalar,
                    self.nodes@[i as int].array == old(self).nodes@[i as int].array,
                    self.nodes@[i as int].rank == old(self).nodes@[i as int].rank,
                    self.nodes@[i as int].fragment == old(self).nodes@[i as int].fragment,
                    self.nodes@[i as int].dirty == old(self).nodes@[i as int].dirty,
                    self.nodes@[i as int].attached == old(self).nodes@[i as int].attached,
                    forall|j: int| 0 <= j < n ==> #[trigger] self.nodes@[i as int].live_inputs@[j] == (if 1 <= j < k && j - 1 < array@.len() {
                        array@[j - 1]
                    } else {
                        old(self).nodes@[i as int].live_inputs@[j]
                    }),
                decreases n - k,
            {
                if k - 1 < array.len() {
                    let v = array[k - 1];
                    self.nodes[i].live_inputs.set(k, v);
                }
                k += 1;
            }
        }
        self.nodes[i].array = array;
        proof {
            old(self).lemma_same_ids_wf(self, i as int);
            assert(self.nodes@[i as int].live_inputs@ =~= (if old(self).nodes@[i as int].dirty {
                old(self).nodes@[i as int].live_inputs@
            } else {
                push_array(old(self).nodes@[i as int].live_inputs@, array@)
            }));
        }
        Ok(())
    }

    /// Links output slot `source_slot` of `source` to input slot `sink_slot`
    /// of `sink`. Both nodes must be in the graph. The new link is untyped
    /// (both codes 0), open and flagged for the rebuild pass, and it appends
    /// one descriptor to the source's output list and one to the sink's
    /// input list.
    pub fn connect(&mut self, source: u64, source_slot: usize, sink: u64, sink_slot: usize) -> (r: Result<u64, GraphError>)
        requires
            old(self).wf(),
        ensures
            final(self).wf(),
            final(self).next_node == old(self).next_node,
            final(self).next_link == (if r is Ok { old(self).next_link + 1 } else { old(self).next_link as int }),
            final(self).nodes@.len() == old(self).nodes@.len(),
            forall|j: int| 0 <= j < old(self).nodes@.len() ==> same_but_attached(old(self).nodes@[j], #[trigger] final(self).nodes@[j]),
            final(self).order_changed == old(self).order_changed,
            !has_node(old(self).nodes@, source) || !has_node(old(self).nodes@, sink) ==> r
                == Err::<u64, GraphError>(GraphError::InvalidEndpoint) && final(self).links@ == old(self).links@
                && final(self).nodes@ == old(self).nodes@,
            has_node(old(self).nodes@, source) && has_node(old(self).nodes@, sink) && old(self).next_link == u64::MAX
                ==> r == Err::<u64, GraphError>(GraphError::HandlesExhausted) && final(self).links@ == old(self).links@
                && final(self).nodes@ == old(self).nodes@,
            has_node(old(self).nodes@, source) && has_node(old(self).nodes@, sink) && old(self).next_link < u64::MAX
                ==> {
                &&& r == Ok::<u64, GraphError>(old(self).next_link)
                &&& !has_link(old(self).links@, old(self).next_link)
                &&& final(self).links@ == old(self).links@.push(
                    new_link(old(self).next_link, source, source_slot, sink, sink_slot),
                )
            },
    {
        let si = match self.find_node(source) {
            Some(i) => i,
            None => return Err(GraphError::InvalidEndpoint),
        };
        let ki = match self.find_node(sink) {
            Some(i) => i,
            None => return Err(GraphError::InvalidEndpoint),
        };
        if self.next_link == u64::MAX {
            return Err(GraphError::HandlesExhausted);
        }
        let id = self.next_link;
        let link = Link {
            id,
            source,
            source_slot,
            sink,
            sink_slot,
            source_type: 0,
            sink_type: 0,
            open: true,
            retyped: true,
        };
        self.links.push(link);
        self.next_link = id + 1;
        self.nodes[si].attached.push(id);
        if ki != si {
            self.nodes[ki].attached.push(id);
        }
        proof {
            let ns = old(self).nodes@;
            assert forall|j: int| 0 <= j < ns.len() implies same_but_attached(ns[j], #[trigger] self.nodes@[j]) by {
                if j != si && j != ki {
                    assert(self.nodes@[j] == ns[j]);
                }
            }
            assert forall|j: int| 0 <= j < self.nodes@.len() implies (#[trigger] self.nodes@[j]).attached@
                == attached_of(self.links@, self.nodes@[j].id) by {
                lemma_attached_push(old(self).links@, link, ns[j].id);
                assert(ns[j].attached@ == attached_of(old(self).links@, ns[j].id));
                if j != si && j != ki {
                    assert(self.nodes@[j] == ns[j]);
                    assert(ns[j].id != source && ns[j].id != sink);
                }
            }
            assert forall|j: int| 0 <= j < self.nodes@.len() implies (#[trigger] self.nodes@[j]).id < self.next_node
                && self.nodes@[j].id == ns[j].id by {
                assert(same_but_attached(ns[j], self.nodes@[j]));
            }
            assert forall|j: int| 0 <= j < self.nodes@.len() && !(#[trigger] self.nodes@[j]).dirty
                implies self.nodes@[j].fragment == fragment_of(self.nodes@[j].operation@) by {
                assert(same_but_attached(ns[j], self.nodes@[j]));
            }
        }
        assert forall|i: int| 0 <= i < self.links@.len() implies has_node(self.nodes@, (#[trigger] self.links@[i]).source)
            && has_node(self.nodes@, self.links@[i].sink) by {
            let ns = old(self).nodes@;
            if i < old(self).links@.len() {
                assert(self.links@[i] == old(self).links@[i]);
            }
            assert(has_node(ns, self.links@[i].source) && has_node(ns, self.links@[i].sink));
            let a = choose|a: int| 0 <= a < ns.len() && ns[a].id == self.links@[i].source;
            let b = choose|b: int| 0 <= b < ns.len() && ns[b].id == self.links@[i].sink;
            assert(same_but_attached(ns[a], self.nodes@[a]));
            assert(same_but_attached(ns[b], self.nodes@[b]));
        }
        assert forall|i: int, j: int|
            0 <= i < self.links@.len() && 0 <= j < self.links@.len() && i != j
                implies #[trigger] self.links@[i].id != #[trigger] self.links@[j].id by {
            if i < old(self).links@.len() {
                assert(self.links@[i] == old(self).links@[i]);
            }
            if j < old(self).links@.len() {
                assert(self.links@[j] == old(self).links@[j]);
            }
        }
        Ok(id)
    }

    /// Sets the link-type codes of link `id` and flags it as retyped. The
    /// codes are not checked against each other.
    pub fn retype(&mut self, id: u64, source_type: i32, sink_type: i32) -> (r: Result<(), GraphError>)
        requires
            old(self).wf(),
        ensures
            final(self).wf(),
            final(self).next_node == old(self).next_node,
            final(self).next_link == old(self).next_link,
            final(self).nodes@ == old(self).nodes@,
            final(self).order_changed == old(self).order_changed,
            !has_link(old(self).links@, id) ==> r == Err::<(), GraphError>(GraphError::InvalidEndpoint)
                && final(self).links@ == old(self).links@,
            has_link(old(self).links@, id) ==> r == Ok::<(), GraphError>(()) && exists|i: int|
                0 <= i < old(self).links@.len() && old(self).links@[i].id == id && final(self).links@
                    == old(self).links@.update(
                    i,
                    Link { source_type, sink_type, retyped: true, ..old(self).links@[i] },
                ),
    {
        let i = match self.find_link(id) {
            Some(i) => i,
            None => return Err(GraphError::InvalidEndpoint),
        };
        let old_link = self.links[i];
        let link = Link { source_type, sink_type, retyped: true, ..old_link };
        self.links.set(i, link);
        assert forall|j: int| 0 <= j < self.links@.len() implies has_node(self.nodes@, (#[trigger] self.links@[j]).source)
            && has_node(self.nodes@, self.links@[j].sink) by {
            assert(self.links@[j].source == old(self).links@[j].source);
            assert(self.links@[j].sink == old(self).links@[j].sink);
        }
        assert forall|a: int, b: int|
            0 <= a < self.links@.len() && 0 <= b < self.links@.len() && a != b
                implies #[trigger] self.links@[a].id != #[trigger] self.links@[b].id by {
            assert(self.links@[a].id == old(self).links@[a].id);
            assert(self.links@[b].id == old(self).links@[b].id);
        }
        assert forall|j: int| 0 <= j < self.links@.len() implies #[trigger] self.links@[j].id < self.next_link by {
            assert(self.links@[j].id == old(self).links@[j].id);
        }
        assert forall|j: int| 0 <= j < self.nodes@.len() implies (#[trigger] self.nodes@[j]).attached@
            == attached_of(self.links@, self.nodes@[j].id) by {
            lemma_attached_shape(old(self).links@, self.links@, self.nodes@[j].id);
        }
        Ok(())
    }

    /// Removes link `id` with both its endpoints. Removing a link that is not
    /// there changes nothing; the result says whether one was removed.
    pub fn disconnect(&mut self, id: u64) -> (removed: bool)
        requires
            old(self).wf(),
        ensures
            final(self).wf(),
            final(self).next_node == old(self).next_node,
            final(self).next_link == old(self).next_link,
            final(self).nodes@.len() == old(self).nodes@.len(),
            forall|j: int| 0 <= j < old(self).nodes@.len() ==> same_but_attached(old(self).nodes@[j], #[trigger] final(self).nodes@[j]),
            final(self).order_changed == old(self).order_changed,
            removed == has_link(old(self).links@, id),
            final(self).links@ == links_without(old(self).links@, id),
            !has_link(final(self).links@, id),
    {
        let ghost p = other_than(id);
        let mut kept: Vec<Link> = Vec::new();
        let mut found = false;
        let mut i: usize = 0;
        while i < self.links.len()
            invariant
                i <= self.links@.len(),
                p == other_than(id),
                kept@ == keep(self.links@.subrange(0, i as int), p),
                found == exists|k: int| 0 <= k < i && (#[trigger] self.links@[k]).id == id,
            decreases self.links@.len() - i,
        {
            proof {
                crate::seqs::lemma_keep_prefix(self.links@, p, i as int);
            }
            let l = self.links[i];
            if l.id != id {
                kept.push(l);
            } else {
                found = true;
                assert(self.links@[i as int].id == id);
            }
            i += 1;
        }
        assert(self.links@.subrange(0, self.links@.len() as int) =~= self.links@);
        proof {
            let ls = old(self).links@;
            crate::seqs::lemma_keep_members(ls, p);
            crate::seqs::lemma_keep_distinct(ls, p, |l: Link| l.id);
            assert forall|k: int| 0 <= k < kept@.len() implies has_node(self.nodes@, (#[trigger] kept@[k]).source)
                && has_node(self.nodes@, kept@[k].sink) && kept@[k].id < self.next_link && kept@[k].id != id by {
                assert(p(kept@[k]) && ls.contains(kept@[k]));
                let m = choose|m: int| 0 <= m < ls.len() && ls[m] == kept@[k];
                assert(has_node(self.nodes@, ls[m].source));
            }
        }
        self.links = kept;
        let drop = vec![id];
        drop_attachments(&mut self.nodes, &drop);
        proof {
            let ns = old(self).nodes@;
            let ls = old(self).links@;
            assert forall|k: int| 0 <= k < ls.len() implies not_in(drop@)((#[trigger] ls[k]).id) == p(ls[k]) by {
                assert(drop@[0] == id);
                if drop@.contains(ls[k].id) {
                    let t = choose|t: int| 0 <= t < drop@.len() && drop@[t] == ls[k].id;
                }
            }
            assert forall|j: int| 0 <= j < ns.len() implies (#[trigger] self.nodes@[j]).attached@
                == attached_of(self.links@, self.nodes@[j].id) by {
                assert(same_but_attached(ns[j], self.nodes@[j]));
                lemma_attached_keep(ls, p, drop@, ns[j].id);
            }
            assert forall|j: int| 0 <= j < self.nodes@.len() implies (#[trigger] self.nodes@[j]).id < self.next_node
                && self.nodes@[j].id == ns[j].id by {
                assert(same_but_attached(ns[j], self.nodes@[j]));
            }
            assert forall|j: int| 0 <= j < self.nodes@.len() && !(#[trigger] self.nodes@[j]).dirty
                implies self.nodes@[j].fragment == fragment_of(self.nodes@[j].operation@) by {
                assert(same_but_attached(ns[j], self.nodes@[j]));
            }
            assert forall|k: int| 0 <= k < self.links@.len() implies has_node(self.nodes@, (#[trigger] self.links@[k]).source)
                && has_node(self.nodes@, self.links@[k].sink) by {
                let a = choose|a: int| 0 <= a < ns.len() && ns[a].id == self.links@[k].source;
                let b = choose|b: int| 0 <= b < ns.len() && ns[b].id == self.links@[k].sink;
                assert(same_but_attached(ns[a], self.nodes@[a]));
                assert(same_but_attached(ns[b], self.nodes@[b]));
            }
        }
        found
    }

    /// Deletes every node of `batch`, in one step, with every link attached
    /// to any of them: both endpoints of each such link go, and each link is
    /// removed once, also when both of its nodes are in the batch. A batch
    /// that names a node not in the graph is rejected and nothing changes.
    /// Returns the number of links removed.
    pub fn delete_node_cascade(&mut self, batch: &Vec<u64>) -> (r: Result<usize, GraphError>)
        requires
            old(self).wf(),
        ensures
            final(self).wf(),
            final(self).next_node == old(self).next_node,
            final(self).next_link == old(self).next_link,
            !all_present(old(self).nodes@, batch@) ==> r == Err::<usize, GraphError>(GraphError::InvalidEndpoint)
                && final(self).nodes@ == old(self).nodes@ && final(self).links@ == old(self).links@
                && final(self).order_changed == old(self).order_changed,
            all_present(old(self).nodes@, batch@) ==> {
                &&& r == Ok::<usize, GraphError>(links_removed(old(self).links@, batch@) as usize)
                &&& final(self).nodes@.len() == nodes_surviving(old(self).nodes@, batch@).len()
                &&& forall|k: int| 0 <= k < final(self).nodes@.len() ==> same_but_attached(
                    nodes_surviving(old(self).nodes@, batch@)[k],
                    #[trigger] final(self).nodes@[k],
                )
                &&& final(self).links@ == links_surviving(old(self).links@, batch@)
                &&& final(self).links@.len() + links_removed(old(self).links@, batch@) == old(self).links@.len()
                &&& final(self).order_changed == (old(self).order_changed || final(self).nodes@.len()
                    < old(self).nodes@.len())
            },
    {
        let mut k: usize = 0;
        while k < batch.len()
            invariant
                self.wf(),
                k <= batch@.len(),
                forall|q: int| 0 <= q < k ==> has_node(self.nodes@, #[trigger] batch@[q]),
            decreases batch@.len() - k,
        {
            if self.find_node(batch[k]).is_none() {
                assert(!has_node(self.nodes@, batch@[k as int]));
                return Err(GraphError::InvalidEndpoint);
            }
            k += 1;
        }
        Ok(self.remove_batch(batch))
    }

    /// Removes the nodes of `batch` that are in the graph, with every link
    /// attached to any of them. Returns the number of links removed.
    fn remove_batch(&mut self, batch: &Vec<u64>) -> (removed: usize)
        requires
            old(self).wf(),
        ensures
            final(self).wf(),
            final(self).next_node == old(self).next_node,
            final(self).next_link == old(self).next_link,
            final(self).nodes@.len() == nodes_surviving(old(self).nodes@, batch@).len(),
            forall|k: int| 0 <= k < final(self).nodes@.len() ==> same_but_attached(
                nodes_surviving(old(self).nodes@, batch@)[k],
                #[trigger] final(self).nodes@[k],
            ),
            final(self).links@ == links_surviving(old(self).links@, batch@),
            removed == links_removed(old(self).links@, batch@),
            final(self).links@.len() + removed == old(self).links@.len(),
            final(self).order_changed == (old(self).order_changed || final(self).nodes@.len()
                < old(self).nodes@.len()),
    {
        let ghost pn = node_survives(batch@);
        let ghost pl = link_survives(batch@);
        let mut kept_nodes: Vec<Node> = Vec::new();
        let mut any = false;
        let n = self.nodes.len();
        let mut i: usize = 0;
        while i < n
            invariant
                n == old(self).nodes@.len(),
                i <= n,
                pn == node_survives(batch@),
                self.nodes@.len() == n,
                forall|k: int| i <= k < n ==> #[trigger] self.nodes@[k] == old(self).nodes@[k],
                self.links@ == old(self).links@,
                self.next_node == old(self).next_node,
                self.next_link == old(self).next_link,
                self.order_changed == old(self).order_changed,
                kept_nodes@ == keep(old(self).nodes@.subrange(0, i as int), pn),
                any == (kept_nodes@.len() < i),
                kept_nodes@.len() <= i,
            decreases n - i,
        {
            proof {
                crate::seqs::lemma_keep_prefix(old(self).nodes@, pn, i as int);
            }
            let mut node = Node {
                id: 0,
                operation: String::new(),
                scalar: 0,
                array: Vec::new(),
                fragment: Fragment { kind: FragmentKind::Constant, inputs: 0, outputs: 1 },
                live_inputs: Vec::new(),
                rank: 0,
                dirty: true,
                attached: Vec::new(),
            };
            let id = self.nodes[i].id;
            if contains_id(batch, id) {
                any = true;
            } else {
                std::mem::swap(&mut node, &mut self.nodes[i]);
                kept_nodes.push(node);
                assert(kept_nodes@.last() == old(self).nodes@[i as int]);
            }
            i += 1;
        }
        let mut kept_links: Vec<Link> = Vec::new();
        let mut removed: usize = 0;
        let mut gone: Vec<u64> = Vec::new();
        let m = self.links.len();
        let mut j: usize = 0;
        while j < m
            invariant
                m == old(self).links@.len(),
                j <= m,
                pl == link_survives(batch@),
                self.links@ == old(self).links@,
                self.next_node == old(self).next_node,
                self.next_link == old(self).next_link,
                self.order_changed == old(self).order_changed,
                kept_links@ == keep(old(self).links@.subrange(0, j as int), pl),
                removed == dropped(old(self).links@.subrange(0, j as int), pl),
                kept_links@.len() + removed == j,
                forall|t: int| 0 <= t < gone@.len() ==> exists|q: int|
                    0 <= q < j && old(self).links@[q].id == #[trigger] gone@[t] && !pl(old(self).links@[q]),
                forall|q: int| 0 <= q < j && !pl(#[trigger] old(self).links@[q]) ==> gone@.contains(old(self).links@[q].id),
            decreases m - j,
        {
            proof {
                crate::seqs::lemma_keep_prefix(old(self).links@, pl, j as int);
            }
            let l = self.links[j];
            if contains_id(batch, l.source) || contains_id(batch, l.sink) {
                removed += 1;
                let ghost before = gone@;
                gone.push(l.id);
                assert forall|t: int| 0 <= t < gone@.len() implies exists|q: int|
                    0 <= q < j + 1 && old(self).links@[q].id == #[trigger] gone@[t] && !pl(old(self).links@[q]) by {
                    if t < before.len() {
                        assert(gone@[t] == before[t]);
                    } else {
                        assert(old(self).links@[j as int].id == gone@[t]);
                    }
                }
                assert forall|q: int| 0 <= q < j + 1 && !pl(#[trigger] old(self).links@[q]) implies gone@.contains(old(self).links@[q].id) by {
                    if q < j {
                        let t = choose|t: int| 0 <= t < before.len() && before[t] == old(self).links@[q].id;
                        assert(gone@[t] == before[t]);
                    } else {
                        assert(gone@[before.len() as int] == l.id);
                    }
                }
            } else {
                kept_links.push(l);
            }
            j += 1;
        }
        proof {
            let ns = old(self).nodes@;
            let ls = old(self).links@;
            assert(ns.subrange(0, n as int) =~= ns);
            assert(ls.subrange(0, m as int) =~= ls);
            crate::seqs::lemma_keep_members(ns, pn);
            crate::seqs::lemma_keep_distinct(ns, pn, |x: Node| x.id);
            crate::seqs::lemma_keep_members(ls, pl);
            crate::seqs::lemma_keep_distinct(ls, pl, |x: Link| x.id);
            assert forall|k: int| 0 <= k < kept_nodes@.len() implies (#[trigger] kept_nodes@[k]).id < self.next_node
                && (!kept_nodes@[k].dirty ==> kept_nodes@[k].fragment == fragment_of(kept_nodes@[k].operation@)) by {
                assert(pn(kept_nodes@[k]) && ns.contains(kept_nodes@[k]));
                let a = choose|a: int| 0 <= a < ns.len() && ns[a] == kept_nodes@[k];
                assert(ns[a].id < self.next_node);
            }
            assert forall|k: int| 0 <= k < kept_links@.len() implies has_node(kept_nodes@, (#[trigger] kept_links@[k]).source)
                && has_node(kept_nodes@, kept_links@[k].sink) && kept_links@[k].id < self.next_link by {
                assert(pl(kept_links@[k]) && ls.contains(kept_links@[k]));
                let b = choose|b: int| 0 <= b < ls.len() && ls[b] == kept_links@[k];
                assert(ls[b].id < self.next_link);
                assert(has_node(ns, ls[b].source));
                assert(has_node(ns, ls[b].sink));
                let x = choose|x: int| 0 <= x < ns.len() && ns[x].id == ls[b].source;
                let y = choose|y: int| 0 <= y < ns.len() && ns[y].id == ls[b].sink;
                crate::seqs::lemma_keep_contains(ns, pn, x);
                crate::seqs::lemma_keep_contains(ns, pn, y);
                let x2 = choose|x2: int| 0 <= x2 < kept_nodes@.len() && kept_nodes@[x2] == ns[x];
                let y2 = choose|y2: int| 0 <= y2 < kept_nodes@.len() && kept_nodes@[y2] == ns[y];
                assert(kept_nodes@[x2].id == ls[b].source);
                assert(kept_nodes@[y2].id == ls[b].sink);
            }
        }
        let ghost kn = kept_nodes@;
        drop_attachments(&mut kept_nodes, &gone);
        proof {
            let ns = old(self).nodes@;
            let ls = old(self).links@;
            assert forall|k: int| 0 <= k < ls.len() implies not_in(gone@)((#[trigger] ls[k]).id) == pl(ls[k]) by {
                if pl(ls[k]) && gone@.contains(ls[k].id) {
                    let t = choose|t: int| 0 <= t < gone@.len() && gone@[t] == ls[k].id;
                    let q = choose|q: int| 0 <= q < m && ls[q].id == #[trigger] gone@[t] && !pl(ls[q]);
                }
            }
            assert forall|k: int| 0 <= k < kn.len() implies (#[trigger] kept_nodes@[k]).attached@
                == attached_of(kept_links@, kept_nodes@[k].id) by {
                assert(same_but_attached(kn[k], kept_nodes@[k]));
                assert(pn(kn[k]) && ns.contains(kn[k]));
                let a = choose|a: int| 0 <= a < ns.len() && ns[a] == kn[k];
                assert(ns[a].attached@ == attached_of(ls, ns[a].id));
                lemma_attached_keep(ls, pl, gone@, kn[k].id);
            }
            assert forall|k: int| 0 <= k < kept_nodes@.len() implies (#[trigger] kept_nodes@[k]).id < self.next_node
                && (!kept_nodes@[k].dirty ==> kept_nodes@[k].fragment == fragment_of(kept_nodes@[k].operation@))
                && kept_nodes@[k].id == kn[k].id by {
                assert(same_but_attached(kn[k], kept_nodes@[k]));
            }
            assert forall|k: int| 0 <= k < kept_links@.len() implies has_node(kept_nodes@, (#[trigger] kept_links@[k]).source)
                && has_node(kept_nodes@, kept_links@[k].sink) by {
                let x = choose|x: int| 0 <= x < kn.len() && kn[x].id == kept_links@[k].source;
                let y = choose|y: int| 0 <= y < kn.len() && kn[y].id == kept_links@[k].sink;
                assert(same_but_attached(kn[x], kept_nodes@[x]));
                assert(same_but_attached(kn[y], kept_nodes@[y]));
            }
        }
        self.nodes = kept_nodes;
        self.links = kept_links;
        if any {
            self.order_changed = true;
        }
        removed
    }

    /// Deletes one node with every link attached to it. Returns the number of
    /// links removed, which is the length of the node's attachment list.
    pub fn delete_node(&mut self, id: u64) -> (r: Result<usize, GraphError>)
        requires
            old(self).wf(),
        ensures
            final(self).wf(),
            final(self).next_node == old(self).next_node,
            final(self).next_link == old(self).next_link,
            !has_node(old(self).nodes@, id) ==> r == Err::<usize, GraphError>(GraphError::InvalidEndpoint)
                && final(self).nodes@ == old(self).nodes@ && final(self).links@ == old(self).links@
                && final(self).order_changed == old(self).order_changed,
            has_node(old(self).nodes@, id) ==> {
                &&& r == Ok::<usize, GraphError>(links_removed(old(self).links@, seq![id]) as usize)
                &&& r == Ok::<usize, GraphError>(attached_of(old(self).links@, id).len() as usize)
                &&& final(self).nodes@.len() == nodes_surviving(old(self).nodes@, seq![id]).len()
                &&& forall|k: int| 0 <= k < final(self).nodes@.len() ==> same_but_attached(
                    nodes_surviving(old(self).nodes@, seq![id])[k],
                    #[trigger] final(self).nodes@[k],
                )
                &&& final(self).links@ == links_surviving(old(self).links@, seq![id])
                &&& final(self).order_changed
            },
    {
        if self.find_node(id).is_none() {
            return Err(GraphError::InvalidEndpoint);
        }
        let batch = vec![id];
        assert(batch@ =~= seq![id]);
        let removed = self.remove_batch(&batch);
        proof {
            let ns = old(self).nodes@;
            let i = choose|i: int| 0 <= i < ns.len() && ns[i].id == id;
            assert(seq![id][0] == id);
            assert(seq![id].contains(ns[i].id));
            crate::seqs::lemma_keep_len_eq(ns, node_survives(seq![id]), i);
            crate::laws::lemma_single_delete_count(old(self).links@, id);
        }
        Ok(removed)
    }
}

impl Graph {
    /// The handles of the links attached to node `id`, read from the
    /// node's index; none for a node that is not in the graph.
    pub fn attached_links(&self, id: u64) -> (r: Vec<u64>)
        requires
            self.wf(),
        ensures
            r@ == attached_of(self.links@, id),
    {
        match self.find_node(id) {
            Some(i) => copy_ids(&self.nodes[i].attached),
            None => {
                assert forall|k: int| 0 <= k < self.links@.len() implies (#[trigger] self.links@[k]).source != id
                    && self.links@[k].sink != id by {
                    assert(has_node(self.nodes@, self.links@[k].source));
                    assert(has_node(self.nodes@, self.links@[k].sink));
                }
                proof {
                    lemma_attached_untouched(self.links@, id);
                }
                Vec::new()
            },
        }
    }
}

/// A copy of a list of handles.
fn copy_ids(v: &Vec<u64>) -> (r: Vec<u64>)
    ensures
        r@ == v@,
{
    let mut r: Vec<u64> = Vec::new();
    let mut i: usize = 0;
    while i < v.len()
        invariant
            i <= v@.len(),
            r@ == v@.subrange(0, i as int),
        decreases v@.len() - i,
    {
        r.push(v[i]);
        i += 1;
        assert(r@ =~= v@.subrange(0, i as int));
    }
    assert(v@.subrange(0, v@.len() as int) =~= v@);
    r
}

/// Whether `id` is one of `ids`.
pub fn contains_id(ids: &Vec<u64>, id: u64) -> (r: bool)
    ensures
        r == ids@.contains(id),
{
    let mut i: usize = 0;
    while i < ids.len()
        invariant
            i <= ids@.len(),
            forall|k: int| 0 <= k < i ==> ids@[k] != id,
        decreases ids@.len() - i,
    {
        if ids[i] == id {
            assert(ids@[i as int] == id);
            return true;
        }
        i += 1;
    }
    false
}

/// The handles of `ids` that are not in `drop`, in their order.
fn keep_ids(ids: &Vec<u64>, drop: &Vec<u64>) -> (r: Vec<u64>)
    ensures
        r@ == keep(ids@, not_in(drop@)),
{
    let ghost p = not_in(drop@);
    let mut r: Vec<u64> = Vec::new();
    let mut i: usize = 0;
    while i < ids.len()
        invariant
            p == not_in(drop@),
            i <= ids@.len(),
            r@ == keep(ids@.subrange(0, i as int), p),
        decreases ids@.len() - i,
    {
        proof {
            crate::seqs::lemma_keep_prefix(ids@, p, i as int);
        }
        let x = ids[i];
        if !contains_id(drop, x) {
            r.push(x);
        }
        i += 1;
    }
    assert(ids@.subrange(0, ids@.len() as int) =~= ids@);
    r
}

/// Takes the handles in `drop` out of every node's attachment list.
fn drop_attachments(nodes: &mut Vec<Node>, drop: &Vec<u64>)
    ensures
        final(nodes)@.len() == old(nodes)@.len(),
        forall|j: int| 0 <= j < old(nodes)@.len() ==> same_but_attached(old(nodes)@[j], #[trigger] final(nodes)@[j])
            && final(nodes)@[j].attached@ == keep(old(nodes)@[j].attached@, not_in(drop@)),
{
    let n = nodes.len();
    let mut j: usize = 0;
    while j < n
        invariant
            n == nodes@.len(),
            n == old(nodes)@.len(),
            j <= n,
            forall|q: int| 0 <= q < j ==> same_but_attached(old(nodes)@[q], #[trigger] nodes@[q])
                && nodes@[q].attached@ == keep(old(nodes)@[q].attached@, not_in(drop@)),
            forall|q: int| j <= q < n ==> #[trigger] nodes@[q] == old(nodes)@[q],
        decreases n - j,
    {
        let kept = keep_ids(&nodes[j].attached, drop);
        nodes[j].attached = kept;
        j += 1;
    }
}

} // verus!
