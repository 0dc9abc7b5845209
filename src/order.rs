use vstd::prelude::*;

use crate::fragment::fragment_of;
use crate::graph::{attached_of, has_node, node_index, Graph, GraphError, Link, Node};

verus! {

/// One step up, held at the largest rank.
pub open spec fn step_up(r: u64) -> u64 {
    if r < u64::MAX {
        (r + 1) as u64
    } else {
        r
    }
}

/// One step down, held at 0.
pub open spec fn step_down(r: u64) -> u64 {
    if r > 0 {
        (r - 1) as u64
    } else {
        0
    }
}

pub open spec fn max_rank(a: u64, b: u64) -> u64 {
    if a < b {
        b
    } else {
        a
    }
}

/// The rank of node `id`.
pub open spec fn rank_of(nodes: Seq<Node>, id: u64) -> u64 {
    nodes[node_index(nodes, id)].rank
}

/// The rank that the repair rule gives a node with handle `id` and rank `r`:
/// at least one above the rank, at the start of the pass, of every parent
/// that a link in `links` feeds it from.
pub open spec fn repaired(nodes: Seq<Node>, links: Seq<Link>, id: u64, r: u64) -> u64
    decreases links.len(),
{
    if links.len() == 0 {
        r
    } else if links.last().sink == id {
        max_rank(repaired(nodes, links.drop_last(), id, r), step_up(rank_of(nodes, links.last().source)))
    } else {
        repaired(nodes, links.drop_last(), id, r)
    }
}

/// `b` is `a` with a new rank, and nothing else changed.
pub open spec fn same_but_rank(a: Node, b: Node) -> bool {
    &&& b.id == a.id
    &&& b.operation == a.operation
    &&& b.scalar == a.scalar
    &&& b.array == a.array
    &&& b.fragment == a.fragment
    &&& b.live_inputs == a.live_inputs
    &&& b.dirty == a.dirty
    &&& b.attached == a.attached
}

/// Node at position `a` runs before node at position `b`: lower rank first,
/// and among equal ranks the one placed first.
pub open spec fn runs_before(nodes: Seq<Node>, a: int, b: int) -> bool {
    nodes[a].rank < nodes[b].rank || (nodes[a].rank == nodes[b].rank && a < b)
}

impl Graph {
    proof fn lemma_rank_update_wf(&self, other: &Graph)
        requires
            self.wf(),
            self.nodes@.len() == other.nodes@.len(),
            forall|j: int| 0 <= j < self.nodes@.len() ==> same_but_rank(self.nodes@[j], #[trigger] other.nodes@[j]),
            other.links@ == self.links@,
            other.next_node == self.next_node,
            other.next_link == self.next_link,
        ensures
            other.wf(),
    {
        assert forall|j: int| 0 <= j < other.nodes@.len() implies (#[trigger] other.nodes@[j]).id == self.nodes@[j].id by {
            assert(same_but_rank(self.nodes@[j], other.nodes@[j]));
        }
        assert forall|j: int| 0 <= j < other.links@.len() implies has_node(other.nodes@, (#[trigger] other.links@[j]).source)
            && has_node(other.nodes@, other.links@[j].sink) by {
            let a = choose|a: int| 0 <= a < self.nodes@.len() && self.nodes@[a].id == self.links@[j].source;
            let b = choose|b: int| 0 <= b < self.nodes@.len() && self.nodes@[b].id == self.links@[j].sink;
            assert(other.nodes@[a].id == self.nodes@[a].id);
            assert(other.nodes@[b].id == self.nodes@[b].id);
        }
        assert forall|j: int| 0 <= j < other.nodes@.len() && !(#[trigger] other.nodes@[j]).dirty
            implies other.nodes@[j].fragment == fragment_of(other.nodes@[j].operation@) by {
            assert(same_but_rank(self.nodes@[j], other.nodes@[j]));
        }
        assert forall|j: int| 0 <= j < other.nodes@.len() implies (#[trigger] other.nodes@[j]).attached@
            == attached_of(other.links@, other.nodes@[j].id) by {
            assert(same_but_rank(self.nodes@[j], other.nodes@[j]));
        }
    }

    /// Moves node `id` one step later (`up`) or earlier in the order; the
    /// rank stays at 0 when it is already there. Raises the order-changed
    /// flag.
    pub fn bump_rank(&mut self, id: u64, up: bool) -> (r: Result<(), GraphError>)
        requires
            old(self).wf(),
        ensures
            final(self).wf(),
            final(self).next_node == old(self).next_node,
            final(self).next_link == old(self).next_link,
            final(self).links@ == old(self).links@,
            !has_node(old(self).nodes@, id) ==> r == Err::<(), GraphError>(GraphError::InvalidEndpoint)
                && final(self).nodes@ == old(self).nodes@ && final(self).order_changed == old(self).order_changed,
            has_node(old(self).nodes@, id) ==> {
                let i = node_index(old(self).nodes@, id);
                &&& r == Ok::<(), GraphError>(())
                &&& final(self).order_changed
                &&& final(self).nodes@.len() == old(self).nodes@.len()
                &&& forall|j: int| 0 <= j < old(self).nodes@.len() && j != i ==> #[trigger] final(self).nodes@[j]
                    == old(self).nodes@[j]
                &&& same_but_rank(old(self).nodes@[i], final(self).nodes@[i])
                &&& final(self).nodes@[i].rank == if up {
                    step_up(old(self).nodes@[i].rank)
                } else {
                    step_down(old(self).nodes@[i].rank)
                }
            },
    {
        let i = match self.find_node(id) {
            Some(i) => i,
            None => return Err(GraphError::InvalidEndpoint),
        };
        proof {
            let k = node_index(self.nodes@, id);
            assert(0 <= k < self.nodes@.len() && self.nodes@[k].id == id);
        }
        let r = self.nodes[i].rank;
        if up {
            if r < u64::MAX {
                self.nodes[i].rank = r + 1;
            }
        } else if r > 0 {
            self.nodes[i].rank = r - 1;
        }
        self.order_changed = true;
        proof {
            assert forall|j: int| 0 <= j < self.nodes@.len() implies same_but_rank(old(self).nodes@[j], #[trigger] self.nodes@[j]) by {
                if j != i {
                    assert(self.nodes@[j] == old(self).nodes@[j]);
                }
            }
            old(self).lemma_rank_update_wf(self);
        }
        Ok(())
    }

    /// The repair rule, in one pass over the ranks as they stand at its
    /// start: every node fed by a link from a parent whose rank is not below
    /// its own gets the parent's rank plus one. Chains are not followed
    /// further in the same pass. Returns whether any rank changed, and raises
    /// the order-changed flag if so.
    pub fn repair(&mut self) -> (adjusted: bool)
        requires
            old(self).wf(),
        ensures
            final(self).wf(),
            final(self).next_node == old(self).next_node,
            final(self).next_link == old(self).next_link,
            final(self).links@ == old(self).links@,
            final(self).nodes@.len() == old(self).nodes@.len(),
            forall|j: int| 0 <= j < old(self).nodes@.len() ==> same_but_rank(old(self).nodes@[j], #[trigger] final(self).nodes@[j]),
            forall|j: int| 0 <= j < old(self).nodes@.len() ==> #[trigger] final(self).nodes@[j].rank == repaired(
                old(self).nodes@,
                old(self).links@,
                old(self).nodes@[j].id,
                old(self).nodes@[j].rank,
            ),
            adjusted == exists|j: int| 0 <= j < old(self).nodes@.len() && #[trigger] final(self).nodes@[j].rank != old(self).nodes@[j].rank,
            final(self).order_changed == (old(self).order_changed || adjusted),
    {
        let n = self.nodes.len();
        let mut ranks: Vec<u64> = Vec::new();
        let mut e: usize = 0;
        while e < n
            invariant
                n == self.nodes@.len(),
                self.wf(),
                e <= n,
                ranks@.len() == e,
                forall|k: int| 0 <= k < e ==> #[trigger] ranks@[k] == repaired(
                    self.nodes@,
                    self.links@,
                    self.nodes@[k].id,
                    self.nodes@[k].rank,
                ),
            decreases n - e,
        {
            let id = self.nodes[e].id;
            let mut r = self.nodes[e].rank;
            let mut j: usize = 0;
            while j < self.links.len()
                invariant
                    n == self.nodes@.len(),
                    self.wf(),
                    e < n,
                    id == self.nodes@[e as int].id,
                    j <= self.links@.len(),
                    r == repaired(self.nodes@, self.links@.subrange(0, j as int), id, self.nodes@[e as int].rank),
                decreases self.links@.len() - j,
            {
                assert(self.links@.subrange(0, j + 1).drop_last() =~= self.links@.subrange(0, j as int));
                let l = self.links[j];
                if l.sink == id {
                    assert(has_node(self.nodes@, self.links@[j as int].source));
                    match self.find_node(l.source) {
                        Some(pi) => {
                            proof {
                                let k = node_index(self.nodes@, l.source);
                                assert(0 <= k < self.nodes@.len() && self.nodes@[k].id == l.source);
                            }
                            let pr = self.nodes[pi].rank;
                            let c = if pr < u64::MAX { pr + 1 } else { pr };
                            if r < c {
                                r = c;
                            }
                        },
                        None => {},
                    }
                }
                j += 1;
            }
            assert(self.links@.subrange(0, self.links@.len() as int) =~= self.links@);
            ranks.push(r);
            e += 1;
        }
        let mut adjusted = false;
        let mut k: usize = 0;
        while k < n
            invariant
                n == self.nodes@.len(),
                n == old(self).nodes@.len(),
                k <= n,
                ranks@.len() == n,
                self.links@ == old(self).links@,
                self.next_node == old(self).next_node,
                self.next_link == old(self).next_link,
                self.order_changed == old(self).order_changed,
                forall|q: int| 0 <= q < n ==> same_but_rank(old(self).nodes@[q], #[trigger] self.nodes@[q]),
                forall|q: int| 0 <= q < n ==> #[trigger] ranks@[q] == repaired(
                    old(self).nodes@,
                    old(self).links@,
                    old(self).nodes@[q].id,
                    old(self).nodes@[q].rank,
                ),
                forall|q: int| 0 <= q < k ==> #[trigger] self.nodes@[q].rank == ranks@[q],
                forall|q: int| k <= q < n ==> #[trigger] self.nodes@[q].rank == old(self).nodes@[q].rank,
                adjusted == exists|q: int| 0 <= q < k && #[trigger] self.nodes@[q].rank != old(self).nodes@[q].rank,
            decreases n - k,
        {
            let nr = ranks[k];
            if nr != self.nodes[k].rank {
                self.nodes[k].rank = nr;
                adjusted = true;
                assert(self.nodes@[k as int].rank != old(self).nodes@[k as int].rank);
            }
            k += 1;
        }
        if adjusted {
            self.order_changed = true;
        }
        proof {
            old(self).lemma_rank_update_wf(self);
        }
        adjusted
    }

    /// The positions of the nodes in the order they run: rank ascending,
    /// and among equal ranks in the order the nodes were placed.
    pub fn rank_order(&self) -> (r: Vec<usize>)
        ensures
            r@.len() == self.nodes@.len(),
            forall|k: int| 0 <= k < r@.len() ==> #[trigger] r@[k] < self.nodes@.len(),
            forall|a: int, b: int|
                0 <= a < b < r@.len() ==> runs_before(self.nodes@, #[trigger] r@[a] as int, #[trigger] r@[b] as int),
            forall|i: usize| i < self.nodes@.len() ==> #[trigger] r@.contains(i),
    {
        let n = self.nodes.len();
        let mut r: Vec<usize> = Vec::new();
        let mut i: usize = 0;
        while i < n
            invariant
                n == self.nodes@.len(),
                i <= n,
                r@.len() == i,
                forall|k: int| 0 <= k < r@.len() ==> #[trigger] r@[k] < i,
                forall|a: int, b: int|
                    0 <= a < b < r@.len() ==> runs_before(self.nodes@, #[trigger] r@[a] as int, #[trigger] r@[b] as int),
                forall|x: usize| x < i ==> #[trigger] r@.contains(x),
            decreases n - i,
        {
            let rank = self.nodes[i].rank;
            let mut p: usize = 0;
            while p < r.len() && self.nodes[r[p]].rank <= rank
                invariant
                    n == self.nodes@.len(),
                    i < n,
                    rank == self.nodes@[i as int].rank,
                    p <= r@.len(),
                    forall|k: int| 0 <= k < r@.len() ==> #[trigger] r@[k] < i,
                    forall|k: int| 0 <= k < p ==> self.nodes@[#[trigger] r@[k] as int].rank <= rank,
                decreases r@.len() - p,
            {
                p += 1;
            }
            let ghost old_r = r@;
            r.insert(p, i);
            proof {
                assert forall|k: int| 0 <= k < r@.len() implies #[trigger] r@[k] < i + 1 by {
                    if k < p {
                        assert(r@[k] == old_r[k]);
                    } else if k > p {
                        assert(r@[k] == old_r[k - 1]);
                    }
                }
                assert forall|a: int, b: int| 0 <= a < b < r@.len() implies runs_before(self.nodes@, #[trigger] r@[a] as int, #[trigger] r@[b] as int) by {
                    if b < p {
                        assert(r@[a] == old_r[a] && r@[b] == old_r[b]);
                    } else if b == p {
                        assert(r@[a] == old_r[a]);
                    } else if a < p {
                        assert(r@[a] == old_r[a] && r@[b] == old_r[b - 1]);
                    } else if a == p {
                        assert(r@[b] == old_r[b - 1]);
                        assert(self.nodes@[old_r[p as int] as int].rank > rank);
                        if b - 1 > p {
                            assert(runs_before(self.nodes@, old_r[p as int] as int, old_r[b - 1] as int));
                        }
                    } else {
                        assert(r@[a] == old_r[a - 1] && r@[b] == old_r[b - 1]);
                    }
                }
                assert forall|x: usize| x < i + 1 implies #[trigger] r@.contains(x) by {
                    if x == i {
                        assert(r@[p as int] == i);
                    } else {
                        assert(old_r.contains(x));
                        let q = choose|q: int| 0 <= q < old_r.len() && old_r[q] == x;
                        if q < p {
                            assert(r@[q] == x);
                        } else {
                            assert(r@[q + 1] == x);
                        }
                    }
                }
            }
            i += 1;
        }
        r
    }
}

} // verus!
