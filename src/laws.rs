use vstd::prelude::*;

use crate::fragment::fragment_of;
use crate::graph::{
    attached_of, has_link, lemma_attached_push, inputs_of, link_survives, links_removed, links_surviving, links_without,
    new_link, other_than, outputs_of, touches, Descriptor, Graph, Link, Node,
};
use crate::order::{rank_of, repaired, step_up};
use crate::rebuild::rebuilt_from;
use crate::seqs::{keep, lemma_keep_dropped_len, lemma_keep_members, lemma_keep_push};

verus! {

/// Once a node's tag is changed and a rebuild pass has run, the node is
/// clean and its fragment, arity included, is the one the registry gives
/// for the new tag.
pub proof fn lemma_rebuild_after_retag(retagged: Node, after: Node, tag: Seq<char>)
    requires
        retagged.operation@ == tag,
        retagged.dirty,
        rebuilt_from(retagged, after),
    ensures
        !after.dirty,
        after.operation@ == tag,
        after.fragment == fragment_of(tag),
{
}

proof fn lemma_without_absent(links: Seq<Link>, id: u64)
    requires
        !has_link(links, id),
    ensures
        links_without(links, id) == links,
    decreases links.len(),
{
    if links.len() > 0 {
        let d = links.drop_last();
        assert(!has_link(d, id)) by {
            if has_link(d, id) {
                let i = choose|i: int| 0 <= i < d.len() && d[i].id == id;
                assert(links[i].id == id);
            }
        }
        lemma_without_absent(d, id);
        assert(links.last() == links[links.len() - 1]);
        assert(d.push(links.last()) =~= links);
    }
}

/// Connecting appends one descriptor to the source's output list and one to
/// the sink's input list, and disconnecting the new link at once gives back
/// the link table, and with it every node's descriptor lists, as they were.
pub proof fn lemma_connect_disconnect_round_trip(
    links: Seq<Link>,
    id: u64,
    source: u64,
    source_slot: usize,
    sink: u64,
    sink_slot: usize,
    n: u64,
)
    requires
        !has_link(links, id),
    ensures
        outputs_of(links.push(new_link(id, source, source_slot, sink, sink_slot)), source) == outputs_of(links, source).push(
            Descriptor { slot: source_slot, source_type: 0, sink_type: 0 },
        ),
        inputs_of(links.push(new_link(id, source, source_slot, sink, sink_slot)), sink) == inputs_of(links, sink).push(
            Descriptor { slot: sink_slot, source_type: 0, sink_type: 0 },
        ),
        links_without(links.push(new_link(id, source, source_slot, sink, sink_slot)), id) == links,
        outputs_of(links_without(links.push(new_link(id, source, source_slot, sink, sink_slot)), id), n)
            == outputs_of(links, n),
        inputs_of(links_without(links.push(new_link(id, source, source_slot, sink, sink_slot)), id), n)
            == inputs_of(links, n),
{
    let l = new_link(id, source, source_slot, sink, sink_slot);
    assert(links.push(l).drop_last() =~= links);
    lemma_keep_push(links, other_than(id), l);
    lemma_without_absent(links, id);
}

proof fn lemma_attached_lists_link(links: Seq<Link>, k: int, n: u64)
    requires
        0 <= k < links.len(),
        links[k].source == n || links[k].sink == n,
    ensures
        attached_of(links, n).contains(links[k].id),
    decreases links.len(),
{
    let d = links.drop_last();
    if k < links.len() - 1 {
        assert(d[k] == links[k]);
        lemma_attached_lists_link(d, k, n);
        let t = choose|t: int| 0 <= t < attached_of(d, n).len() && attached_of(d, n)[t] == links[k].id;
        lemma_attached_push(d, links.last(), n);
        assert(d.push(links.last()) =~= links);
        assert(attached_of(links, n)[t] == links[k].id);
    } else {
        lemma_attached_push(d, links.last(), n);
        assert(d.push(links.last()) =~= links);
        assert(attached_of(links, n).last() == links[k].id);
    }
}

proof fn lemma_attached_from_links(links: Seq<Link>, n: u64, t: int)
    requires
        0 <= t < attached_of(links, n).len(),
    ensures
        exists|k: int|
            0 <= k < links.len() && (#[trigger] links[k]).id == attached_of(links, n)[t] && (links[k].source
                == n || links[k].sink == n),
    decreases links.len(),
{
    let d = links.drop_last();
    lemma_attached_push(d, links.last(), n);
    assert(d.push(links.last()) =~= links);
    if t < attached_of(d, n).len() {
        lemma_attached_from_links(d, n, t);
        let k = choose|k: int|
            0 <= k < d.len() && (#[trigger] d[k]).id == attached_of(d, n)[t] && (d[k].source == n || d[k].sink == n);
        assert(links[k] == d[k]);
    } else {
        assert(links[links.len() - 1] == links.last());
    }
}

/// Some node with handle `n` lists link `id` in its attachment index.
pub open spec fn listed_under(nodes: Seq<Node>, n: u64, id: u64) -> bool {
    exists|a: int| 0 <= a < nodes.len() && (#[trigger] nodes[a]).id == n && nodes[a].attached@.contains(id)
}

/// Some link of the table has handle `id` and an endpoint on node `n`.
pub open spec fn attached_link_exists(links: Seq<Link>, n: u64, id: u64) -> bool {
    exists|k: int| 0 <= k < links.len() && (#[trigger] links[k]).id == id && (links[k].source == n || links[k].sink == n)
}

/// Between commands the two endpoints of every link exist together: each is
/// attached to a node of the graph and listed in that node's index, no
/// other link shares the handle, and every handle a node lists is a link of
/// the table attached to it.
pub proof fn lemma_links_whole(g: &Graph)
    requires
        g.wf(),
    ensures
        forall|i: int|
            0 <= i < g.links@.len() ==> listed_under(g.nodes@, (#[trigger] g.links@[i]).source, g.links@[i].id)
                && listed_under(g.nodes@, g.links@[i].sink, g.links@[i].id),
        forall|i: int, j: int|
            0 <= i < g.links@.len() && 0 <= j < g.links@.len() && (#[trigger] g.links@[i]).id
                == (#[trigger] g.links@[j]).id ==> i == j,
        forall|a: int, t: int|
            0 <= a < g.nodes@.len() && 0 <= t < g.nodes@[a].attached@.len() ==> attached_link_exists(
                g.links@,
                g.nodes@[a].id,
                #[trigger] g.nodes@[a].attached@[t],
            ),
{
    let ns = g.nodes@;
    let ls = g.links@;
    assert forall|i: int| 0 <= i < ls.len() implies listed_under(ns, (#[trigger] ls[i]).source, ls[i].id)
        && listed_under(ns, ls[i].sink, ls[i].id) by {
        let a = choose|a: int| 0 <= a < ns.len() && ns[a].id == ls[i].source;
        let b = choose|b: int| 0 <= b < ns.len() && ns[b].id == ls[i].sink;
        lemma_attached_lists_link(ls, i, ns[a].id);
        lemma_attached_lists_link(ls, i, ns[b].id);
        assert(ns[a].attached@ == attached_of(ls, ns[a].id));
        assert(ns[b].attached@ == attached_of(ls, ns[b].id));
    }
    assert forall|a: int, t: int| 0 <= a < ns.len() && 0 <= t < ns[a].attached@.len() implies attached_link_exists(
        ls,
        ns[a].id,
        #[trigger] ns[a].attached@[t],
    ) by {
        assert(ns[a].attached@ == attached_of(ls, ns[a].id));
        lemma_attached_from_links(ls, ns[a].id, t);
    }
}

/// A link that `connect` adds to a well-formed graph is new, and once the
/// graph is well-formed again both of its endpoints exist and mirror each
/// other: the link is listed under its source node and under its sink node,
/// with both type codes 0.
pub proof fn lemma_connect_whole(
    before: &Graph,
    after: &Graph,
    id: u64,
    source: u64,
    source_slot: usize,
    sink: u64,
    sink_slot: usize,
)
    requires
        before.wf(),
        after.wf(),
        after.links@ == before.links@.push(new_link(id, source, source_slot, sink, sink_slot)),
    ensures
        !has_link(before.links@, id),
        has_link(after.links@, id),
        listed_under(after.nodes@, source, id),
        listed_under(after.nodes@, sink, id),
        after.links@.last().source_type == 0 && after.links@.last().sink_type == 0,
{
    let last = before.links@.len() as int;
    assert(after.links@[last] == new_link(id, source, source_slot, sink, sink_slot));
    if has_link(before.links@, id) {
        let i = choose|i: int| 0 <= i < before.links@.len() && (#[trigger] before.links@[i]).id == id;
        assert(after.links@[i] == before.links@[i]);
    }
    lemma_links_whole(after);
    assert(listed_under(after.nodes@, after.links@[last].source, after.links@[last].id));
}

/// A cascading deletion removes each link with an endpoint in the batch
/// exactly once, also when both endpoints are, and leaves every other link:
/// the removed and the surviving links add up to the table.
pub proof fn lemma_cascade_counts(links: Seq<Link>, batch: Seq<u64>, l: Link)
    ensures
        links_surviving(links, batch).len() + links_removed(links, batch) == links.len(),
        links_removed(links.push(l), batch) == links_removed(links, batch) + if touches(l, batch) {
            1nat
        } else {
            0nat
        },
        forall|k: int|
            0 <= k < links_surviving(links, batch).len() ==> !touches(
                #[trigger] links_surviving(links, batch)[k],
                batch,
            ) && links.contains(links_surviving(links, batch)[k]),
{
    lemma_keep_dropped_len(links, link_survives(batch));
    lemma_keep_push(links, link_survives(batch), l);
    lemma_keep_members(links, link_survives(batch));
    assert forall|k: int| 0 <= k < links_surviving(links, batch).len() implies !touches(
        #[trigger] links_surviving(links, batch)[k],
        batch,
    ) && links.contains(links_surviving(links, batch)[k]) by {
        let s = keep(links, link_survives(batch));
        assert(link_survives(batch)(s[k]));
    }
}

/// The repair rule never lowers a rank, and lifts a node above every parent
/// that feeds it (up to the largest rank).
pub proof fn lemma_repair_lifts(nodes: Seq<Node>, links: Seq<Link>, id: u64, r: u64)
    ensures
        repaired(nodes, links, id, r) >= r,
        forall|k: int|
            0 <= k < links.len() && (#[trigger] links[k]).sink == id ==> repaired(nodes, links, id, r) >= step_up(
                rank_of(nodes, links[k].source),
            ),
    decreases links.len(),
{
    if links.len() > 0 {
        let d = links.drop_last();
        lemma_repair_lifts(nodes, d, id, r);
        assert forall|k: int|
            0 <= k < links.len() && (#[trigger] links[k]).sink == id implies repaired(nodes, links, id, r) >= step_up(
                rank_of(nodes, links[k].source),
            ) by {
            if k < links.len() - 1 {
                assert(d[k] == links[k]);
            }
        }
    }
}

/// Where a node already ranks above every parent that feeds it, the repair
/// rule leaves its rank alone: once consistent, repairing again changes
/// nothing.
pub proof fn lemma_repair_idempotent(nodes: Seq<Node>, links: Seq<Link>, id: u64, r: u64)
    requires
        forall|k: int| 0 <= k < links.len() && (#[trigger] links[k]).sink == id ==> r > rank_of(nodes, links[k].source),
    ensures
        repaired(nodes, links, id, r) == r,
    decreases links.len(),
{
    if links.len() > 0 {
        let d = links.drop_last();
        assert forall|k: int| 0 <= k < d.len() && (#[trigger] d[k]).sink == id implies r > rank_of(nodes, d[k].source) by {
            assert(d[k] == links[k]);
        }
        lemma_repair_idempotent(nodes, d, id, r);
        if links.last().sink == id {
            assert(links[links.len() - 1].sink == id);
        }
    }
}

/// A node of rank 0 that is fed only by parents of rank 0, and by at least
/// one, gets rank 1 from the repair rule.
pub proof fn lemma_repair_from_ground(nodes: Seq<Node>, links: Seq<Link>, id: u64)
    requires
        forall|k: int| 0 <= k < links.len() && (#[trigger] links[k]).sink == id ==> rank_of(nodes, links[k].source) == 0,
        exists|k: int| 0 <= k < links.len() && (#[trigger] links[k]).sink == id,
    ensures
        repaired(nodes, links, id, 0) == 1,
    decreases links.len(),
{
    let d = links.drop_last();
    assert forall|k: int| 0 <= k < d.len() && (#[trigger] d[k]).sink == id implies rank_of(nodes, d[k].source) == 0 by {
        assert(d[k] == links[k]);
    }
    if links.last().sink == id {
        assert(links[links.len() - 1].sink == id);
        lemma_repair_at_most_one(nodes, d, id);
    } else {
        let k = choose|k: int| 0 <= k < links.len() && (#[trigger] links[k]).sink == id;
        assert(k != links.len() - 1);
        assert(d[k] == links[k]);
        lemma_repair_from_ground(nodes, d, id);
    }
}

proof fn lemma_repair_at_most_one(nodes: Seq<Node>, links: Seq<Link>, id: u64)
    requires
        forall|k: int| 0 <= k < links.len() && (#[trigger] links[k]).sink == id ==> rank_of(nodes, links[k].source) == 0,
    ensures
        repaired(nodes, links, id, 0) <= 1,
    decreases links.len(),
{
    if links.len() > 0 {
        let d = links.drop_last();
        assert forall|k: int| 0 <= k < d.len() && (#[trigger] d[k]).sink == id implies rank_of(nodes, d[k].source) == 0 by {
            assert(d[k] == links[k]);
        }
        lemma_repair_at_most_one(nodes, d, id);
        if links.last().sink == id {
            assert(links[links.len() - 1].sink == id);
        }
    }
}

/// Deleting a single node removes exactly the links attached to it: as
/// many as its attachment list holds, a link from the node to itself once.
pub proof fn lemma_single_delete_count(links: Seq<Link>, n: u64)
    ensures
        links_removed(links, seq![n]) == attached_of(links, n).len(),
    decreases links.len(),
{
    if links.len() > 0 {
        lemma_single_delete_count(links.drop_last(), n);
        let l = links.last();
        assert(seq![n][0] == n);
        assert(seq![n].contains(l.source) == (l.source == n));
        assert(seq![n].contains(l.sink) == (l.sink == n));
    }
}

} // verus!
