//! Routing of a gossip round: which room hears which room's murmur.
use vstd::prelude::*;
use crate::RoomId;
use crate::graph::{Graph, contains_id};

verus! {

/// Deliveries of `source`'s murmur along the neighbour list `nbrs`: one
/// `(source, target)` pair per listed neighbour that is a present room, in
/// list order.
pub open spec fn deliveries_along<W>(
    source: RoomId,
    nbrs: Seq<(RoomId, W)>,
    present: Seq<RoomId>,
) -> Seq<(RoomId, RoomId)>
    decreases nbrs.len(),
{
    if nbrs.len() == 0 {
        Seq::empty()
    } else {
        let rest = deliveries_along(source, nbrs.drop_last(), present);
        if present.contains(nbrs.last().0) {
            rest.push((source, nbrs.last().0))
        } else {
            rest
        }
    }
}

/// The deliveries of a gossip round in which every room of `order` speaks in
/// turn and its murmur goes to each of its neighbours that is in `present`.
pub open spec fn gossip_plan<W>(g: Graph<W>, order: Seq<RoomId>, present: Seq<RoomId>) -> Seq<
    (RoomId, RoomId),
>
    decreases order.len(),
{
    if order.len() == 0 {
        Seq::empty()
    } else {
        gossip_plan(g, order.drop_last(), present) + deliveries_along(
            order.last(),
            g.spec_neighbors(order.last()),
            present,
        )
    }
}

/// Each delivery along a neighbour list comes from `source` and goes to a
/// present room that the list names.
proof fn lemma_deliveries_along_sound<W>(
    source: RoomId,
    nbrs: Seq<(RoomId, W)>,
    present: Seq<RoomId>,
    k: int,
)
    requires
        0 <= k < deliveries_along(source, nbrs, present).len(),
    ensures
        deliveries_along(source, nbrs, present)[k].0 == source,
        present.contains(deliveries_along(source, nbrs, present)[k].1),
        exists|m: int|
            0 <= m < nbrs.len() && #[trigger] nbrs[m].0 == deliveries_along(source, nbrs, present)[k].1,
    decreases nbrs.len(),
{
    let rest = deliveries_along(source, nbrs.drop_last(), present);
    if k < rest.len() {
        lemma_deliveries_along_sound(source, nbrs.drop_last(), present, k);
        let m = choose|m: int| 0 <= m < nbrs.drop_last().len() && #[trigger] nbrs.drop_last()[m].0 == rest[k].1;
        assert(nbrs[m].0 == rest[k].1);
    } else {
        assert(nbrs[nbrs.len() - 1].0 == nbrs.last().0);
    }
}

/// In a gossip round, a murmur only travels from a speaking room, along one of
/// its edges, to a room that is present.
pub proof fn lemma_gossip_follows_edges<W>(
    g: Graph<W>,
    order: Seq<RoomId>,
    present: Seq<RoomId>,
    k: int,
)
    requires
        0 <= k < gossip_plan(g, order, present).len(),
    ensures
        order.contains(gossip_plan(g, order, present)[k].0),
        present.contains(gossip_plan(g, order, present)[k].1),
        exists|m: int|
            0 <= m < g.spec_neighbors(gossip_plan(g, order, present)[k].0).len()
                && #[trigger] g.spec_neighbors(gossip_plan(g, order, present)[k].0)[m].0 == gossip_plan(
                g,
                order,
                present,
            )[k].1,
    decreases order.len(),
{
    let prefix = gossip_plan(g, order.drop_last(), present);
    let s = order.last();
    let tail = deliveries_along(s, g.spec_neighbors(s), present);
    assert(gossip_plan(g, order, present) == prefix + tail);
    if k < prefix.len() {
        lemma_gossip_follows_edges(g, order.drop_last(), present, k);
        let s0 = prefix[k].0;
        let j = choose|j: int| 0 <= j < order.drop_last().len() && order.drop_last()[j] == s0;
        assert(order[j] == s0);
    } else {
        lemma_deliveries_along_sound(s, g.spec_neighbors(s), present, k - prefix.len());
        assert(order[order.len() - 1] == s);
    }
}

/// A present neighbour named in the list receives the speaker's murmur.
proof fn lemma_deliveries_along_complete<W>(
    source: RoomId,
    nbrs: Seq<(RoomId, W)>,
    present: Seq<RoomId>,
    m: int,
)
    requires
        0 <= m < nbrs.len(),
        present.contains(nbrs[m].0),
    ensures
        deliveries_along(source, nbrs, present).contains((source, nbrs[m].0)),
    decreases nbrs.len(),
{
    let rest = deliveries_along(source, nbrs.drop_last(), present);
    if m < nbrs.len() - 1 {
        assert(nbrs.drop_last()[m] == nbrs[m]);
        lemma_deliveries_along_complete(source, nbrs.drop_last(), present, m);
        let k = choose|k: int| 0 <= k < rest.len() && rest[k] == (source, nbrs[m].0);
        assert(deliveries_along(source, nbrs, present)[k] == (source, nbrs[m].0));
    } else {
        let all = deliveries_along(source, nbrs, present);
        assert(all[all.len() - 1] == (source, nbrs[m].0));
    }
}

/// Gossip propagates: in a round, every speaking room's murmur reaches each
/// of its neighbours that is present.
pub proof fn lemma_gossip_reaches_neighbors<W>(
    g: Graph<W>,
    order: Seq<RoomId>,
    present: Seq<RoomId>,
    s: RoomId,
    m: int,
)
    requires
        order.contains(s),
        0 <= m < g.spec_neighbors(s).len(),
        present.contains(g.spec_neighbors(s)[m].0),
    ensures
        gossip_plan(g, order, present).contains((s, g.spec_neighbors(s)[m].0)),
    decreases order.len(),
{
    let prefix = gossip_plan(g, order.drop_last(), present);
    let last = order.last();
    let tail = deliveries_along(last, g.spec_neighbors(last), present);
    let pair = (s, g.spec_neighbors(s)[m].0);
    assert(gossip_plan(g, order, present) == prefix + tail);
    if last == s {
        lemma_deliveries_along_complete(s, g.spec_neighbors(s), present, m);
        let k = choose|k: int| 0 <= k < tail.len() && tail[k] == pair;
        assert((prefix + tail)[prefix.len() + k] == pair);
    } else {
        let j = choose|j: int| 0 <= j < order.len() && order[j] == s;
        assert(j < order.len() - 1);
        assert(order.drop_last()[j] == s);
        lemma_gossip_reaches_neighbors(g, order.drop_last(), present, s, m);
        let k = choose|k: int| 0 <= k < prefix.len() && prefix[k] == pair;
        assert((prefix + tail)[k] == pair);
    }
}

/// Number of pairs in `plan` whose listener is `t`.
pub open spec fn deliveries_to(plan: Seq<(RoomId, RoomId)>, t: RoomId) -> nat
    decreases plan.len(),
{
    if plan.len() == 0 {
        0
    } else {
        deliveries_to(plan.drop_last(), t) + if plan.last().1 == t {
            1nat
        } else {
            0nat
        }
    }
}

/// Number of entries of the neighbour list `nbrs` that name `t`.
pub open spec fn times_listed<W>(nbrs: Seq<(RoomId, W)>, t: RoomId) -> nat
    decreases nbrs.len(),
{
    if nbrs.len() == 0 {
        0
    } else {
        times_listed(nbrs.drop_last(), t) + if nbrs.last().0 == t {
            1nat
        } else {
            0nat
        }
    }
}

/// Number of listed edges into `t` from the rooms of `order` (a room listed
/// twice in `order` counts twice).
pub open spec fn listed_edges_into<W>(g: Graph<W>, order: Seq<RoomId>, t: RoomId) -> nat
    decreases order.len(),
{
    if order.len() == 0 {
        0
    } else {
        listed_edges_into(g, order.drop_last(), t) + times_listed(g.spec_neighbors(order.last()), t)
    }
}

/// Counting listeners distributes over concatenation.
proof fn lemma_deliveries_to_concat(a: Seq<(RoomId, RoomId)>, b: Seq<(RoomId, RoomId)>, t: RoomId)
    ensures
        deliveries_to(a + b, t) == deliveries_to(a, t) + deliveries_to(b, t),
    decreases b.len(),
{
    if b.len() > 0 {
        assert((a + b).drop_last() =~= a + b.drop_last());
        lemma_deliveries_to_concat(a, b.drop_last(), t);
    } else {
        assert(a + b =~= a);
    }
}

/// Along one neighbour list, a present room hears once per time it is listed.
proof fn lemma_deliveries_along_count<W>(
    source: RoomId,
    nbrs: Seq<(RoomId, W)>,
    present: Seq<RoomId>,
    t: RoomId,
)
    ensures
        deliveries_to(deliveries_along(source, nbrs, present), t) == if present.contains(t) {
            times_listed(nbrs, t)
        } else {
            0
        },
    decreases nbrs.len(),
{
    if nbrs.len() > 0 {
        lemma_deliveries_along_count(source, nbrs.drop_last(), present, t);
        let rest = deliveries_along(source, nbrs.drop_last(), present);
        if present.contains(nbrs.last().0) {
            assert(rest.push((source, nbrs.last().0)).drop_last() =~= rest);
        }
    }
}

/// Gossip delivers a murmur to a present room once for every listed edge into
/// it from a speaking room, and never to a room that is not present.
pub proof fn lemma_gossip_delivery_count<W>(
    g: Graph<W>,
    order: Seq<RoomId>,
    present: Seq<RoomId>,
    t: RoomId,
)
    ensures
        deliveries_to(gossip_plan(g, order, present), t) == if present.contains(t) {
            listed_edges_into(g, order, t)
        } else {
            0
        },
    decreases order.len(),
{
    if order.len() > 0 {
        lemma_gossip_delivery_count(g, order.drop_last(), present, t);
        let s = order.last();
        lemma_deliveries_to_concat(
            gossip_plan(g, order.drop_last(), present),
            deliveries_along(s, g.spec_neighbors(s), present),
            t,
        );
        lemma_deliveries_along_count(s, g.spec_neighbors(s), present, t);
    }
}

/// The `(speaker, listener)` pairs of one gossip round among `rooms`: each
/// room, in the given order, speaks to every neighbour (in the order of its
/// adjacency list) that is itself one of `rooms`.
pub fn gossip_deliveries<W: Copy>(graph: &Graph<W>, rooms: &Vec<RoomId>) -> (plan: Vec<
    (RoomId, RoomId),
>)
    requires
        graph.wf(),
    ensures
        plan@ == gossip_plan(*graph, rooms@, rooms@),
{
    let mut plan: Vec<(RoomId, RoomId)> = Vec::new();
    let mut i: usize = 0;
    while i < rooms.len()
        invariant
            graph.wf(),
            i <= rooms@.len(),
            plan@ == gossip_plan(*graph, rooms@.subrange(0, i as int), rooms@),
        decreases rooms@.len() - i,
    {
        let source = rooms[i];
        let nbrs = graph.neighbors(source);
        let ghost before = plan@;
        let mut j: usize = 0;
        while j < nbrs.len()
            invariant
                i < rooms@.len(),
                source == rooms@[i as int],
                j <= nbrs@.len(),
                plan@ == before + deliveries_along(source, nbrs@.subrange(0, j as int), rooms@),
            decreases nbrs@.len() - j,
        {
            let target = nbrs[j].0;
            assert(nbrs@.subrange(0, j + 1).drop_last() =~= nbrs@.subrange(0, j as int));
            if contains_id(rooms, target) {
                plan.push((source, target));
            }
            j = j + 1;
        }
        assert(nbrs@.subrange(0, nbrs@.len() as int) =~= nbrs@);
        assert(rooms@.subrange(0, i + 1).drop_last() =~= rooms@.subrange(0, i as int));
        i = i + 1;
    }
    assert(rooms@.subrange(0, rooms@.len() as int) =~= rooms@);
    plan
}

} // verus!
