//! The cellular graph: registered rooms, weighted directed edges, and for each
//! room the list of edges that leave it.
use std::collections::HashMap;
use vstd::prelude::*;
use crate::RoomId;

verus! {

broadcast use vstd::std_specs::hash::group_hash_axioms;

/// Whether `id` occurs in `ids`.
pub(crate) fn contains_id(ids: &Vec<RoomId>, id: RoomId) -> (b: bool)
    ensures
        b == ids@.contains(id),
{
    let mut i: usize = 0;
    while i < ids.len()
        invariant
            i <= ids@.len(),
            !ids@.subrange(0, i as int).contains(id),
        decreases ids@.len() - i,
    {
        if ids[i] == id {
            assert(ids@[i as int] == id);
            return true;
        }
        proof {
            let pre = ids@.subrange(0, i as int);
            let post = ids@.subrange(0, i + 1);
            if post.contains(id) {
                let k = choose|k: int| 0 <= k < post.len() && post[k] == id;
                assert(pre[k] == id);
            }
        }
        i = i + 1;
    }
    assert(ids@.subrange(0, ids@.len() as int) =~= ids@);
    false
}

/// A directed edge between rooms carrying a gossip weight.
#[derive(Clone, Copy, Debug)]
pub struct Edge<W> {
    pub from: RoomId,
    pub to: RoomId,
    pub weight: W,
}

/// Positions, in increasing order, of the edges in `edges` that leave `r`.
pub open spec fn indices_from<W>(edges: Seq<Edge<W>>, r: RoomId) -> Seq<usize>
    decreases edges.len(),
{
    if edges.len() == 0 {
        Seq::empty()
    } else {
        let rest = indices_from(edges.drop_last(), r);
        if edges.last().from == r {
            rest.push((edges.len() - 1) as usize)
        } else {
            rest
        }
    }
}

/// The `(target, weight)` pairs of the edges in `edges` that leave `r`, in
/// the order in which the edges were added.
pub open spec fn edges_leaving<W>(edges: Seq<Edge<W>>, r: RoomId) -> Seq<(RoomId, W)>
    decreases edges.len(),
{
    if edges.len() == 0 {
        Seq::empty()
    } else {
        let rest = edges_leaving(edges.drop_last(), r);
        if edges.last().from == r {
            rest.push((edges.last().to, edges.last().weight))
        } else {
            rest
        }
    }
}

/// Rooms, edges, and an adjacency index from a room to the positions in
/// `edges` of the edges recorded as leaving it.
#[derive(Clone, Debug)]
pub struct Graph<W> {
    pub rooms: Vec<RoomId>,
    pub edges: Vec<Edge<W>>,
    pub adjacency: HashMap<RoomId, Vec<usize>>,
}

impl<W> Graph<W> {
    /// The adjacency index with each list taken by its view.
    pub open spec fn adj(&self) -> Map<RoomId, Seq<usize>> {
        self.adjacency@.map_values(|v: Vec<usize>| v@)
    }

    /// The edge positions recorded for `id`; empty when `id` has no list.
    pub open spec fn out_indices(&self, id: RoomId) -> Seq<usize> {
        if self.adj().contains_key(id) {
            self.adj()[id]
        } else {
            Seq::empty()
        }
    }

    /// Well-formedness: no room is registered twice; every registered room and
    /// every room that an edge leaves has an adjacency list; and each list is
    /// exactly the increasing list of positions of the edges leaving its room
    /// (so every listed position names an existing edge that leaves that room).
    pub open spec fn wf(&self) -> bool {
        &&& self.rooms@.no_duplicates()
        &&& forall|i: int| 0 <= i < self.rooms@.len() ==> #[trigger] self.adj().contains_key(self.rooms@[i])
        &&& forall|r: RoomId, k: int|
            #![trigger self.adj()[r][k]]
            self.adj().contains_key(r) && 0 <= k < self.adj()[r].len() ==> {
                &&& self.adj()[r][k] < self.edges@.len()
                &&& self.edges@[self.adj()[r][k] as int].from == r
            }
        &&& forall|j: int| 0 <= j < self.edges@.len() ==> self.adj().contains_key(#[trigger] self.edges@[j].from)
        &&& forall|r: RoomId| #[trigger] self.adj().contains_key(r) ==> self.adj()[r] == indices_from(self.edges@, r)
    }

    /// The neighbours of `id` as `(target, weight)` pairs, in the order in which
    /// their edges were added.
    pub open spec fn spec_neighbors(&self, id: RoomId) -> Seq<(RoomId, W)> {
        self.out_indices(id).map_values(
            |i: usize| (self.edges@[i as int].to, self.edges@[i as int].weight),
        )
    }

    /// An empty graph.
    pub fn new() -> (g: Self)
        ensures
            g.wf(),
            g.rooms@ == Seq::<RoomId>::empty(),
            g.edges@ == Seq::<Edge<W>>::empty(),
            g.adj() == Map::<RoomId, Seq<usize>>::empty(),
    {
        let g = Graph { rooms: Vec::new(), edges: Vec::new(), adjacency: HashMap::new() };
        assert(g.adj() =~= Map::<RoomId, Seq<usize>>::empty());
        g
    }

    /// Registers `id`, unless it is already registered, giving it an empty
    /// adjacency list when it has none yet (a list created by earlier edges
    /// from `id` is kept).
    pub fn add_room(&mut self, id: RoomId)
        requires
            old(self).wf(),
        ensures
            final(self).wf(),
            final(self).edges@ == old(self).edges@,
            old(self).rooms@.contains(id) ==> {
                &&& final(self).rooms@ == old(self).rooms@
                &&& final(self).adj() == old(self).adj()
            },
            !old(self).rooms@.contains(id) ==> final(self).rooms@ == old(self).rooms@.push(id),
            !old(self).rooms@.contains(id) && old(self).adj().contains_key(id) ==> final(self).adj()
                == old(self).adj(),
            !old(self).rooms@.contains(id) && !old(self).adj().contains_key(id) ==> final(self).adj()
                == old(self).adj().insert(id, Seq::<usize>::empty()),
    {
        let present = contains_id(&self.rooms, id);
        if !present {
            let ghost old_adj = self.adj();
            self.rooms.push(id);
            if !self.adjacency.contains_key(&id) {
                self.adjacency.insert(id, Vec::new());
                assert(self.adj() =~= old_adj.insert(id, Seq::<usize>::empty()));
                proof { lemma_no_edges_leaving(self.edges@, id); }
                assert forall|r: RoomId| #[trigger] self.adj().contains_key(r) implies self.adj()[r]
                    == indices_from(self.edges@, r) by {
                    if r != id {
                        assert(old_adj.contains_key(r));
                    }
                }
                assert forall|j: int| 0 <= j < self.edges@.len() implies self.adj().contains_key(
                    #[trigger] self.edges@[j].from,
                ) by {
                    assert(old_adj.contains_key(self.edges@[j].from));
                }
            }
            assert forall|j: int| 0 <= j < self.rooms@.len() implies #[trigger] self.adj().contains_key(self.rooms@[j]) by {
                if j < self.rooms@.len() - 1 {
                    assert(old(self).adj().contains_key(old(self).rooms@[j]));
                }
            }
        }
    }

    /// Appends the edge `from -> to` with `weight` and records its position at
    /// the end of `from`'s adjacency list (creating the list if needed).
    pub fn add_edge(&mut self, from: RoomId, to: RoomId, weight: W)
        requires
            old(self).wf(),
        ensures
            final(self).wf(),
            final(self).rooms@ == old(self).rooms@,
            final(self).edges@ == old(self).edges@.push((Edge { from, to, weight })),
            final(self).adj() == old(self).adj().insert(
                from,
                old(self).out_indices(from).push(old(self).edges@.len() as usize),
            ),
    {
        let idx = self.edges.len();
        let ghost old_adj = self.adj();
        self.edges.push(Edge { from, to, weight });
        let mut list = match self.adjacency.remove(&from) {
            Some(v) => v,
            None => Vec::new(),
        };
        assert(list@ == old(self).out_indices(from));
        list.push(idx);
        self.adjacency.insert(from, list);
        assert(self.adj() =~= old_adj.insert(from, old(self).out_indices(from).push(idx)));
        assert forall|r: RoomId, k: int|
            #![trigger self.adj()[r][k]]
            self.adj().contains_key(r) && 0 <= k < self.adj()[r].len() implies {
                &&& self.adj()[r][k] < self.edges@.len()
                &&& self.edges@[self.adj()[r][k] as int].from == r
            } by {
            if r != from || k < self.adj()[r].len() - 1 {
                assert(old_adj[r][k] == self.adj()[r][k]);
            }
        }
        assert forall|j: int| 0 <= j < self.rooms@.len() implies #[trigger] self.adj().contains_key(self.rooms@[j]) by {
            assert(old_adj.contains_key(self.rooms@[j]));
        }
        proof {
            let old_edges = old(self).edges@;
            assert(self.edges@.drop_last() =~= old_edges);
            if !old_adj.contains_key(from) {
                lemma_no_edges_leaving(old_edges, from);
            }
            assert(old(self).out_indices(from) == indices_from(old_edges, from));
            assert forall|r: RoomId| #[trigger] self.adj().contains_key(r) implies self.adj()[r]
                == indices_from(self.edges@, r) by {
                if r != from {
                    assert(old_adj.contains_key(r));
                }
            }
            assert forall|j: int| 0 <= j < self.edges@.len() implies self.adj().contains_key(
                #[trigger] self.edges@[j].from,
            ) by {
                if j < old_edges.len() {
                    assert(old_edges[j] == self.edges@[j]);
                    assert(old_adj.contains_key(old_edges[j].from));
                }
            }
        }
    }

    /// The `(target, weight)` pairs listed for `id`, in the order of its list.
    pub fn neighbors(&self, id: RoomId) -> (r: Vec<(RoomId, W)>)
        where W: Copy,
        requires
            self.wf(),
        ensures
            r@ == self.spec_neighbors(id),
    {
        match self.adjacency.get(&id) {
            Some(indices) => {
                let mut out: Vec<(RoomId, W)> = Vec::new();
                let mut k: usize = 0;
                while k < indices.len()
                    invariant
                        self.wf(),
                        self.adj().contains_key(id),
                        indices@ == self.adj()[id],
                        k <= indices@.len(),
                        out@ =~= self.spec_neighbors(id).subrange(0, k as int),
                    decreases indices@.len() - k,
                {
                    let i = indices[k];
                    assert(self.adj()[id][k as int] == i);
                    let e = self.edges[i];
                    out.push((e.to, e.weight));
                    k = k + 1;
                }
                out
            },
            None => Vec::new(),
        }
    }

    /// Number of registered rooms.
    pub fn room_count(&self) -> (n: usize)
        ensures
            n == self.rooms@.len(),
    {
        self.rooms.len()
    }

    /// Number of edges.
    pub fn edge_count(&self) -> (n: usize)
        ensures
            n == self.edges@.len(),
    {
        self.edges.len()
    }
}

impl<W> Default for Graph<W> {
    fn default() -> (g: Self)
        ensures
            g.wf(),
            g.rooms@ == Seq::<RoomId>::empty(),
            g.edges@ == Seq::<Edge<W>>::empty(),
            g.adj() == Map::<RoomId, Seq<usize>>::empty(),
    {
        Self::new()
    }
}

/// Every neighbour reported for a room comes from an edge that leaves that room.
pub proof fn lemma_neighbors_are_edges<W>(g: Graph<W>, id: RoomId, k: int)
    requires
        g.wf(),
        0 <= k < g.spec_neighbors(id).len(),
    ensures
        exists|j: int|
            0 <= j < g.edges@.len() && #[trigger] g.edges@[j].from == id && g.spec_neighbors(id)[k] == (
            g.edges@[j].to,
            g.edges@[j].weight,
        ),
{
    let j = g.out_indices(id)[k] as int;
    assert(g.adj()[id][k] == g.out_indices(id)[k]);
    assert(g.edges@[j].from == id);
}

/// With no edge leaving `r`, no position is listed for `r`.
proof fn lemma_no_edges_leaving<W>(edges: Seq<Edge<W>>, r: RoomId)
    requires
        forall|j: int| 0 <= j < edges.len() ==> #[trigger] edges[j].from != r,
    ensures
        indices_from(edges, r) == Seq::<usize>::empty(),
    decreases edges.len(),
{
    if edges.len() > 0 {
        assert forall|j: int| 0 <= j < edges.drop_last().len() implies #[trigger] edges.drop_last()[j].from
            != r by {
            assert(edges.drop_last()[j] == edges[j]);
        }
        lemma_no_edges_leaving(edges.drop_last(), r);
        assert(edges[edges.len() - 1].from != r);
    }
}

/// Reading the positions of the edges leaving `r` in a prefix of `edges` off
/// the full sequence gives the edges leaving `r` in that prefix.
proof fn lemma_indices_read_edges<W>(edges: Seq<Edge<W>>, r: RoomId, m: int)
    requires
        0 <= m <= edges.len(),
        edges.len() <= usize::MAX,
    ensures
        indices_from(edges.subrange(0, m), r).map_values(
            |i: usize| (edges[i as int].to, edges[i as int].weight),
        ) == edges_leaving(edges.subrange(0, m), r),
        forall|k: int|
            0 <= k < indices_from(edges.subrange(0, m), r).len() ==> #[trigger] indices_from(
                edges.subrange(0, m),
                r,
            )[k] < m,
    decreases m,
{
    let p = edges.subrange(0, m);
    let f = |i: usize| (edges[i as int].to, edges[i as int].weight);
    if m > 0 {
        assert(p.drop_last() =~= edges.subrange(0, m - 1));
        lemma_indices_read_edges(edges, r, m - 1);
        assert(p.last() == edges[m - 1]);
        assert(indices_from(p, r).map_values(f) =~= edges_leaving(p, r));
    } else {
        assert(indices_from(p, r).map_values(f) =~= edges_leaving(p, r));
    }
}

/// The neighbour list of every room is complete: it lists every edge leaving
/// the room, in the order in which the edges were added, and nothing else.
pub proof fn lemma_neighbors_complete<W>(g: Graph<W>, id: RoomId)
    requires
        g.wf(),
    ensures
        g.spec_neighbors(id) == edges_leaving(g.edges@, id),
        g.out_indices(id) == indices_from(g.edges@, id),
{
    if !g.adj().contains_key(id) {
        assert forall|j: int| 0 <= j < g.edges@.len() implies #[trigger] g.edges@[j].from != id by {
            if g.edges@[j].from == id {
                assert(g.adj().contains_key(g.edges@[j].from));
            }
        }
        lemma_no_edges_leaving(g.edges@, id);
    }
    assert(g.edges.len() == g.edges@.len());
    lemma_indices_read_edges(g.edges@, id, g.edges@.len() as int);
    assert(g.edges@.subrange(0, g.edges@.len() as int) =~= g.edges@);
}

/// Registering a room a second time changes nothing: two `add_room(id)` calls
/// leave the graph as one call does.
pub proof fn lemma_add_room_idempotent<W>(g0: Graph<W>, g1: Graph<W>, g2: Graph<W>, id: RoomId)
    requires
        g0.wf(),
        g1.edges@ == g0.edges@,
        g0.rooms@.contains(id) ==> g1.rooms@ == g0.rooms@ && g1.adj() == g0.adj(),
        !g0.rooms@.contains(id) ==> g1.rooms@ == g0.rooms@.push(id),
        !g0.rooms@.contains(id) && g0.adj().contains_key(id) ==> g1.adj() == g0.adj(),
        !g0.rooms@.contains(id) && !g0.adj().contains_key(id) ==> g1.adj() == g0.adj().insert(
            id,
            Seq::<usize>::empty(),
        ),
        g2.edges@ == g1.edges@,
        g1.rooms@.contains(id) ==> g2.rooms@ == g1.rooms@ && g2.adj() == g1.adj(),
        !g1.rooms@.contains(id) ==> g2.rooms@ == g1.rooms@.push(id),
        !g1.rooms@.contains(id) && g1.adj().contains_key(id) ==> g2.adj() == g1.adj(),
        !g1.rooms@.contains(id) && !g1.adj().contains_key(id) ==> g2.adj() == g1.adj().insert(
            id,
            Seq::<usize>::empty(),
        ),
    ensures
        g2.rooms@ == g1.rooms@,
        g2.edges@ == g1.edges@,
        g2.adj() == g1.adj(),
        g2.rooms@.contains(id),
{
    if !g0.rooms@.contains(id) {
        assert(g1.rooms@[g1.rooms@.len() - 1] == id);
    }
}

/// Connecting two rooms both ways (an edge `a -> b` followed by `b -> a` with
/// the same weight) adds two edges and lets each endpoint see the other as its
/// newest neighbour; every other room keeps its neighbours.
pub proof fn lemma_connect_both_ways<W>(
    g0: Graph<W>,
    g1: Graph<W>,
    g2: Graph<W>,
    a: RoomId,
    b: RoomId,
    w: W,
)
    requires
        g0.wf(),
        g1.edges@ == g0.edges@.push((Edge { from: a, to: b, weight: w })),
        g1.adj() == g0.adj().insert(a, g0.out_indices(a).push(g0.edges@.len() as usize)),
        g2.edges@ == g1.edges@.push((Edge { from: b, to: a, weight: w })),
        g2.adj() == g1.adj().insert(b, g1.out_indices(b).push(g1.edges@.len() as usize)),
    ensures
        g2.edges@.len() == g0.edges@.len() + 2,
        a != b ==> g2.spec_neighbors(a) == g0.spec_neighbors(a).push((b, w)),
        a != b ==> g2.spec_neighbors(b) == g0.spec_neighbors(b).push((a, w)),
        a == b ==> g2.spec_neighbors(a) == g0.spec_neighbors(a).push((b, w)).push((a, w)),
        forall|r: RoomId| r != a && r != b ==> #[trigger] g2.spec_neighbors(r) == g0.spec_neighbors(r),
{
    let n = g0.edges@.len();
    assert(g2.edges.len() == g2.edges@.len());
    assert(g2.edges@[n as int] == (Edge { from: a, to: b, weight: w }));
    assert(g2.edges@[(n + 1) as int] == (Edge { from: b, to: a, weight: w }));
    assert forall|r: RoomId| r != a && r != b implies #[trigger] g2.spec_neighbors(r) == g0.spec_neighbors(r) by {
        assert(g2.out_indices(r) == g0.out_indices(r));
        assert forall|k: int| 0 <= k < g0.out_indices(r).len() implies g0.out_indices(r)[k] < n by {
            assert(g0.adj()[r][k] == g0.out_indices(r)[k]);
        }
        assert(g2.spec_neighbors(r) =~= g0.spec_neighbors(r));
    }
    lemma_neighbors_prefix(g0, g2, a);
    lemma_neighbors_prefix(g0, g2, b);
    if a != b {
        assert(g2.out_indices(a) == g0.out_indices(a).push(n as usize));
        assert(g2.out_indices(b) == g0.out_indices(b).push((n + 1) as usize));
        assert(g2.spec_neighbors(a) =~= g0.spec_neighbors(a).push((b, w)));
        assert(g2.spec_neighbors(b) =~= g0.spec_neighbors(b).push((a, w)));
    } else {
        assert(g2.out_indices(a) == g0.out_indices(a).push(n as usize).push((n + 1) as usize));
        assert(g2.spec_neighbors(a) =~= g0.spec_neighbors(a).push((b, w)).push((a, w)));
    }
}

/// Positions listed in a well-formed graph stay below its edge count, so a
/// graph that only appended edges reads the same edges at those positions.
proof fn lemma_neighbors_prefix<W>(g0: Graph<W>, g2: Graph<W>, r: RoomId)
    requires
        g0.wf(),
        g0.edges@.len() <= g2.edges@.len(),
        forall|j: int| 0 <= j < g0.edges@.len() ==> g2.edges@[j] == g0.edges@[j],
    ensures
        forall|k: int|
            0 <= k < g0.out_indices(r).len() ==> g0.out_indices(r)[k] < g0.edges@.len()
                && g2.edges@[g0.out_indices(r)[k] as int] == g0.edges@[g0.out_indices(r)[k] as int],
{
    assert forall|k: int| 0 <= k < g0.out_indices(r).len() implies g0.out_indices(r)[k] < g0.edges@.len()
        && g2.edges@[g0.out_indices(r)[k] as int] == g0.edges@[g0.out_indices(r)[k] as int] by {
        assert(g0.adj()[r][k] == g0.out_indices(r)[k]);
    }
}

} // verus!
