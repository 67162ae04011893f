//! The discrete decisions of the merge phase of a room's garbage collection:
//! which entries merge together, and which id each merged entry keeps. (The
//! decay phase uses `VectorDb::retain`, the prune phase `VectorDb::keep_last`.)
use vstd::prelude::*;
use crate::vector_db::{VectorDb, filter_by};

verus! {

/// A matrix of flags taken row by row by its view.
pub open spec fn rows<T>(m: Seq<Vec<T>>) -> Seq<Seq<T>> {
    m.map_values(|r: Vec<T>| r@)
}

/// `x` is listed in group `g`.
pub open spec fn member_of(groups: Seq<Seq<usize>>, g: int, x: int) -> bool {
    exists|a: int| 0 <= a < groups[g].len() && groups[g][a] == x
}

/// `x` is listed in some group before group `g`.
pub open spec fn taken_before(groups: Seq<Seq<usize>>, g: int, x: int) -> bool {
    exists|h: int| 0 <= h < g && #[trigger] member_of(groups, h, x)
}

/// `groups` is the greedy merge grouping of the indices `0..n` under the
/// closeness flags `close` (`close[i][j]`: entry `j` lies within the merge
/// threshold of entry `i`). Scanning indices upwards, each index not yet
/// taken leads a new group, which takes every later index not yet taken that
/// is close to the leader. Thus: the groups are non-empty, their leaders
/// (first members) increase, members are listed in increasing order, every
/// index lies in exactly one group, and a later index belongs to a group
/// exactly when it is close to that group's leader and no earlier group took it.
pub open spec fn is_greedy_grouping(close: Seq<Seq<bool>>, groups: Seq<Seq<usize>>) -> bool {
    let n = close.len();
    &&& forall|g: int| 0 <= g < groups.len() ==> #[trigger] groups[g].len() > 0
    &&& forall|g: int, a: int|
        0 <= g < groups.len() && 0 <= a < groups[g].len() ==> #[trigger] groups[g][a] < n
    &&& forall|g: int, a: int, b: int|
        0 <= g < groups.len() && 0 <= a < b < groups[g].len() ==> #[trigger] groups[g][a]
            < #[trigger] groups[g][b]
    &&& forall|g: int, h: int|
        0 <= g < h < groups.len() ==> #[trigger] groups[g][0] < #[trigger] groups[h][0]
    &&& forall|x: int| 0 <= x < n ==> #[trigger] taken_before(groups, groups.len() as int, x)
    &&& forall|g: int, h: int, x: int|
        0 <= g < groups.len() && 0 <= h < groups.len() && #[trigger] member_of(groups, g, x)
            && #[trigger] member_of(groups, h, x) ==> g == h
    &&& forall|g: int, x: int|
        0 <= g < groups.len() && groups[g][0] < x < n ==> (#[trigger] member_of(groups, g, x) <==> (
        close[groups[g][0] as int][x] && !taken_before(groups, g, x)))
}

/// Groups the indices `0..n` of a store of `n` entries for merging: scanning
/// upwards, each index not yet taken leads a new group that takes every later
/// untaken index whose flag `close[leader][j]` is set.
pub fn merge_groups(close: &Vec<Vec<bool>>) -> (groups: Vec<Vec<usize>>)
    requires
        forall|i: int| 0 <= i < close@.len() ==> #[trigger] close@[i]@.len() == close@.len(),
    ensures
        is_greedy_grouping(rows(close@), rows(groups@)),
        forall|g: int, x: int|
            #![trigger close@[groups@[g]@[0] as int]@[x]]
            0 <= g < groups@.len() && groups@[g]@[0] < x < close@.len() && (forall|h: int, a: int|
                0 <= h < g && 0 <= a < groups@[h]@.len() ==> #[trigger] groups@[h]@[a] != x) ==> (close@[groups@[g]@[0] as int]@[x]
                <==> exists|a: int| 0 <= a < groups@[g]@.len() && #[trigger] groups@[g]@[a] == x),
        close@.len() >= 2 && close@[0]@[1] ==> exists|g: int, a: int, b: int|
            0 <= g < groups@.len() && 0 <= a < groups@[g]@.len() && 0 <= b < groups@[g]@.len()
                && #[trigger] groups@[g]@[a] == 0 && #[trigger] groups@[g]@[b] == 1,
        forall|g: int| 0 <= g < groups@.len() ==> #[trigger] groups@[g]@.len() > 0,
        forall|g: int, a: int|
            0 <= g < groups@.len() && 0 <= a < groups@[g]@.len() ==> #[trigger] groups@[g]@[a] < close@.len(),
        forall|g: int, a: int, b: int|
            0 <= g < groups@.len() && 0 <= a < b < groups@[g]@.len() ==> #[trigger] groups@[g]@[a]
                < #[trigger] groups@[g]@[b],
        forall|g: int, h: int|
            0 <= g < h < groups@.len() ==> #[trigger] groups@[g]@[0] < #[trigger] groups@[h]@[0],
        exists|group_of: Seq<int>, place: Seq<int>|
            #![trigger group_of.len(), place.len()]
            group_of.len() == close@.len() && place.len() == close@.len() && forall|x: int|
                0 <= x < close@.len() ==> 0 <= #[trigger] group_of[x] < groups@.len() && 0 <= place[x]
                    < groups@[group_of[x]]@.len() && groups@[group_of[x]]@[place[x]] == x,
        forall|g: int, h: int, a: int, b: int|
            0 <= g < groups@.len() && 0 <= h < groups@.len() && 0 <= a < groups@[g]@.len() && 0 <= b
                < groups@[h]@.len() && #[trigger] groups@[g]@[a] == #[trigger] groups@[h]@[b] ==> g == h && a
                == b,
{
    let n = close.len();
    let ghost cl = rows(close@);
    let mut consumed: Vec<bool> = Vec::new();
    let mut k: usize = 0;
    while k < n
        invariant
            k <= n,
            consumed@.len() == k,
            forall|x: int| 0 <= x < k ==> !consumed@[x],
        decreases n - k,
    {
        consumed.push(false);
        k = k + 1;
    }
    let ghost mut owner: Seq<int> = Seq::new(n as nat, |x: int| -1);
    let ghost mut pos: Seq<int> = Seq::new(n as nat, |x: int| 0);
    let mut groups: Vec<Vec<usize>> = Vec::new();
    let mut i: usize = 0;
    while i < n
        invariant
            n == close@.len(),
            cl == rows(close@),
            forall|r: int| 0 <= r < n ==> #[trigger] close@[r]@.len() == n,
            i <= n,
            consumed@.len() == n,
            owner.len() == n,
            pos.len() == n,
            forall|x: int| 0 <= x < n ==> consumed@[x] == (owner[x] >= 0),
            forall|x: int| 0 <= x < i ==> owner[x] >= 0,
            forall|x: int| 0 <= x < n ==> owner[x] < groups@.len(),
            forall|x: int| 0 <= x < n ==> owner[x] >= -1,
            forall|x: int|
                #![trigger owner[x]]
                0 <= x < n && owner[x] >= 0 ==> 0 <= pos[x] < groups@[owner[x]]@.len()
                    && groups@[owner[x]]@[pos[x]] == x,
            forall|g: int| 0 <= g < groups@.len() ==> #[trigger] groups@[g]@.len() > 0,
            forall|g: int| 0 <= g < groups@.len() ==> #[trigger] groups@[g]@[0] < i,
            forall|g: int, a: int|
                0 <= g < groups@.len() && 0 <= a < groups@[g]@.len() ==> #[trigger] groups@[g]@[a]
                    < n && owner[groups@[g]@[a] as int] == g,
            forall|g: int, a: int, b: int|
                0 <= g < groups@.len() && 0 <= a < b < groups@[g]@.len() ==> #[trigger] groups@[g]@[a]
                    < #[trigger] groups@[g]@[b],
            forall|g: int, h: int|
                0 <= g < h < groups@.len() ==> #[trigger] groups@[g]@[0] < #[trigger] groups@[h]@[0],
            forall|g: int, x: int|
                0 <= g < groups@.len() && #[trigger] groups@[g]@[0] < x < n ==> ((#[trigger] owner[x]
                    == g) <==> (cl[groups@[g]@[0] as int][x] && !(0 <= owner[x] < g))),
        decreases n - i,
    {
        if !consumed[i] {
            let ghost g_new = groups@.len() as int;
            let ghost old_owner = owner;
            let ghost old_pos = pos;
            let mut members: Vec<usize> = Vec::new();
            members.push(i);
            proof {
                owner = owner.update(i as int, g_new);
                pos = pos.update(i as int, 0);
            }
            let mut j: usize = i + 1;
            while j < n
                invariant
                    n == close@.len(),
                    cl == rows(close@),
                    forall|r: int| 0 <= r < n ==> #[trigger] close@[r]@.len() == n,
                    i < j <= n,
                    g_new == groups@.len(),
                    consumed@.len() == n,
                    owner.len() == n,
                    pos.len() == n,
                    old_owner.len() == n,
                    old_owner[i as int] == -1,
                    owner[i as int] == g_new,
                    forall|x: int| 0 <= x < n && x != i ==> consumed@[x] == (owner[x] >= 0),
                    forall|x: int| 0 <= x < n && (x < i || x >= j) ==> owner[x] == old_owner[x],
                    forall|x: int|
                        #![trigger owner[x]]
                        i < x < j ==> (owner[x] == g_new <==> (old_owner[x] == -1 && cl[i as int][x]))
                            && (owner[x] != g_new ==> owner[x] == old_owner[x]),
                    members@.len() > 0,
                    members@[0] == i,
                    forall|a: int| 0 <= a < members@.len() ==> #[trigger] members@[a] < j,
                    forall|a: int, b: int|
                        0 <= a < b < members@.len() ==> #[trigger] members@[a] < #[trigger] members@[b],
                    forall|a: int|
                        0 <= a < members@.len() ==> #[trigger] owner[members@[a] as int] == g_new
                            && pos[members@[a] as int] == a,
                    old_pos.len() == n,
                    forall|x: int| 0 <= x < n ==> old_owner[x] >= -1,
                    forall|x: int| 0 <= x < n ==> old_owner[x] < g_new,
                    forall|x: int|
                        #![trigger owner[x]]
                        0 <= x < n && owner[x] == g_new ==> 0 <= pos[x] < members@.len()
                            && members@[pos[x]] == x,
                    forall|x: int|
                        #![trigger owner[x]]
                        0 <= x < n && owner[x] == old_owner[x] ==> pos[x] == old_pos[x],
                decreases n - j,
            {
                assert(owner[j as int] == old_owner[j as int]);
                if !consumed[j] && close[i][j] {
                    assert(cl[i as int][j as int] == close@[i as int]@[j as int]);
                    members.push(j);
                    consumed.set(j, true);
                    proof {
                        owner = owner.update(j as int, g_new);
                        pos = pos.update(j as int, members@.len() - 1);
                    }
                } else {
                    assert(cl[i as int][j as int] == close@[i as int]@[j as int]);
                }
                j = j + 1;
            }
            consumed.set(i, true);
            groups.push(members);
        }
        i = i + 1;
    }
    proof {
        let gs = rows(groups@);
        assert forall|g: int, x: int| 0 <= g < gs.len() implies #[trigger] member_of(gs, g, x) == (0 <= x
            < n && owner[x] == g) by {
            if member_of(gs, g, x) {
                let a = choose|a: int| 0 <= a < gs[g].len() && gs[g][a] == x;
                assert(groups@[g]@[a] == x);
            }
            if 0 <= x < n && owner[x] == g {
                assert(gs[g][pos[x]] == x);
            }
        }
        assert forall|g: int, x: int| 0 <= g <= gs.len() implies #[trigger] taken_before(gs, g, x) == (0 <= x
            < n && 0 <= owner[x] < g) by {
            if 0 <= x < n && 0 <= owner[x] < g {
                assert(member_of(gs, owner[x], x));
            }
        }
        assert forall|g: int| 0 <= g < gs.len() implies #[trigger] gs[g].len() > 0 by {
            assert(groups@[g]@.len() > 0);
        }
        assert forall|g: int, a: int| 0 <= g < gs.len() && 0 <= a < gs[g].len() implies #[trigger] gs[g][a]
            < n by {
            assert(groups@[g]@[a] < n);
        }
        assert forall|g: int, a: int, b: int|
            0 <= g < gs.len() && 0 <= a < b < gs[g].len() implies #[trigger] gs[g][a] < #[trigger] gs[g][b] by {
            assert(groups@[g]@[a] < groups@[g]@[b]);
        }
        assert forall|g: int, h: int| 0 <= g < h < gs.len() implies #[trigger] gs[g][0] < #[trigger] gs[h][0] by {
            assert(groups@[g]@[0] < groups@[h]@[0]);
        }
        assert forall|g: int, x: int| 0 <= g < gs.len() && gs[g][0] < x < n implies (#[trigger] member_of(
            gs,
            g,
            x,
        ) <==> (rows(close@)[gs[g][0] as int][x] && !taken_before(gs, g, x))) by {
            assert(groups@[g]@[0] == gs[g][0]);
            assert((owner[x] == g) <==> (cl[groups@[g]@[0] as int][x] && !(0 <= owner[x] < g)));
        }
        assert forall|x: int| 0 <= x < close@.len() implies 0 <= #[trigger] owner[x] < groups@.len() && 0
            <= pos[x] < groups@[owner[x]]@.len() && groups@[owner[x]]@[pos[x]] == x by {
            assert(owner[x] >= 0);
        }
        assert(owner.len() == close@.len() && pos.len() == close@.len());
        assert forall|g: int, h: int, a: int, b: int|
            0 <= g < groups@.len() && 0 <= h < groups@.len() && 0 <= a < groups@[g]@.len() && 0 <= b
                < groups@[h]@.len() && #[trigger] groups@[g]@[a] == #[trigger] groups@[h]@[b] implies g == h
                && a == b by {
            let x = groups@[g]@[a] as int;
            assert(owner[x] == g);
            assert(owner[x] == h);
            if a < b {
                assert(groups@[g]@[a] < groups@[g]@[b]);
            } else if b < a {
                assert(groups@[g]@[b] < groups@[g]@[a]);
            }
        }
        lemma_merge_follows_leader_row(cl, gs);
        assert forall|g: int| 0 <= g < gs.len() implies #[trigger] gs[g] == groups@[g]@ by {}
        assert forall|r: int| 0 <= r < cl.len() implies #[trigger] cl[r] == close@[r]@ by {}
        assert forall|g: int, x: int|
            #![trigger close@[groups@[g]@[0] as int]@[x]]
            0 <= g < groups@.len() && groups@[g]@[0] < x < close@.len() && (forall|h: int, a: int|
                0 <= h < g && 0 <= a < groups@[h]@.len() ==> #[trigger] groups@[h]@[a] != x) implies (close@[groups@[g]@[0] as int]@[x]
                <==> exists|a: int| 0 <= a < groups@[g]@.len() && #[trigger] groups@[g]@[a] == x) by {
            assert(gs[g] == groups@[g]@);
            assert(cl[gs[g][0] as int] == close@[groups@[g]@[0] as int]@);
            assert forall|h: int, a: int| 0 <= h < g && 0 <= a < gs[h].len() implies #[trigger] gs[h][a] != x by {
                assert(gs[h] == groups@[h]@);
                assert(groups@[h]@[a] != x);
            }
            if close@[groups@[g]@[0] as int]@[x] {
                assert(cl[gs[g][0] as int][x]);
                let a = choose|a: int| 0 <= a < gs[g].len() && #[trigger] gs[g][a] == x;
                assert(groups@[g]@[a] == x);
            }
            if exists|a: int| 0 <= a < groups@[g]@.len() && #[trigger] groups@[g]@[a] == x {
                let a = choose|a: int| 0 <= a < groups@[g]@.len() && #[trigger] groups@[g]@[a] == x;
                assert(gs[g][a] == x);
            }
        }
        if close@.len() >= 2 && close@[0]@[1] {
            assert(cl[0] == close@[0]@);
            assert(cl[0][1]);
            let (g, a, b) = choose|g: int, a: int, b: int|
                0 <= g < gs.len() && 0 <= a < gs[g].len() && 0 <= b < gs[g].len() && #[trigger] gs[g][a] == 0
                    && #[trigger] gs[g][b] == 1;
            assert(gs[g] == groups@[g]@);
            assert(groups@[g]@[a] == 0 && groups@[g]@[b] == 1);
        }
    }
    groups
}

/// Merging follows the leader's row of the closeness matrix: for every group
/// with leader `l` and every later index `x` that no earlier group holds, `x`
/// joins `l`'s group exactly when `close[l][x]` is set (whatever `close[x][l]`
/// says). In particular, when `close[0][1]` is set, entries 0 and 1 share a
/// group.
pub proof fn lemma_merge_follows_leader_row(close: Seq<Seq<bool>>, groups: Seq<Seq<usize>>)
    requires
        is_greedy_grouping(close, groups),
    ensures
        forall|g: int, x: int|
            #![trigger close[groups[g][0] as int][x]]
            0 <= g < groups.len() && groups[g][0] < x < close.len() && (forall|h: int, a: int|
                0 <= h < g && 0 <= a < groups[h].len() ==> #[trigger] groups[h][a] != x) ==> (close[groups[g][0] as int][x]
                <==> exists|a: int| 0 <= a < groups[g].len() && #[trigger] groups[g][a] == x),
        close.len() >= 2 && close[0][1] ==> exists|g: int, a: int, b: int|
            0 <= g < groups.len() && 0 <= a < groups[g].len() && 0 <= b < groups[g].len() && #[trigger] groups[g][a]
                == 0 && #[trigger] groups[g][b] == 1,
{
    assert forall|g: int, x: int|
        0 <= g < groups.len() && groups[g][0] < x < close.len() && (forall|h: int, a: int|
            0 <= h < g && 0 <= a < groups[h].len() ==> #[trigger] groups[h][a] != x) implies (#[trigger] close[groups[g][0] as int][x]
        <==> exists|a: int| 0 <= a < groups[g].len() && #[trigger] groups[g][a] == x) by {
        if taken_before(groups, g, x) {
            let h = choose|h: int| 0 <= h < g && #[trigger] member_of(groups, h, x);
            let a = choose|a: int| 0 <= a < groups[h].len() && groups[h][a] == x;
            assert(groups[h][a] != x);
        }
        assert(member_of(groups, g, x) <==> (close[groups[g][0] as int][x] && !taken_before(groups, g, x)));
    }
    if close.len() >= 2 && close[0][1] {
        assert(taken_before(groups, groups.len() as int, 0));
        let g = choose|g: int| 0 <= g < groups.len() && #[trigger] member_of(groups, g, 0);
        let a = choose|a: int| 0 <= a < groups[g].len() && groups[g][a] == 0;
        // 0 is the smallest index, so it leads its group, and no group comes earlier.
        if a > 0 {
            assert(groups[g][0] < groups[g][a]);
        }
        assert(groups[g][0] == 0);
        if g > 0 {
            assert(groups[0][0] < groups[g][0]);
        }
        assert(!taken_before(groups, g, 1));
        assert(member_of(groups, g, 1));
        let b = choose|b: int| 0 <= b < groups[g].len() && groups[g][b] == 1;
        assert(groups[g][a] == 0 && groups[g][b] == 1);
    }
}

/// Greedy merging never yields more groups than entries, and yields strictly
/// fewer as soon as one group holds two entries.
pub proof fn lemma_merge_never_grows(close: Seq<Seq<bool>>, groups: Seq<Seq<usize>>)
    requires
        is_greedy_grouping(close, groups),
    ensures
        groups.len() <= close.len(),
        (exists|g: int| 0 <= g < groups.len() && #[trigger] groups[g].len() >= 2) ==> groups.len()
            < close.len(),
{
    let m = groups.len() as int;
    let n = close.len() as int;
    lemma_leaders_spread(close, groups, m - 1);
    if exists|g: int| 0 <= g < groups.len() && #[trigger] groups[g].len() >= 2 {
        let g = choose|g: int| 0 <= g < groups.len() && #[trigger] groups[g].len() >= 2;
        let x = groups[g][1] as int;
        assert(groups[g][0] < groups[g][1]);
        assert(member_of(groups, g, x));
        assert forall|h: int| 0 <= h < m implies #[trigger] groups[h][0] != x by {
            if groups[h][0] == x {
                assert(member_of(groups, h, x));
            }
        }
        lemma_leaders_skip(close, groups, x, m - 1);
    }
}

/// The leader of group `g` is at least `g`.
proof fn lemma_leaders_spread(close: Seq<Seq<bool>>, groups: Seq<Seq<usize>>, g: int)
    requires
        is_greedy_grouping(close, groups),
        g < groups.len(),
    ensures
        g >= 0 ==> groups[g][0] >= g,
    decreases g,
{
    if g > 0 {
        lemma_leaders_spread(close, groups, g - 1);
        assert(groups[g - 1][0] < groups[g][0]);
    }
}

/// When index `x` leads no group, every leader above `x` exceeds its group
/// number by one.
proof fn lemma_leaders_skip(close: Seq<Seq<bool>>, groups: Seq<Seq<usize>>, x: int, g: int)
    requires
        is_greedy_grouping(close, groups),
        g < groups.len(),
        forall|h: int| 0 <= h < groups.len() ==> #[trigger] groups[h][0] != x,
        0 <= x,
    ensures
        g >= 0 ==> groups[g][0] >= g,
        g >= 0 && groups[g][0] > x ==> groups[g][0] >= g + 1,
    decreases g,
{
    if g > 0 {
        lemma_leaders_skip(close, groups, x, g - 1);
        assert(groups[g - 1][0] < groups[g][0]);
        assert(groups[g - 1][0] != x);
    }
}

/// The store after merging: one entry per group, in group order, carrying the
/// id of the group's leader and the merged vector computed for that group.
pub fn merged_store<V>(db: &VectorDb<V>, groups: &Vec<Vec<usize>>, means: Vec<V>) -> (merged: VectorDb<V>)
    requires
        means@.len() == groups@.len(),
        forall|g: int| 0 <= g < groups@.len() ==> #[trigger] groups@[g]@.len() > 0 && groups@[g]@[0] < db@.len(),
    ensures
        merged@.len() == groups@.len(),
        forall|g: int|
            0 <= g < groups@.len() ==> #[trigger] merged@[g] == (db@[groups@[g]@[0] as int].0, means@[g]),
{
    let m = means.len();
    let ghost orig = means@;
    let mut pending = means;
    let mut reversed: Vec<V> = Vec::new();
    while pending.len() > 0
        invariant
            m == orig.len(),
            pending@ == orig.subrange(0, pending@.len() as int),
            reversed@.len() + pending@.len() == m,
            forall|j: int| 0 <= j < reversed@.len() ==> reversed@[j] == orig[m - 1 - j],
        decreases pending@.len(),
    {
        let v = pending.pop().unwrap();
        reversed.push(v);
    }
    let mut merged: VectorDb<V> = VectorDb::new();
    let mut g: usize = 0;
    while g < m
        invariant
            m == orig.len(),
            m == groups@.len(),
            g <= m,
            reversed@.len() == m - g,
            forall|j: int| 0 <= j < reversed@.len() ==> reversed@[j] == orig[m - 1 - j],
            forall|h: int| 0 <= h < groups@.len() ==> #[trigger] groups@[h]@.len() > 0 && groups@[h]@[0] < db@.len(),
            merged@.len() == g,
            forall|h: int| 0 <= h < g ==> #[trigger] merged@[h] == (db@[groups@[h]@[0] as int].0, orig[h]),
        decreases m - g,
    {
        let v = reversed.pop().unwrap();
        assert(groups@[g as int]@.len() > 0);
        let leader = groups[g][0];
        let id = db.entries()[leader].0;
        merged.insert(id, v);
        g = g + 1;
    }
    merged
}

/// The ids of a store's entries, in order.
pub open spec fn ids_of<V>(s: Seq<(u64, V)>) -> Seq<u64> {
    s.map_values(|e: (u64, V)| e.0)
}

/// `sub` is read off `sup` at the strictly increasing positions `at`.
pub open spec fn picks(sub: Seq<u64>, sup: Seq<u64>, at: Seq<int>) -> bool {
    &&& at.len() == sub.len()
    &&& forall|k: int| 0 <= k < at.len() ==> 0 <= #[trigger] at[k] < sup.len() && sub[k] == sup[at[k]]
    &&& forall|a: int, b: int| 0 <= a < b < at.len() ==> #[trigger] at[a] < #[trigger] at[b]
}

/// `sub` is a subsequence of `sup`: same relative order, nothing added.
pub open spec fn is_subsequence(sub: Seq<u64>, sup: Seq<u64>) -> bool {
    exists|at: Seq<int>| picks(sub, sup, at)
}

/// A subsequence is no longer than the sequence it is read from.
pub proof fn lemma_subsequence_len(sub: Seq<u64>, sup: Seq<u64>)
    requires
        is_subsequence(sub, sup),
    ensures
        sub.len() <= sup.len(),
{
    let at = choose|at: Seq<int>| picks(sub, sup, at);
    if sub.len() > 0 {
        lemma_positions_spread(at, sup.len() as int, sub.len() - 1);
    }
}

/// Strictly increasing non-negative positions: position `k` is at least `k`.
proof fn lemma_positions_spread(at: Seq<int>, bound: int, k: int)
    requires
        0 <= k < at.len(),
        forall|j: int| 0 <= j < at.len() ==> 0 <= #[trigger] at[j] < bound,
        forall|a: int, b: int| 0 <= a < b < at.len() ==> #[trigger] at[a] < #[trigger] at[b],
    ensures
        at[k] >= k,
    decreases k,
{
    if k > 0 {
        lemma_positions_spread(at, bound, k - 1);
        assert(at[k - 1] < at[k]);
    }
}

/// Being a subsequence is transitive.
pub proof fn lemma_subsequence_trans(a: Seq<u64>, b: Seq<u64>, c: Seq<u64>)
    requires
        is_subsequence(a, b),
        is_subsequence(b, c),
    ensures
        is_subsequence(a, c),
{
    let at1 = choose|at: Seq<int>| picks(a, b, at);
    let at2 = choose|at: Seq<int>| picks(b, c, at);
    let at = Seq::new(a.len(), |k: int| at2[at1[k]]);
    assert forall|k: int| 0 <= k < at.len() implies 0 <= #[trigger] at[k] < c.len() && a[k] == c[at[k]] by {
        assert(0 <= at1[k] < b.len());
        assert(0 <= at2[at1[k]] < c.len());
    }
    assert forall|x: int, y: int| 0 <= x < y < at.len() implies #[trigger] at[x] < #[trigger] at[y] by {
        assert(at1[x] < at1[y]);
        assert(at2[at1[x]] < at2[at1[y]]);
    }
    assert(picks(a, c, at));
}

/// Merging keeps, in order, the ids of the group leaders: the ids after a
/// merge form a subsequence of the ids before it.
pub proof fn lemma_merge_keeps_leader_ids<V>(
    before: Seq<(u64, V)>,
    close: Seq<Seq<bool>>,
    groups: Seq<Seq<usize>>,
    merged: Seq<(u64, V)>,
)
    requires
        is_greedy_grouping(close, groups),
        close.len() == before.len(),
        merged.len() == groups.len(),
        forall|g: int| 0 <= g < groups.len() ==> #[trigger] merged[g].0 == before[groups[g][0] as int].0,
    ensures
        picks(ids_of(merged), ids_of(before), Seq::new(groups.len(), |g: int| groups[g][0] as int)),
        is_subsequence(ids_of(merged), ids_of(before)),
{
    let at = Seq::new(groups.len(), |g: int| groups[g][0] as int);
    assert forall|k: int| 0 <= k < at.len() implies 0 <= #[trigger] at[k] < ids_of(before).len() && ids_of(
        merged,
    )[k] == ids_of(before)[at[k]] by {
        assert(groups[k].len() > 0);
        assert(groups[k][0] < close.len());
        assert(merged[k].0 == before[groups[k][0] as int].0);
    }
    assert forall|a: int, b: int| 0 <= a < b < at.len() implies #[trigger] at[a] < #[trigger] at[b] by {
        assert(groups[a][0] < groups[b][0]);
    }
    assert(picks(ids_of(merged), ids_of(before), at));
}

/// Filtering keeps a subsequence of the ids.
pub proof fn lemma_filter_keeps_ids<V>(s: Seq<(u64, V)>, keep: Seq<bool>)
    ensures
        is_subsequence(ids_of(filter_by(s, keep)), ids_of(s)),
    decreases s.len(),
{
    if s.len() == 0 {
        assert(picks(ids_of(filter_by(s, keep)), ids_of(s), Seq::<int>::empty()));
    } else {
        let p = s.drop_last();
        lemma_filter_keeps_ids(p, keep);
        let at = choose|at: Seq<int>| picks(ids_of(filter_by(p, keep)), ids_of(p), at);
        assert forall|k: int| 0 <= k < at.len() implies 0 <= #[trigger] at[k] < ids_of(p).len() && ids_of(
            s,
        )[at[k]] == ids_of(p)[at[k]] by {
            assert(s[at[k]] == p[at[k]]);
        }
        if keep[s.len() - 1] {
            let at2 = at.push(s.len() - 1);
            let f = filter_by(s, keep);
            assert(f == filter_by(p, keep).push(s.last()));
            assert forall|k: int| 0 <= k < at2.len() implies 0 <= #[trigger] at2[k] < ids_of(s).len()
                && ids_of(f)[k] == ids_of(s)[at2[k]] by {
                if k < at.len() {
                    assert(at2[k] == at[k]);
                    assert(f[k] == filter_by(p, keep)[k]);
                }
            }
            assert forall|a: int, b: int| 0 <= a < b < at2.len() implies #[trigger] at2[a] < #[trigger] at2[b] by {
                if b < at.len() {
                    assert(at[a] < at[b]);
                } else {
                    assert(at2[a] == at[a]);
                }
            }
            assert(picks(ids_of(f), ids_of(s), at2));
        } else {
            assert(picks(ids_of(filter_by(s, keep)), ids_of(s), at));
        }
    }
}

/// A suffix keeps a subsequence of the ids.
pub proof fn lemma_suffix_keeps_ids<V>(s: Seq<(u64, V)>, start: int)
    requires
        0 <= start <= s.len(),
    ensures
        is_subsequence(ids_of(s.subrange(start, s.len() as int)), ids_of(s)),
{
    let at = Seq::new((s.len() - start) as nat, |k: int| k + start);
    assert(picks(ids_of(s.subrange(start, s.len() as int)), ids_of(s), at));
}

/// Garbage collection never invents or reorders ids: whether or not the
/// merge phase ran, after the merge (one entry per greedy group, under its
/// leader's id), the decay filter and the size cap, the ids left form a
/// subsequence of the ids before, so the store never grows.
pub proof fn lemma_gc_keeps_ids<V>(
    before: Seq<(u64, V)>,
    close: Seq<Seq<bool>>,
    groups: Seq<Seq<usize>>,
    merged: Seq<(u64, V)>,
    keep: Seq<bool>,
    decayed: Seq<(u64, V)>,
    count: int,
    pruned: Seq<(u64, V)>,
)
    requires
        merged == before || {
            &&& is_greedy_grouping(close, groups)
            &&& close.len() == before.len()
            &&& merged.len() == groups.len()
            &&& forall|g: int| 0 <= g < groups.len() ==> #[trigger] merged[g].0 == before[groups[g][0] as int].0
        },
        decayed == filter_by(merged, keep),
        pruned == decayed || (0 <= count < decayed.len() && pruned == decayed.subrange(
            decayed.len() - count,
            decayed.len() as int,
        )),
    ensures
        is_subsequence(ids_of(pruned), ids_of(before)),
        pruned.len() <= before.len(),
{
    if merged == before {
        assert(picks(ids_of(merged), ids_of(before), Seq::new(before.len(), |k: int| k)));
    } else {
        lemma_merge_keeps_leader_ids(before, close, groups, merged);
    }
    lemma_filter_keeps_ids(merged, keep);
    lemma_subsequence_trans(ids_of(decayed), ids_of(merged), ids_of(before));
    if pruned == decayed {
    } else {
        lemma_suffix_keeps_ids(decayed, decayed.len() - count);
        lemma_subsequence_trans(ids_of(pruned), ids_of(decayed), ids_of(before));
    }
    lemma_subsequence_len(ids_of(pruned), ids_of(before));
}

} // verus!
