//! Partition of a board's segments into groups, and the frontier of cells
//! where a tile could be placed.
use vstd::prelude::*;
use crate::connectivity::{
    qualifies, slot, slot_terrain, lemma_slot_terrain, node, links, links_at, connected,
    is_walk, reachable, lemma_links_symmetric, lemma_connected_trans, lemma_connected_refl,
    lemma_connected_step, lemma_walk_push,
};
use crate::data::{Terrain, is_group_terrain, is_waterlike};
use crate::group::{Group, GroupIndex};
use crate::hex::{Pos, Rotation, neighbor, adjacent, neighbors_fit, neighbor_pos_of, opposite_side, opposite};
use crate::map::{Board, SegmentIndex, origin};

verus! {

/// The terrain a segment of terrain `terrain` is grouped under in slot `s`.
pub fn slot_terrain_of(terrain: Terrain, s: usize) -> (r: Option<Terrain>)
    requires
        s < 2,
    ensures
        r == slot_terrain(terrain, s as int),
{
    if s == 0 {
        match terrain {
            Terrain::River | Terrain::Lake | Terrain::Station => Some(Terrain::River),
            Terrain::Rail | Terrain::Missing => None,
            other => Some(other),
        }
    } else {
        match terrain {
            Terrain::Rail | Terrain::Station => Some(Terrain::Rail),
            _ => None,
        }
    }
}

/// The group that segment `i` has in slot `s`, if any.
pub open spec fn assignment(a0: Seq<Option<GroupIndex>>, a1: Seq<Option<GroupIndex>>, s: int, i: int) -> Option<GroupIndex> {
    if s == 0 {
        a0[i]
    } else {
        a1[i]
    }
}

/// Whether segment `i` is a member of `grp`.
pub open spec fn member(grp: Group, i: int) -> bool {
    0 <= i <= usize::MAX && grp.segment_indices@.contains(i as usize)
}

/// Whether member `m`'s sides towards cells without a tile are all in `open`.
pub open spec fn edges_recorded(b: Board, open: Seq<(Pos, Rotation)>, m: int) -> bool {
    forall|r: int|
        #![trigger b.segments@[m].occupies(r)]
        b.segments@[m].occupies(r) && !b.has_tile(neighbor(b.segments@[m].pos, r)) ==> open.contains(
            (neighbor(b.segments@[m].pos, r), r as usize),
        )
}

/// Whether `(p, r)` is a side `r` of a segment of `members` that faces the
/// empty cell `p`.
pub open spec fn is_open_edge(b: Board, members: Seq<usize>, p: Pos, r: int) -> bool {
    exists|x: int|
        0 <= x < members.len() && b.segments@[members[x] as int].occupies(r) && p == neighbor(
            b.segments@[members[x] as int].pos,
            r,
        ) && !b.has_tile(p)
}

/// Whether `open` lists exactly the open edges of `members`.
pub open spec fn open_edges_exact(b: Board, members: Seq<usize>, open: Seq<(Pos, Rotation)>) -> bool {
    &&& forall|e: int| 0 <= e < open.len() ==> #[trigger] is_open_edge(b, members, open[e].0, open[e].1 as int)
    &&& forall|x: int| 0 <= x < members.len() ==> #[trigger] edges_recorded(b, open, members[x] as int)
}

/// What group `k` of `groups` is, given the assignment slots `a0`, `a1`:
/// a set of segments of one group terrain, each assigned to `k`, all
/// chained to its first member both ways, closed under meeting steps, with
/// exactly its open edges listed.
pub open spec fn group_ok(
    b: Board,
    groups: Seq<Group>,
    a0: Seq<Option<GroupIndex>>,
    a1: Seq<Option<GroupIndex>>,
    k: int,
) -> bool {
    let grp = groups[k];
    let g = grp.terrain;
    let ms = grp.segment_indices@;
    &&& is_group_terrain(g)
    &&& ms.len() >= 1
    &&& ms.no_duplicates()
    &&& forall|x: int|
        0 <= x < ms.len() ==> {
            &&& node(b, #[trigger] ms[x] as int, g)
            &&& assignment(a0, a1, slot(g), ms[x] as int) == Some(k as usize)
            &&& connected(b, g, ms[0] as int, ms[x] as int)
            &&& connected(b, g, ms[x] as int, ms[0] as int)
        }
    &&& forall|m: int, j: int|
        member(grp, m) && #[trigger] links(b, m, j, g) ==> member(grp, j)
    &&& open_edges_exact(b, ms, grp.open_edges@)
}

/// The invariant of a list of groups with its assignment slots.
pub open spec fn groups_ok(
    b: Board,
    groups: Seq<Group>,
    a0: Seq<Option<GroupIndex>>,
    a1: Seq<Option<GroupIndex>>,
) -> bool {
    &&& a0.len() == b.segments@.len()
    &&& a1.len() == b.segments@.len()
    &&& forall|s: int, i: int|
        0 <= s < 2 && 0 <= i < b.segments@.len() && #[trigger] assignment(a0, a1, s, i) is Some ==> {
            &&& assignment(a0, a1, s, i)->0 < groups.len()
            &&& member(groups[assignment(a0, a1, s, i)->0 as int], i)
            &&& slot(groups[assignment(a0, a1, s, i)->0 as int].terrain) == s
        }
    &&& forall|k: int| 0 <= k < groups.len() ==> #[trigger] group_ok(b, groups, a0, a1, k)
}

/// What a sequence holds after a push.
pub proof fn lemma_push_contains<A>(s: Seq<A>, j: A)
    ensures
        forall|y: A| #[trigger] s.push(j).contains(y) <==> (y == j || s.contains(y)),
        s.no_duplicates() && !s.contains(j) ==> s.push(j).no_duplicates(),
{
    let t = s.push(j);
    assert forall|y: A| #[trigger] t.contains(y) <==> (y == j || s.contains(y)) by {
        if y == j {
            assert(t[t.len() - 1] == j);
        }
        if s.contains(y) {
            let q = choose|q: int| 0 <= q < s.len() && s[q] == y;
            assert(t[q] == y);
        }
        if t.contains(y) && y != j {
            let q = choose|q: int| 0 <= q < t.len() && t[q] == y;
            assert(s[q] == y);
        }
    }
    if s.no_duplicates() && !s.contains(j) {
        assert forall|p: int, q: int| 0 <= p < q < t.len() implies t[p] != t[q] by {
            if q == t.len() - 1 {
                assert(s.contains(t[p]));
            } else {
                assert(t[p] == s[p] && t[q] == s[q]);
            }
        }
    }
}

/// Giving a fresh segment the group being built and queueing it keeps the
/// work list's invariant.
proof fn lemma_enqueue(
    before: GroupAnalyzer,
    after: GroupAnalyzer,
    j: usize,
    g: Terrain,
    s: int,
    cur: usize,
    start: int,
    members: Seq<usize>,
    x: usize,
)
    requires
        before.worklist(g, cur as int, start, members, Some(x)),
        s == slot(g),
        j < before.board.segments@.len(),
        before.assigned(s, j as int) is None,
        node(*before.board, j as int, g),
        connected(*before.board, g, start, j as int),
        connected(*before.board, g, j as int, start),
        after.board == before.board,
        after.assigned_groups@.len() == before.assigned_groups@.len(),
        after.rail_groups@.len() == before.rail_groups@.len(),
        after.segment_queue@ == before.segment_queue@.push(j),
        forall|t: int, i: int|
            #![trigger after.assigned(t, i)]
            0 <= t < 2 && 0 <= i < after.board.segments@.len() ==> after.assigned(t, i) == if t == s
                && i == j {
                Some(cur)
            } else {
                before.assigned(t, i)
            },
    ensures
        after.worklist(g, cur as int, start, members, Some(x)),
        after.assignments_grow(before, s, cur as int),
{
    let b = *before.board;
    let wl = after.segment_queue@;
    let bwl = before.segment_queue@;
    lemma_push_contains(bwl, j);
    assert(!bwl.contains(j)) by {
        if bwl.contains(j) {
            assert(before.assigned(s, j as int) == Some(cur));
        }
    }
    assert forall|i: int|
        0 <= i < b.segments@.len() implies (#[trigger] after.assigned(s, i) == Some(cur) <==> (
        members.contains(i as usize) || wl.contains(i as usize) || Some(x) == Some(i as usize))) by {
        assert(before.assigned(s, i) == Some(cur) <==> (members.contains(i as usize) || bwl.contains(
            i as usize,
        ) || Some(x) == Some(i as usize)));
        assert(wl.contains(i as usize) == (i as usize == j || bwl.contains(i as usize)));
        let iu = i as usize;
        let lhs = after.assigned(s, i) == Some(cur);
        let rhs = members.contains(iu) || wl.contains(iu) || Some(x) == Some(iu);
        if i != j {
            assert(after.assigned(s, i) == before.assigned(s, i));
            assert(wl.contains(iu) == bwl.contains(iu));
            assert(lhs == rhs);
        } else {
            assert(after.assigned(s, i) == Some(cur));
            assert(wl.contains(iu));
            assert(lhs == rhs);
        }
    }
    assert forall|y: usize| members.contains(y) implies !wl.contains(y) by {
        assert(wl.contains(y) == (y == j || bwl.contains(y)));
        if y == j {
            assert(before.assigned(s, j as int) == Some(cur));
        }
    }
    assert(!wl.contains(x)) by {
        assert(wl.contains(x) == (x == j || bwl.contains(x)));
        if x == j {
            assert(before.assigned(s, x as int) == Some(cur));
        }
    }
    assert forall|y: usize|
        #![trigger members.contains(y)]
        #![trigger wl.contains(y)]
        members.contains(y) || wl.contains(y) implies {
        &&& node(b, y as int, g)
        &&& connected(b, g, start, y as int)
        &&& connected(b, g, y as int, start)
    } by {
        assert(wl.contains(y) == (y == j || bwl.contains(y)));
    }
    assert forall|m: int, k: int|
        0 <= m && members.contains(m as usize) && #[trigger] links(b, m, k, g) implies after.assigned(
        s,
        k,
    ) is Some by {
        assert(before.assigned(s, k) is Some);
    }
    assert forall|t: int, i: int|
        #![trigger after.assigned(t, i)]
        0 <= t < 2 && 0 <= i < after.board.segments@.len() implies {
            &&& before.assigned(t, i) is Some ==> after.assigned(t, i) == before.assigned(t, i)
            &&& before.assigned(t, i) is None ==> (after.assigned(t, i) is None || (after.assigned(t, i)
                == Some(cur as usize) && t == s))
        } by {
    }
}

/// Distinct indices below `n` number at most `n`.
pub proof fn lemma_distinct_below(s: Seq<usize>, n: usize)
    requires
        s.no_duplicates(),
        forall|i: int| 0 <= i < s.len() ==> #[trigger] s[i] < n,
    ensures
        s.len() <= n,
{
    s.unique_seq_to_set();
    let r = Set::<usize>::range(0, n);
    <usize as vstd::set_lib::FiniteRange>::range_properties(0, n);
    assert forall|y: usize| s.to_set().contains(y) implies r.contains(y) by {
        assert(s.contains(y));
        let q = choose|q: int| 0 <= q < s.len() && s[q] == y;
        assert(s[q] < n);
    }
    vstd::set_lib::lemma_len_subset(s.to_set(), r);
}

/// Taking the last segment off the work list to expand it keeps the work
/// list's invariant.
proof fn lemma_pop(
    before: GroupAnalyzer,
    after: GroupAnalyzer,
    g: Terrain,
    cur: int,
    start: int,
    members: Seq<usize>,
)
    requires
        before.worklist(g, cur, start, members, None),
        before.segment_queue@.len() > 0,
        after.segment_queue@ == before.segment_queue@.drop_last(),
        after.board == before.board,
        after.assigned_groups == before.assigned_groups,
        after.rail_groups == before.rail_groups,
    ensures
        after.worklist(g, cur, start, members, Some(before.segment_queue@.last())),
        members.len() + 1 <= before.board.segments@.len(),
{
    let b = *before.board;
    let bwl = before.segment_queue@;
    let wl = after.segment_queue@;
    let x = bwl.last();
    assert(bwl == wl.push(x));
    lemma_push_contains(wl, x);
    assert(bwl.contains(x));
    assert forall|i: int| 0 <= i < b.segments@.len() implies #[trigger] after.assigned(slot(g), i)
        == before.assigned(slot(g), i) by {
    }
    assert(wl.no_duplicates()) by {
        assert forall|p: int, q: int| 0 <= p < q < wl.len() implies wl[p] != wl[q] by {
            assert(wl[p] == bwl[p] && wl[q] == bwl[q]);
        }
    }
    assert(!wl.contains(x)) by {
        if wl.contains(x) {
            let q = choose|q: int| 0 <= q < wl.len() && wl[q] == x;
            assert(bwl[q] == bwl[bwl.len() - 1]);
        }
    }
    assert forall|y: usize|
        #![trigger members.contains(y)]
        #![trigger wl.contains(y)]
        members.contains(y) || wl.contains(y) implies {
        &&& node(b, y as int, g)
        &&& connected(b, g, start, y as int)
        &&& connected(b, g, y as int, start)
    } by {
        assert(bwl.contains(y) == (y == x || wl.contains(y)));
    }
    assert forall|y: usize| members.contains(y) implies !wl.contains(y) by {
        assert(bwl.contains(y) == (y == x || wl.contains(y)));
    }
    if members.len() == 0 {
        assert(bwl == seq![start as usize]);
    }
    let all = members.push(x);
    lemma_push_contains(members, x);
    assert forall|i: int| 0 <= i < all.len() implies #[trigger] all[i] < b.segments@.len() by {
        assert(all.contains(all[i]));
        if all[i] != x {
            assert(members.contains(all[i]));
        }
    }
    lemma_distinct_below(all, b.segments@.len() as usize);
}

/// A segment whose meeting steps all lead to assigned segments is done.
proof fn lemma_member_done(
    st: GroupAnalyzer,
    g: Terrain,
    cur: int,
    start: int,
    members: Seq<usize>,
    x: usize,
)
    requires
        st.worklist(g, cur, start, members, Some(x)),
        forall|j: int| #[trigger] links(*st.board, x as int, j, g) ==> st.assigned(slot(g), j) is Some,
    ensures
        st.worklist(g, cur, start, members.push(x), None),
{
    let b = *st.board;
    let all = members.push(x);
    lemma_push_contains(members, x);
    assert forall|y: usize|
        #![trigger all.contains(y)]
        #![trigger st.segment_queue@.contains(y)]
        all.contains(y) || st.segment_queue@.contains(y) implies {
        &&& node(b, y as int, g)
        &&& connected(b, g, start, y as int)
        &&& connected(b, g, y as int, start)
    } by {
        if y != x && all.contains(y) {
            assert(members.contains(y));
        }
    }
    assert forall|m: int, j: int|
        0 <= m && all.contains(m as usize) && #[trigger] links(b, m, j, g) implies st.assigned(
        slot(g),
        j,
    ) is Some by {
        let r = choose|r: int| links_at(b, m, r, j, g);
        assert(m < b.segments@.len());
        if m as usize != x {
            assert(members.contains(m as usize));
        } else {
            assert(m == x as int);
        }
    }
    if members.len() == 0 {
        assert(all[0] == x);
    } else {
        assert(all[0] == members[0]);
    }
    let wl = st.segment_queue@;
    assert(!members.contains(x));
    assert(all.no_duplicates());
    assert forall|i: int|
        0 <= i < b.segments@.len() implies (#[trigger] st.assigned(slot(g), i) == Some(cur as usize)
        <==> (all.contains(i as usize) || wl.contains(i as usize) || None::<usize> == Some(
        i as usize))) by {
        assert(all.contains(i as usize) == (i as usize == x || members.contains(i as usize)));
    }
    assert forall|y: usize| all.contains(y) implies !wl.contains(y) by {
        assert(all.contains(y) == (y == x || members.contains(y)));
    }
    assert(wl.no_duplicates());
    assert(all.len() > 0 ==> all[0] == start);
    assert(all.len() == 0 && None::<usize> is None ==> wl == seq![start as usize]);
}

/// Once the work list is empty, the members make a group that keeps the
/// list of groups valid.
proof fn lemma_close_group(
    o: GroupAnalyzer,
    st: GroupAnalyzer,
    grp: Group,
    g: Terrain,
    start: int,
)
    requires
        o.groups_inv(),
        st.board == o.board,
        st.groups == o.groups,
        st.worklist(g, o.groups@.len() as int, start, grp.segment_indices@, None),
        st.assignments_grow(o, slot(g), o.groups@.len() as int),
        st.segment_queue@.len() == 0,
        grp.terrain == g,
        open_edges_exact(*o.board, grp.segment_indices@, grp.open_edges@),
    ensures
        groups_ok(*o.board, o.groups@.push(grp), st.assigned_groups@, st.rail_groups@),
{
    let b = *o.board;
    let cur = o.groups@.len() as int;
    let gs = o.groups@.push(grp);
    let a0 = st.assigned_groups@;
    let a1 = st.rail_groups@;
    let ms = grp.segment_indices@;
    let s = slot(g);
    if ms.len() == 0 {
        assert(st.segment_queue@ == seq![start as usize]);
        assert(false);
    }
    assert forall|t: int, i: int|
        0 <= t < 2 && 0 <= i < b.segments@.len() && #[trigger] assignment(a0, a1, t, i) is Some implies {
        &&& assignment(a0, a1, t, i)->0 < gs.len()
        &&& member(gs[assignment(a0, a1, t, i)->0 as int], i)
        &&& slot(gs[assignment(a0, a1, t, i)->0 as int].terrain) == t
    } by {
        assert(st.assigned(t, i) == assignment(a0, a1, t, i));
        if o.assigned(t, i) is Some {
            assert(assignment(o.assigned_groups@, o.rail_groups@, t, i) == o.assigned(t, i));
            assert(st.assigned(t, i) == o.assigned(t, i));
            let k = o.assigned(t, i)->0 as int;
            assert(k < cur);
            assert(gs[k] == o.groups@[k]);
        } else {
            assert(st.assigned(t, i) == Some(cur as usize) && t == s);
            assert(st.segment_queue@.len() == 0);
            assert(!st.segment_queue@.contains(i as usize));
            assert(ms.contains(i as usize));
        }
    }
    assert forall|k: int| 0 <= k < gs.len() implies #[trigger] group_ok(b, gs, a0, a1, k) by {
        if k < cur {
            let gk = o.groups@[k];
            assert(gs[k] == gk);
            assert(group_ok(b, o.groups@, o.assigned_groups@, o.rail_groups@, k));
            assert forall|x: int| 0 <= x < gk.segment_indices@.len() implies assignment(
                a0,
                a1,
                slot(gk.terrain),
                #[trigger] gk.segment_indices@[x] as int,
            ) == Some(k as usize) by {
                let m = gk.segment_indices@[x] as int;
                assert(node(b, m, gk.terrain));
                assert(o.assigned(slot(gk.terrain), m) == Some(k as usize));
                assert(st.assigned(slot(gk.terrain), m) == o.assigned(slot(gk.terrain), m));
            }
        } else {
            assert(gs[k] == grp);
            assert forall|x: int| 0 <= x < ms.len() implies {
                &&& node(b, #[trigger] ms[x] as int, g)
                &&& assignment(a0, a1, slot(g), ms[x] as int) == Some(k as usize)
                &&& connected(b, g, ms[0] as int, ms[x] as int)
                &&& connected(b, g, ms[x] as int, ms[0] as int)
            } by {
                assert(ms.contains(ms[x]));
                assert(st.assigned(s, ms[x] as int) == Some(cur as usize));
            }
            assert forall|m: int, j: int| member(grp, m) && #[trigger] links(b, m, j, g) implies member(
                grp,
                j,
            ) by {
                assert(st.assigned(s, j) is Some);
                lemma_links_symmetric(b, m, j, g);
                let k2 = st.assigned(s, j)->0 as int;
                assert(0 <= j < b.segments@.len());
                assert(0 <= s < 2);
                if k2 != cur {
                    assert(o.assigned(s, j) is None ==> st.assigned(s, j) is None || st.assigned(s, j) == Some(cur as usize));
                    assert(o.assigned(s, j) == st.assigned(s, j));
                    assert(assignment(o.assigned_groups@, o.rail_groups@, s, j) is Some);
                    let g2 = o.groups@[k2];
                    assert(member(g2, j));
                    assert(group_ok(b, o.groups@, o.assigned_groups@, o.rail_groups@, k2));
                    let xj = choose|xj: int| 0 <= xj < g2.segment_indices@.len() && g2.segment_indices@[xj] == j as usize;
                    assert(node(b, g2.segment_indices@[xj] as int, g2.terrain));
                    lemma_slot_terrain(b.segments@[j].terrain, g);
                    lemma_slot_terrain(b.segments@[j].terrain, g2.terrain);
                    assert(g2.terrain == g);
                    assert(member(g2, m));
                    let xm = choose|xm: int| 0 <= xm < g2.segment_indices@.len() && g2.segment_indices@[xm] == m as usize;
                    assert(node(b, g2.segment_indices@[xm] as int, g2.terrain));
                    assert(o.assigned(s, m) == Some(k2 as usize));
                    assert(st.assigned(s, m) == Some(k2 as usize));
                    assert(st.assigned(s, m) == Some(cur as usize));
                }
                assert(!st.segment_queue@.contains(j as usize));
            }
        }
    }
}

/// Each step gains only group `cur` in slot `s`, so two steps do too.
proof fn lemma_grow_trans(a: GroupAnalyzer, b: GroupAnalyzer, c: GroupAnalyzer, s: int, cur: int)
    requires
        b.assignments_grow(a, s, cur),
        c.assignments_grow(b, s, cur),
        b.board == a.board,
        c.board == b.board,
    ensures
        c.assignments_grow(a, s, cur),
{
    assert forall|t: int, i: int|
        0 <= t < 2 && 0 <= i < c.board.segments@.len() implies {
            &&& a.assigned(t, i) is Some ==> c.assigned(t, i) == a.assigned(t, i)
            &&& a.assigned(t, i) is None ==> (c.assigned(t, i) is None || (c.assigned(t, i) == Some(
                cur as usize) && t == s))
        } by {
        assert(b.assigned(t, i) == b.assigned(t, i));
        assert(c.assigned(t, i) == c.assigned(t, i));
    }
}

/// The state of one pass of group analysis over a board.
pub struct GroupAnalyzer<'a> {
    board: &'a Board,
    /// Tiles to visit, breadth first; those before `queue_head` are done.
    pos_queue: Vec<Pos>,
    queue_head: usize,
    /// Per cell of the index rectangle, whether its tile was queued.
    discovered_pos: Vec<bool>,
    /// Per cell of the index rectangle, whether it is a possible placement.
    placeable: Vec<bool>,
    /// Segments found for the group being built, still to be expanded.
    segment_queue: Vec<SegmentIndex>,
    pub possible_placements: Vec<Pos>,
    pub groups: Vec<Group>,
    /// Per segment, its group under its own terrain (river for a lake or
    /// a station).
    pub assigned_groups: Vec<Option<GroupIndex>>,
    /// Per segment, its group under rail (for rails and stations).
    pub rail_groups: Vec<Option<GroupIndex>>,
}

impl<'a> GroupAnalyzer<'a> {
    pub closed spec fn assigned(&self, s: int, i: int) -> Option<GroupIndex> {
        assignment(self.assigned_groups@, self.rail_groups@, s, i)
    }

    pub closed spec fn groups_inv(&self) -> bool {
        &&& self.board.wf()
        &&& groups_ok(*self.board, self.groups@, self.assigned_groups@, self.rail_groups@)
    }

    fn get_assigned(&self, s: usize, i: SegmentIndex) -> (r: Option<GroupIndex>)
        requires
            s < 2,
            i < self.assigned_groups@.len(),
            i < self.rail_groups@.len(),
        ensures
            r == self.assigned(s as int, i as int),
    {
        if s == 0 {
            self.assigned_groups[i]
        } else {
            self.rail_groups[i]
        }
    }

    fn set_assigned(&mut self, s: usize, i: SegmentIndex, v: Option<GroupIndex>)
        requires
            s < 2,
            i < old(self).assigned_groups@.len(),
            i < old(self).rail_groups@.len(),
        ensures
            final(self).board == old(self).board,
            final(self).pos_queue == old(self).pos_queue,
            final(self).queue_head == old(self).queue_head,
            final(self).discovered_pos == old(self).discovered_pos,
            final(self).placeable == old(self).placeable,
            final(self).segment_queue == old(self).segment_queue,
            final(self).possible_placements == old(self).possible_placements,
            final(self).groups == old(self).groups,
            final(self).assigned_groups@.len() == old(self).assigned_groups@.len(),
            final(self).rail_groups@.len() == old(self).rail_groups@.len(),
            forall|t: int, j: int|
                #![trigger final(self).assigned(t, j)]
                0 <= t < 2 && 0 <= j < old(self).assigned_groups@.len() && 0 <= j < old(
                    self,
                ).rail_groups@.len() ==> final(self).assigned(t, j) == if t == s && j == i {
                    v
                } else {
                    old(self).assigned(t, j)
                },
    {
        if s == 0 {
            self.assigned_groups.set(i, v);
        } else {
            self.rail_groups.set(i, v);
        }
    }

    /// Whether only the assignment slots and the work list differ from `o`.
    closed spec fn frame(&self, o: GroupAnalyzer) -> bool {
        &&& self.board == o.board
        &&& self.pos_queue == o.pos_queue
        &&& self.queue_head == o.queue_head
        &&& self.discovered_pos == o.discovered_pos
        &&& self.placeable == o.placeable
        &&& self.possible_placements == o.possible_placements
        &&& self.groups == o.groups
        &&& self.assigned_groups@.len() == o.assigned_groups@.len()
        &&& self.rail_groups@.len() == o.rail_groups@.len()
    }

    /// Whether, compared with `o`, segments only gained group `cur` in slot
    /// `s`.
    closed spec fn assignments_grow(&self, o: GroupAnalyzer, s: int, cur: int) -> bool {
        &&& forall|t: int, i: int|
            #![trigger self.assigned(t, i)]
            0 <= t < 2 && 0 <= i < self.board.segments@.len() ==> {
                &&& o.assigned(t, i) is Some ==> self.assigned(t, i) == o.assigned(t, i)
                &&& o.assigned(t, i) is None ==> (self.assigned(t, i) is None || (self.assigned(t, i)
                    == Some(cur as usize) && t == s))
            }
    }

    /// The state of building group `cur` under `g` from `start`: `members`
    /// are expanded, the work list is still to be, `x` is being expanded.
    closed spec fn worklist(
        &self,
        g: Terrain,
        cur: int,
        start: int,
        members: Seq<usize>,
        x: Option<usize>,
    ) -> bool {
        let b = *self.board;
        let wl = self.segment_queue@;
        let s = slot(g);
        &&& b.wf()
        &&& is_group_terrain(g)
        &&& 0 <= start <= usize::MAX
        &&& 0 <= cur <= usize::MAX
        &&& self.assigned_groups@.len() == b.segments@.len()
        &&& self.rail_groups@.len() == b.segments@.len()
        &&& forall|i: int|
            0 <= i < b.segments@.len() ==> (#[trigger] self.assigned(s, i) == Some(cur as usize) <==> (
            members.contains(i as usize) || wl.contains(i as usize) || x == Some(i as usize)))
        &&& members.no_duplicates()
        &&& wl.no_duplicates()
        &&& forall|y: usize| members.contains(y) ==> !wl.contains(y)
        &&& x matches Some(y) ==> !members.contains(y) && !wl.contains(y)
        &&& forall|y: usize|
            #![trigger members.contains(y)]
            #![trigger wl.contains(y)]
            members.contains(y) || wl.contains(y) ==> {
                &&& node(b, y as int, g)
                &&& connected(b, g, start, y as int)
                &&& connected(b, g, y as int, start)
            }
        &&& x matches Some(y) ==> {
            &&& node(b, y as int, g)
            &&& connected(b, g, start, y as int)
            &&& connected(b, g, y as int, start)
        }
        &&& members.len() == 0 && x is None ==> wl == seq![start as usize]
        &&& members.len() == 0 && x is Some ==> x == Some(start as usize)
        &&& members.len() > 0 ==> members[0] == start
        &&& forall|m: int, j: int|
            0 <= m && members.contains(m as usize) && #[trigger] links(b, m, j, g) ==> self.assigned(
                s,
                j,
            ) is Some
    }

    /// Gives segment `j` the group being built and queues it.
    fn enqueue(
        &mut self,
        j: SegmentIndex,
        g: Terrain,
        s: usize,
        cur: GroupIndex,
        Ghost(start): Ghost<int>,
        Ghost(members): Ghost<Seq<usize>>,
        Ghost(x): Ghost<usize>,
    )
        requires
            old(self).worklist(g, cur as int, start, members, Some(x)),
            s == slot(g),
            j < old(self).board.segments@.len(),
            old(self).assigned(s as int, j as int) is None,
            node(*old(self).board, j as int, g),
            connected(*old(self).board, g, start, j as int),
            connected(*old(self).board, g, j as int, start),
        ensures
            final(self).frame(*old(self)),
            final(self).assignments_grow(*old(self), s as int, cur as int),
            final(self).worklist(g, cur as int, start, members, Some(x)),
            final(self).assigned(s as int, j as int) == Some(cur),
    {
        let ghost before = *self;
        self.set_assigned(s, j, Some(cur));
        let ghost mid = *self;
        self.segment_queue.push(j);
        proof {
            assert(self.assigned_groups == mid.assigned_groups);
            assert(self.rail_groups == mid.rail_groups);
            assert forall|t: int, i: int|
                #![trigger self.assigned(t, i)]
                0 <= t < 2 && 0 <= i < self.board.segments@.len() implies self.assigned(t, i) == if t
                    == s && i == j {
                    Some(cur)
                } else {
                    before.assigned(t, i)
                } by {
                assert(mid.assigned(t, i) == self.assigned(t, i));
            }
            lemma_enqueue(before, *self, j, g, s as int, cur, start, members, x);
        }
    }

    /// Queues every segment of the tile across side `r` of segment `x` that
    /// joins the group and has none yet.
    fn expand_side(
        &mut self,
        x: SegmentIndex,
        r: Rotation,
        g: Terrain,
        s: usize,
        cur: GroupIndex,
        Ghost(start): Ghost<int>,
        Ghost(members): Ghost<Seq<usize>>,
    )
        requires
            old(self).worklist(g, cur as int, start, members, Some(x)),
            s == slot(g),
            r < 6,
            old(self).board.segments@[x as int].occupies(r as int),
            old(self).board.has_tile(neighbor(old(self).board.segments@[x as int].pos, r as int)),
        ensures
            final(self).frame(*old(self)),
            final(self).assignments_grow(*old(self), s as int, cur as int),
            final(self).worklist(g, cur as int, start, members, Some(x)),
            forall|j: int| #[trigger]
                links_at(*final(self).board, x as int, r as int, j, g) ==> final(self).assigned(
                    s as int,
                    j,
                ) is Some,
    {
        let ghost b = *self.board;
        let seg = *self.board.segment(x);
        proof {
            assert(node(b, x as int, g));
            assert(b.tile_at(seg.pos) is Some);
        }
        let nb = neighbor_pos_of(seg.pos, r);
        let back = opposite_side(r);
        let (lo, hi) = self.board.segment_indices_at(nb).unwrap();
        let mut j = lo;
        while j < hi
            invariant
                b == *self.board,
                self.frame(*old(self)),
                self.assignments_grow(*old(self), s as int, cur as int),
                self.worklist(g, cur as int, start, members, Some(x)),
                s == slot(g),
                r < 6,
                seg == b.segments@[x as int],
                seg.occupies(r as int),
                nb == neighbor(seg.pos, r as int),
                back == opposite(r as int),
                lo == b.first_segment(nb),
                hi == b.end_segment(nb),
                hi <= b.segments@.len(),
                lo <= j <= hi,
                forall|k: int|
                    lo <= k < j ==> #[trigger] links_at(b, x as int, r as int, k, g) ==> self.assigned(
                        s as int,
                        k,
                    ) is Some,
            decreases hi - j,
        {
            if self.get_assigned(s, j).is_none() {
                let nseg = *self.board.segment(j);
                if nseg.covers(back) && nseg.terrain.extends_group_of(g) {
                    proof {
                        assert(0 <= x < b.segments@.len());
                        assert(b.on_tile(neighbor(b.segments@[x as int].pos, r as int), j as int));
                        assert(b.segments@[j as int].occupies(opposite(r as int)));
                        assert(links_at(b, x as int, r as int, j as int, g));
                        lemma_links_symmetric(b, x as int, j as int, g);
                        lemma_connected_step(b, g, x as int, j as int);
                        lemma_connected_step(b, g, j as int, x as int);
                        lemma_connected_trans(b, g, start, x as int, j as int);
                        lemma_connected_trans(b, g, j as int, x as int, start);
                    }
                    let ghost before = *self;
                    self.enqueue(j, g, s, cur, Ghost(start), Ghost(members), Ghost(x));
                    proof {
                        lemma_grow_trans(*old(self), before, *self, s as int, cur as int);
                    }
                }
            }
            j += 1;
        }
    }

    /// Expands segment `x`: queues what it meets across each side it covers
    /// and records its sides that face cells without a tile.
    fn expand_segment(
        &mut self,
        x: SegmentIndex,
        g: Terrain,
        s: usize,
        cur: GroupIndex,
        Ghost(start): Ghost<int>,
        Ghost(members): Ghost<Seq<usize>>,
        open_edges: &mut Vec<(Pos, Rotation)>,
    )
        requires
            old(self).worklist(g, cur as int, start, members, Some(x)),
            s == slot(g),
            open_edges_exact(*old(self).board, members, old(open_edges)@),
        ensures
            final(self).frame(*old(self)),
            final(self).assignments_grow(*old(self), s as int, cur as int),
            final(self).worklist(g, cur as int, start, members, Some(x)),
            forall|j: int| #[trigger]
                links(*final(self).board, x as int, j, g) ==> final(self).assigned(s as int, j) is Some,
            open_edges_exact(*final(self).board, members.push(x), final(open_edges)@),
    {
        let ghost b = *self.board;
        let seg = *self.board.segment(x);
        proof {
            assert(node(b, x as int, g));
            assert(b.tile_at(seg.pos) is Some);
            assert(b.inner(seg.pos));
            lemma_push_contains(members, x);
        }
        let ghost all = members.push(x);
        proof {
            let op = open_edges@;
            assert forall|e: int| 0 <= e < op.len() implies #[trigger] is_open_edge(b, all, op[e].0, op[e].1 as int) by {
                assert(is_open_edge(b, members, op[e].0, op[e].1 as int));
                let w = choose|w: int|
                    0 <= w < members.len() && b.segments@[members[w] as int].occupies(op[e].1 as int)
                        && op[e].0 == neighbor(b.segments@[members[w] as int].pos, op[e].1 as int)
                        && !b.has_tile(op[e].0);
                assert(all[w] == members[w]);
            }
        }
        let mut r: usize = 0;
        while r < 6
            invariant
                b == *self.board,
                self.frame(*old(self)),
                self.assignments_grow(*old(self), s as int, cur as int),
                self.worklist(g, cur as int, start, members, Some(x)),
                s == slot(g),
                seg == b.segments@[x as int],
                neighbors_fit(seg.pos),
                all == members.push(x),
                r <= 6,
                forall|r2: int, j: int|
                    0 <= r2 < r && #[trigger] links_at(b, x as int, r2, j, g) ==> self.assigned(
                        s as int,
                        j,
                    ) is Some,
                forall|e: int|
                    0 <= e < open_edges@.len() ==> #[trigger] is_open_edge(
                        b,
                        all,
                        open_edges@[e].0,
                        open_edges@[e].1 as int,
                    ),
                forall|i: int|
                    0 <= i < members.len() ==> #[trigger] edges_recorded(b, open_edges@, members[i] as int),
                forall|r2: int|
                    0 <= r2 < r && #[trigger] seg.occupies(r2) && !b.has_tile(neighbor(seg.pos, r2))
                        ==> open_edges@.contains((neighbor(seg.pos, r2), r2 as usize)),
            decreases 6 - r,
        {
            if seg.covers(r) {
                let nb = neighbor_pos_of(seg.pos, r);
                if self.board.has(nb) {
                    let ghost before = *self;
                    self.expand_side(x, r, g, s, cur, Ghost(start), Ghost(members));
                    proof {
                        lemma_grow_trans(*old(self), before, *self, s as int, cur as int);
                    }
                } else {
                    let ghost prev = open_edges@;
                    open_edges.push((nb, r));
                    proof {
                        lemma_push_contains(prev, (nb, r));
                        assert(all[all.len() - 1] == x);
                        assert(is_open_edge(b, all, nb, r as int));
                        assert forall|e: int|
                            0 <= e < open_edges@.len() implies #[trigger] is_open_edge(
                            b,
                            all,
                            open_edges@[e].0,
                            open_edges@[e].1 as int,
                        ) by {
                            if e < prev.len() {
                                assert(open_edges@[e] == prev[e]);
                            }
                        }
                        assert forall|i: int|
                            0 <= i < members.len() implies #[trigger] edges_recorded(
                            b,
                            open_edges@,
                            members[i] as int,
                        ) by {
                            assert(edges_recorded(b, prev, members[i] as int));
                        }
                    }
                }
            }
            r += 1;
        }
        proof {
            assert forall|j: int| #[trigger] links(b, x as int, j, g) implies self.assigned(s as int, j) is Some by {
                let r2 = choose|r2: int| links_at(b, x as int, r2, j, g);
            }
            assert forall|i: int| 0 <= i < all.len() implies #[trigger] edges_recorded(b, open_edges@, all[i] as int) by {
                if i < members.len() {
                    assert(all[i] == members[i]);
                } else {
                    assert(all[i] == x);
                }
            }
        }
    }

    /// Builds the group under terrain `g` that segment `start` belongs to.
    fn discover_group(&mut self, start: SegmentIndex, g: Terrain)
        requires
            old(self).groups_inv(),
            old(self).segment_queue@.len() == 0,
            node(*old(self).board, start as int, g),
            old(self).assigned(slot(g), start as int) is None,
        ensures
            final(self).groups_inv(),
            final(self).segment_queue@.len() == 0,
            final(self).board == old(self).board,
            final(self).pos_queue == old(self).pos_queue,
            final(self).queue_head == old(self).queue_head,
            final(self).discovered_pos == old(self).discovered_pos,
            final(self).placeable == old(self).placeable,
            final(self).possible_placements == old(self).possible_placements,
            forall|t: int, i: int|
                #![trigger final(self).assigned(t, i)]
                0 <= t < 2 && 0 <= i < old(self).board.segments@.len() && old(self).assigned(t, i) is Some
                    ==> final(self).assigned(t, i) == old(self).assigned(t, i),
            final(self).assigned(slot(g), start as int) is Some,
            final(self).groups@.len() == old(self).groups@.len() + 1,
            forall|k: int| 0 <= k < old(self).groups@.len() ==> #[trigger] final(self).groups@[k] == old(self).groups@[k],
            final(self).groups@[old(self).groups@.len() as int].segment_indices@[0] == start,
    {
        let ghost b = *self.board;
        let cur = self.groups.len();
        let s: usize = match g {
            Terrain::Rail => 1,
            _ => 0,
        };
        let mut members: Vec<SegmentIndex> = Vec::new();
        let mut open_edges: Vec<(Pos, Rotation)> = Vec::new();
        proof {
            lemma_connected_refl(b, g, start as int);
        }
        self.set_assigned(s, start, Some(cur));
        let ghost mid = *self;
        self.segment_queue.push(start);
        proof {
            assert(self.assigned_groups == mid.assigned_groups);
            assert(self.rail_groups == mid.rail_groups);
            let wl = self.segment_queue@;
            assert(wl == seq![start]);
            assert(wl.contains(start)) by {
                assert(wl[0] == start);
            }
            assert forall|y: usize| wl.contains(y) implies y == start by {
                let q = choose|q: int| 0 <= q < wl.len() && wl[q] == y;
            }
            assert forall|i: int|
                0 <= i < b.segments@.len() implies (#[trigger] self.assigned(s as int, i) == Some(cur)
                <==> (members@.contains(i as usize) || wl.contains(i as usize) || None::<usize> == Some(
                i as usize))) by {
                assert(mid.assigned(s as int, i) == self.assigned(s as int, i));
                if i != start {
                    assert(assignment(old(self).assigned_groups@, old(self).rail_groups@, s as int, i) == old(self).assigned(s as int, i));
                    assert(old(self).assigned(s as int, i) is Some ==> old(self).assigned(s as int, i)->0 < cur);
                }
            }
            assert(self.worklist(g, cur as int, start as int, members@, None));
            assert forall|t: int, i: int|
                #![trigger self.assigned(t, i)]
                0 <= t < 2 && 0 <= i < self.board.segments@.len() implies {
                    &&& old(self).assigned(t, i) is Some ==> self.assigned(t, i) == old(self).assigned(t, i)
                    &&& old(self).assigned(t, i) is None ==> (self.assigned(t, i) is None || (self.assigned(t, i)
                        == Some(cur) && t == s))
                } by {
                assert(mid.assigned(t, i) == self.assigned(t, i));
            }
        }
        while self.segment_queue.len() > 0
            invariant
                b == *self.board,
                self.frame(*old(self)),
                self.assignments_grow(*old(self), s as int, cur as int),
                self.worklist(g, cur as int, start as int, members@, None),
                open_edges_exact(b, members@, open_edges@),
                s == slot(g),
                cur == old(self).groups@.len(),
                node(b, start as int, g),
                self.assigned(s as int, start as int) is Some,
            decreases b.segments@.len() - members@.len(),
        {
            let ghost before = *self;
            let x = self.segment_queue.pop().unwrap();
            proof {
                lemma_pop(before, *self, g, cur as int, start as int, members@);
            }
            let ghost mid = *self;
            self.expand_segment(x, g, s, cur, Ghost(start as int), Ghost(members@), &mut open_edges);
            proof {
                assert(mid.assigned_groups == before.assigned_groups);
                assert(mid.rail_groups == before.rail_groups);
                assert(self.assigned(s as int, start as int) == mid.assigned(s as int, start as int));
                assert(self.assignments_grow(before, s as int, cur as int));
                lemma_grow_trans(*old(self), before, *self, s as int, cur as int);
                lemma_member_done(*self, g, cur as int, start as int, members@, x);
            }
            members.push(x);
        }
        let group = Group { terrain: g, segment_indices: members, open_edges };
        proof {
            lemma_close_group(*old(self), *self, group, g, start as int);
        }
        let ghost last = *self;
        self.groups.push(group);
        proof {
            assert(self.assigned_groups == last.assigned_groups);
            assert(self.rail_groups == last.rail_groups);
            assert forall|t: int, i: int|
                #![trigger self.assigned(t, i)]
                0 <= t < 2 && 0 <= i < old(self).board.segments@.len() && old(self).assigned(t, i) is Some
                    implies self.assigned(t, i) == old(self).assigned(t, i) by {
                assert(last.assigned(t, i) == self.assigned(t, i));
            }
        }
    }

    /// The board being analysed.
    pub closed spec fn board_view(&self) -> Board {
        *self.board
    }

    /// Whether no tile has been visited yet.
    pub closed spec fn fresh(&self) -> bool {
        self.queue_head == 0
    }

    /// Whether every queued tile has been visited.
    pub closed spec fn finished(&self) -> bool {
        &&& self.queue_head == self.pos_queue@.len()
        &&& self.neighbors_done(self.pos_queue@.len() as int)
        &&& self.segments_done(self.pos_queue@.len() as int)
    }

    /// The invariant of the breadth-first search over tiles.
    pub closed spec fn search_inv(&self) -> bool {
        let b = *self.board;
        let q = self.pos_queue@;
        let pp = self.possible_placements@;
        &&& self.groups_inv()
        &&& self.segment_queue@.len() == 0
        &&& self.discovered_pos@.len() == b.tile_index@.len()
        &&& self.placeable@.len() == b.tile_index@.len()
        &&& 1 <= q.len() <= b.tile_index@.len()
        &&& q[0] == origin()
        &&& self.queue_head <= q.len()
        &&& q.no_duplicates()
        &&& forall|k: int| 0 <= k < q.len() ==> b.has_tile(#[trigger] q[k]) && reachable(b, q[k])
        &&& forall|p: Pos| #[trigger]
            b.in_rect(p) ==> (self.discovered_pos@[b.key_of(p)] <==> q.contains(p)) && (
            self.placeable@[b.key_of(p)] <==> pp.contains(p))
        &&& forall|e: int|
            0 <= e < pp.len() ==> b.in_rect(#[trigger] pp[e]) && !b.has_tile(pp[e]) && exists|t: Pos|
                reachable(b, t) && #[trigger] adjacent(t, pp[e])
        &&& pp.no_duplicates()
        &&& forall|k: int|
            0 <= k < self.groups@.len() ==> reachable(
                b,
                b.segments@[#[trigger] self.groups@[k].segment_indices@[0] as int].pos,
            )
    }

    /// Whether the tiles before `head` in the queue are fully handled:
    /// their neighbours are queued or recorded as placements.
    pub closed spec fn neighbors_done(&self, head: int) -> bool {
        let b = *self.board;
        forall|k: int, r: int|
            #![trigger self.pos_queue@[k], neighbor(self.pos_queue@[k], r)]
            0 <= k < head && 0 <= r < 6 ==> {
                &&& b.has_tile(neighbor(self.pos_queue@[k], r)) ==> self.pos_queue@.contains(
                    neighbor(self.pos_queue@[k], r),
                )
                &&& !b.has_tile(neighbor(self.pos_queue@[k], r)) ==> self.possible_placements@.contains(
                    neighbor(self.pos_queue@[k], r),
                )
            }
    }

    /// Whether every segment on the tiles before `head` in the queue has
    /// its groups.
    pub closed spec fn segments_done(&self, head: int) -> bool {
        let b = *self.board;
        forall|k: int, i: int, t: int|
            #![trigger self.pos_queue@[k], self.assigned(t, i)]
            0 <= k < head && b.on_tile(self.pos_queue@[k], i) && 0 <= t < 2 && slot_terrain(
                b.segments@[i].terrain,
                t,
            ) is Some ==> self.assigned(t, i) is Some
    }

    /// Queues `pos` when a tile lies there and it is new, or records it as a
    /// possible placement. Returns whether a tile lies there.
    fn handle_new_pos(&mut self, pos: Pos, Ghost(from): Ghost<Pos>) -> (r: bool)
        requires
            old(self).search_inv(),
            reachable(*old(self).board, from),
            adjacent(from, pos),
            old(self).board.in_rect(pos),
        ensures
            final(self).search_inv(),
            r == final(self).board.has_tile(pos),
            r ==> final(self).pos_queue@.contains(pos),
            !r ==> final(self).possible_placements@.contains(pos),
            final(self).board == old(self).board,
            final(self).queue_head == old(self).queue_head,
            final(self).groups == old(self).groups,
            final(self).assigned_groups == old(self).assigned_groups,
            final(self).rail_groups == old(self).rail_groups,
            final(self).segment_queue == old(self).segment_queue,
            old(self).pos_queue@.len() <= final(self).pos_queue@.len(),
            forall|k: int| 0 <= k < old(self).pos_queue@.len() ==> #[trigger] final(self).pos_queue@[k] == old(self).pos_queue@[k],
            forall|p: Pos| #[trigger] old(self).pos_queue@.contains(p) ==> final(self).pos_queue@.contains(p),
            forall|p: Pos| #[trigger] old(self).possible_placements@.contains(p) ==> final(self).possible_placements@.contains(p),
    {
        let ghost b = *self.board;
        let key = self.board.tile_key(pos).unwrap();
        proof {
            b.lemma_key(pos, pos);
        }
        if self.discovered_pos[key] {
            return true;
        }
        if self.board.has(pos) {
            let ghost q0 = self.pos_queue@;
            proof {
                lemma_push_contains(q0, pos);
                assert(!q0.contains(pos));
                let w = choose|w: Seq<Pos>| is_walk(b, w) && w.last() == from;
                lemma_walk_push(b, w, pos);
            }
            self.pos_queue.push(pos);
            self.discovered_pos.set(key, true);
            proof {
                let q = self.pos_queue@;
                assert forall|p: Pos| #[trigger] b.in_rect(p) implies (self.discovered_pos@[b.key_of(p)] <==> q.contains(p)) by {
                    b.lemma_key(p, pos);
                }
                assert forall|k: int| 0 <= k < q.len() implies b.has_tile(#[trigger] q[k]) && reachable(b, q[k]) by {
                    if k < q0.len() {
                        assert(q[k] == q0[k]);
                    }
                }
                lemma_positions_fit(b, q);
            }
            true
        } else {
            if !self.placeable[key] {
                let ghost pp0 = self.possible_placements@;
                proof {
                    lemma_push_contains(pp0, pos);
                }
                proof {
                    assert(!pp0.contains(pos));
                }
                self.possible_placements.push(pos);
                self.placeable.set(key, true);
                proof {
                    let pp = self.possible_placements@;
                    assert forall|p: Pos| #[trigger] b.in_rect(p) implies (self.placeable@[b.key_of(p)] <==> pp.contains(p)) by {
                        b.lemma_key(p, pos);
                    }
                    assert forall|e: int|
                        0 <= e < pp.len() implies b.in_rect(#[trigger] pp[e]) && !b.has_tile(pp[e]) && exists|t: Pos|
                            reachable(b, t) && #[trigger] adjacent(t, pp[e]) by {
                        if e < pp0.len() {
                            assert(pp[e] == pp0[e]);
                        } else {
                            assert(adjacent(from, pp[e]));
                        }
                    }
                }
            }
            false
        }
    }

    /// Visits every tile reachable from the origin, breadth first: queues
    /// new tiles, records the empty cells next to them, and builds the groups
    /// of their segments.
    pub fn run(&mut self)
        requires
            old(self).search_inv(),
            old(self).fresh(),
        ensures
            final(self).search_inv(),
            final(self).board_view() == old(self).board_view(),
            final(self).finished(),
    {
        let ghost b = *self.board;
        while self.queue_head < self.pos_queue.len()
            invariant
                b == *self.board,
                self.search_inv(),
                self.neighbors_done(self.queue_head as int),
                self.segments_done(self.queue_head as int),
            decreases b.tile_index@.len() - self.queue_head,
        {
            let head = self.queue_head;
            let pos = self.pos_queue[head];
            proof {
                assert(b.has_tile(pos) && reachable(b, pos));
                assert(b.inner(pos));
            }
            let mut r: usize = 0;
            while r < 6
                invariant
                    b == *self.board,
                    self.search_inv(),
                    self.queue_head == head,
                    head < self.pos_queue@.len(),
                    self.pos_queue@[head as int] == pos,
                    b.has_tile(pos),
                    reachable(b, pos),
                    neighbors_fit(pos),
                    r <= 6,
                    self.neighbors_done(head as int),
                    self.segments_done(head as int),
                    forall|r2: int|
                        0 <= r2 < r ==> {
                            &&& b.has_tile(#[trigger] neighbor(pos, r2)) ==> self.pos_queue@.contains(neighbor(pos, r2))
                            &&& !b.has_tile(neighbor(pos, r2)) ==> self.possible_placements@.contains(neighbor(pos, r2))
                        },
                decreases 6 - r,
            {
                let nb = neighbor_pos_of(pos, r);
                proof {
                    b.lemma_neighbor_in_rect(pos, r as int);
                    assert(adjacent(pos, nb));
                }
                let ghost before = *self;
                self.handle_new_pos(nb, Ghost(pos));
                proof {
                    self.lemma_done_grows(before, head as int);
                    assert forall|r2: int|
                        0 <= r2 < r + 1 implies {
                            &&& b.has_tile(#[trigger] neighbor(pos, r2)) ==> self.pos_queue@.contains(neighbor(pos, r2))
                            &&& !b.has_tile(neighbor(pos, r2)) ==> self.possible_placements@.contains(neighbor(pos, r2))
                        } by {
                        if r2 < r {
                            assert(before.pos_queue@.contains(neighbor(pos, r2)) ==> self.pos_queue@.contains(neighbor(pos, r2)));
                            assert(before.possible_placements@.contains(neighbor(pos, r2)) ==> self.possible_placements@.contains(neighbor(pos, r2)));
                        }
                    }
                }
                r += 1;
            }
            let (lo, hi) = self.board.segment_indices_at(pos).unwrap();
            let mut i = lo;
            while i < hi
                invariant
                    b == *self.board,
                    self.search_inv(),
                    self.queue_head == head,
                    head < self.pos_queue@.len(),
                    self.pos_queue@[head as int] == pos,
                    b.has_tile(pos),
                    reachable(b, pos),
                    lo == b.first_segment(pos),
                    hi == b.end_segment(pos),
                    lo <= i <= hi,
                    self.neighbors_done(head as int + 1),
                    self.segments_done(head as int),
                    forall|i2: int, t: int|
                        #![trigger self.assigned(t, i2)]
                        lo <= i2 < i && 0 <= t < 2 && slot_terrain(b.segments@[i2].terrain, t) is Some ==> self.assigned(t, i2) is Some,
                decreases hi - i,
            {
                let terrain = self.board.segment(i).terrain;
                proof {
                    assert(b.tile_segments(pos)[i - lo] == b.segments@[i as int]);
                    assert(b.segments@[i as int].pos == pos);
                }
                let mut t: usize = 0;
                while t < 2
                    invariant
                        b == *self.board,
                        self.search_inv(),
                        self.queue_head == head,
                        head < self.pos_queue@.len(),
                        self.pos_queue@[head as int] == pos,
                        b.segments@[i as int].pos == pos,
                        b.segments@[i as int].terrain == terrain,
                        reachable(b, pos),
                        lo == b.first_segment(pos),
                        hi == b.end_segment(pos),
                        lo <= i < hi,
                        t <= 2,
                        self.neighbors_done(head as int + 1),
                        self.segments_done(head as int),
                        forall|i2: int, t2: int|
                            #![trigger self.assigned(t2, i2)]
                            lo <= i2 < i && 0 <= t2 < 2 && slot_terrain(b.segments@[i2].terrain, t2) is Some ==> self.assigned(t2, i2) is Some,
                        forall|t2: int|
                            #![trigger self.assigned(t2, i as int)]
                            0 <= t2 < t && slot_terrain(terrain, t2) is Some ==> self.assigned(t2, i as int) is Some,
                    decreases 2 - t,
                {
                    match slot_terrain_of(terrain, t) {
                        Some(g) => {
                            if self.get_assigned(t, i).is_none() {
                                proof {
                                    lemma_slot_terrain(terrain, g);
                                    assert(node(b, i as int, g));
                                }
                                let ghost before = *self;
                                self.discover_group(i, g);
                                proof {
                                    self.lemma_groups_grow(before, head as int);
                                    assert forall|k: int|
                                        0 <= k < self.groups@.len() implies reachable(
                                            b,
                                            b.segments@[#[trigger] self.groups@[k].segment_indices@[0] as int].pos,
                                        ) by {
                                        if k < before.groups@.len() {
                                            assert(self.groups@[k] == before.groups@[k]);
                                        }
                                    }
                                }
                            }
                        },
                        None => {},
                    }
                    t += 1;
                }
                i += 1;
            }
            let ghost pre = *self;
            self.queue_head = head + 1;
            proof {
                assert(self.pos_queue == pre.pos_queue);
                assert(self.assigned_groups == pre.assigned_groups);
                assert(self.rail_groups == pre.rail_groups);
                assert forall|k: int, i2: int, t: int|
                    #![trigger self.pos_queue@[k], self.assigned(t, i2)]
                    0 <= k < head + 1 && b.on_tile(self.pos_queue@[k], i2) && 0 <= t < 2 && slot_terrain(
                        b.segments@[i2].terrain,
                        t,
                    ) is Some implies self.assigned(t, i2) is Some by {
                    assert(self.assigned(t, i2) == pre.assigned(t, i2));
                    assert(self.pos_queue@[k] == pre.pos_queue@[k]);
                    if k == head {
                        assert(self.pos_queue@[k] == pos);
                        assert(b.tile_at(pos) is Some);
                    }
                }
                assert forall|k: int, r: int|
                    #![trigger self.pos_queue@[k], neighbor(self.pos_queue@[k], r)]
                    0 <= k < head + 1 && 0 <= r < 6 implies {
                        &&& b.has_tile(neighbor(self.pos_queue@[k], r)) ==> self.pos_queue@.contains(
                            neighbor(self.pos_queue@[k], r),
                        )
                        &&& !b.has_tile(neighbor(self.pos_queue@[k], r)) ==> self.possible_placements@.contains(
                            neighbor(self.pos_queue@[k], r),
                        )
                    } by {
                    assert(self.pos_queue@[k] == pre.pos_queue@[k]);
                    assert(neighbor(pre.pos_queue@[k], r) == neighbor(self.pos_queue@[k], r));
                }
                lemma_positions_fit(b, self.pos_queue@);
            }
        }
    }

    /// A fresh analysis of `board`, about to start at the origin.
    pub fn new(board: &'a Board) -> (r: GroupAnalyzer<'a>)
        requires
            board.wf(),
        ensures
            r.search_inv(),
            r.fresh(),
            r.board_view() == *board,
    {
        let n = board.tile_index.len();
        let mut discovered_pos: Vec<bool> = Vec::new();
        let mut placeable: Vec<bool> = Vec::new();
        let mut c: usize = 0;
        while c < n
            invariant
                c <= n,
                discovered_pos@.len() == c,
                placeable@.len() == c,
                forall|q: int| 0 <= q < c ==> !discovered_pos@[q] && !placeable@[q],
            decreases n - c,
        {
            discovered_pos.push(false);
            placeable.push(false);
            c += 1;
        }
        let m = board.segments.len();
        let mut assigned_groups: Vec<Option<GroupIndex>> = Vec::new();
        let mut rail_groups: Vec<Option<GroupIndex>> = Vec::new();
        let mut c: usize = 0;
        while c < m
            invariant
                c <= m,
                assigned_groups@.len() == c,
                rail_groups@.len() == c,
                forall|q: int| 0 <= q < c ==> assigned_groups@[q] is None && rail_groups@[q] is None,
            decreases m - c,
        {
            assigned_groups.push(None);
            rail_groups.push(None);
            c += 1;
        }
        let origin_pos = Pos::new(0, 0);
        let key = board.tile_key(origin_pos).unwrap();
        discovered_pos.set(key, true);
        let mut pos_queue: Vec<Pos> = Vec::new();
        pos_queue.push(origin_pos);
        let r = GroupAnalyzer {
            board,
            pos_queue,
            queue_head: 0,
            discovered_pos,
            placeable,
            segment_queue: Vec::new(),
            possible_placements: Vec::new(),
            groups: Vec::new(),
            assigned_groups,
            rail_groups,
        };
        proof {
            let b = *board;
            let w = seq![origin()];
            assert(w.len() == 1 && w[0] == origin() && w.last() == origin());
            assert(is_walk(b, w));
            assert(reachable(b, origin()));
            assert(r.pos_queue@ == seq![origin()]);
            assert forall|p: Pos| #[trigger] b.in_rect(p) implies (r.discovered_pos@[b.key_of(p)] <==> r.pos_queue@.contains(p)) && (
                r.placeable@[b.key_of(p)] <==> r.possible_placements@.contains(p)) by {
                b.lemma_key(p, origin());
                if r.pos_queue@.contains(p) {
                    let q = choose|q: int| 0 <= q < r.pos_queue@.len() && r.pos_queue@[q] == p;
                }
                if p == origin() {
                    assert(r.pos_queue@[0] == p);
                }
            }
            assert(r.groups_inv()) by {
                assert forall|t: int, i: int|
                    0 <= t < 2 && 0 <= i < b.segments@.len() implies !(#[trigger] assignment(r.assigned_groups@, r.rail_groups@, t, i) is Some) by {
                }
            }
            assert(b.in_rect(origin()));
            b.lemma_key(origin(), origin());
            assert(1 <= b.tile_index@.len());
        }
        r
    }

    /// The result of a finished search: a complete analysis of the board.
    pub fn into_assignments(self) -> (r: GroupAssignments)
        requires
            self.search_inv(),
            self.finished(),
        ensures
            r.valid_for(self.board_view()),
    {
        // A vector's length fits a `usize`; the contract states it of the groups.
        let group_count = self.groups.len();
        proof {
            assert(self.groups@.len() == group_count);
            self.lemma_result();
        }
        GroupAssignments {
            possible_placements: self.possible_placements,
            groups: self.groups,
            assigned_groups: self.assigned_groups,
            rail_groups: self.rail_groups,
        }
    }

    /// Once the search is finished, the state is a complete analysis.
    proof fn lemma_result(&self)
        requires
            self.search_inv(),
            self.finished(),
            self.groups@.len() <= usize::MAX,
        ensures
            (GroupAssignments {
                possible_placements: self.possible_placements,
                groups: self.groups,
                assigned_groups: self.assigned_groups,
                rail_groups: self.rail_groups,
            }).valid_for(*self.board),
    {
        let b = *self.board;
        let q = self.pos_queue@;
        let pp = self.possible_placements@;
        assert forall|p: Pos| #[trigger] pp.contains(p) <==> frontier(b, p) by {
            if pp.contains(p) {
                let e = choose|e: int| 0 <= e < pp.len() && pp[e] == p;
                assert(b.in_rect(pp[e]) && !b.has_tile(pp[e]));
            }
            if frontier(b, p) {
                let t = choose|t: Pos| reachable(b, t) && #[trigger] adjacent(t, p);
                self.lemma_reachable_queued(t);
                let k = choose|k: int| 0 <= k < q.len() && q[k] == t;
                let r = choose|r: int| 0 <= r < 6 && neighbor(t, r) == p;
                assert(neighbor(q[k], r) == p);
            }
        }
        assert forall|p: Pos, i: int, g: Terrain|
            reachable(b, p) && #[trigger] b.on_tile(p, i) && #[trigger] qualifies(b.segments@[i].terrain, g)
                implies assignment(self.assigned_groups@, self.rail_groups@, slot(g), i) is Some by {
            self.lemma_reachable_queued(p);
            let k = choose|k: int| 0 <= k < q.len() && q[k] == p;
            lemma_slot_terrain(b.segments@[i].terrain, g);
            assert(self.assigned(slot(g), i) is Some);
        }
    }

    /// Every tile reachable from the origin was queued.
    proof fn lemma_reachable_queued(&self, p: Pos)
        requires
            self.search_inv(),
            self.finished(),
            reachable(*self.board, p),
        ensures
            self.pos_queue@.contains(p),
    {
        let w = choose|w: Seq<Pos>| is_walk(*self.board, w) && w.last() == p;
        self.lemma_walk_queued(w);
    }

    proof fn lemma_walk_queued(&self, w: Seq<Pos>)
        requires
            self.search_inv(),
            self.finished(),
            is_walk(*self.board, w),
        ensures
            self.pos_queue@.contains(w.last()),
        decreases w.len(),
    {
        let b = *self.board;
        let q = self.pos_queue@;
        if w.len() == 1 {
            assert(q[0] == w.last());
        } else {
            let front = w.drop_last();
            assert(is_walk(b, front)) by {
                assert forall|k: int| 0 <= k < front.len() implies b.has_tile(#[trigger] front[k]) by {
                    assert(front[k] == w[k]);
                }
                assert forall|k: int| 0 <= k < front.len() - 1 implies #[trigger] adjacent(front[k], front[k + 1]) by {
                    assert(front[k] == w[k] && front[k + 1] == w[k + 1]);
                    assert(adjacent(w[k], w[k + 1]));
                }
            }
            self.lemma_walk_queued(front);
            let k = choose|k: int| 0 <= k < q.len() && q[k] == front.last();
            let k1 = w.len() - 2;
            assert(front.last() == w[k1] && w.last() == w[k1 + 1]);
            assert(adjacent(w[k1], w[k1 + 1]));
            let r = choose|r: int| 0 <= r < 6 && neighbor(w[k1], r) == w[k1 + 1];
            assert(neighbor(q[k], r) == w.last());
            assert(b.has_tile(w[w.len() - 1]));
        }
    }

    /// Handling a cell keeps what was done before.
    proof fn lemma_done_grows(&self, before: GroupAnalyzer, head: int)
        requires
            before.neighbors_done(head),
            before.segments_done(head),
            self.board == before.board,
            self.assigned_groups == before.assigned_groups,
            self.rail_groups == before.rail_groups,
            before.pos_queue@.len() <= self.pos_queue@.len(),
            head <= before.pos_queue@.len(),
            forall|k: int| 0 <= k < before.pos_queue@.len() ==> #[trigger] self.pos_queue@[k] == before.pos_queue@[k],
            forall|p: Pos| #[trigger] before.pos_queue@.contains(p) ==> self.pos_queue@.contains(p),
            forall|p: Pos| #[trigger] before.possible_placements@.contains(p) ==> self.possible_placements@.contains(p),
        ensures
            self.neighbors_done(head),
            self.segments_done(head),
    {
        assert forall|k: int, r: int|
            #![trigger self.pos_queue@[k], neighbor(self.pos_queue@[k], r)]
            0 <= k < head && 0 <= r < 6 implies {
                &&& self.board.has_tile(neighbor(self.pos_queue@[k], r)) ==> self.pos_queue@.contains(
                    neighbor(self.pos_queue@[k], r),
                )
                &&& !self.board.has_tile(neighbor(self.pos_queue@[k], r)) ==> self.possible_placements@.contains(
                    neighbor(self.pos_queue@[k], r),
                )
            } by {
            assert(self.pos_queue@[k] == before.pos_queue@[k]);
            assert(neighbor(before.pos_queue@[k], r) == neighbor(self.pos_queue@[k], r));
        }
        assert forall|k: int, i: int, t: int|
            #![trigger self.pos_queue@[k], self.assigned(t, i)]
            0 <= k < head && self.board.on_tile(self.pos_queue@[k], i) && 0 <= t < 2 && slot_terrain(
                self.board.segments@[i].terrain,
                t,
            ) is Some implies self.assigned(t, i) is Some by {
            assert(self.pos_queue@[k] == before.pos_queue@[k]);
            assert(before.assigned(t, i) == self.assigned(t, i));
        }
    }

    /// Building a group keeps what was done before.
    proof fn lemma_groups_grow(&self, before: GroupAnalyzer, head: int)
        requires
            self.board.wf(),
            before.neighbors_done(head),
            before.segments_done(head),
            self.board == before.board,
            self.pos_queue == before.pos_queue,
            self.possible_placements == before.possible_placements,
            forall|t: int, i: int|
                #![trigger self.assigned(t, i)]
                0 <= t < 2 && 0 <= i < before.board.segments@.len() && before.assigned(t, i) is Some
                    ==> self.assigned(t, i) == before.assigned(t, i),
        ensures
            self.neighbors_done(head),
            self.segments_done(head),
    {
        assert forall|k: int, i: int, t: int|
            #![trigger self.pos_queue@[k], self.assigned(t, i)]
            0 <= k < head && self.board.on_tile(self.pos_queue@[k], i) && 0 <= t < 2 && slot_terrain(
                self.board.segments@[i].terrain,
                t,
            ) is Some implies self.assigned(t, i) is Some by {
            assert(self.pos_queue@[k] == before.pos_queue@[k]);
            assert(self.board.tile_at(self.pos_queue@[k]) is Some);
            assert(before.assigned(t, i) is Some);
        }
        assert forall|k: int, r: int|
            #![trigger self.pos_queue@[k], neighbor(self.pos_queue@[k], r)]
            0 <= k < head && 0 <= r < 6 implies {
                &&& self.board.has_tile(neighbor(self.pos_queue@[k], r)) ==> self.pos_queue@.contains(
                    neighbor(self.pos_queue@[k], r),
                )
                &&& !self.board.has_tile(neighbor(self.pos_queue@[k], r)) ==> self.possible_placements@.contains(
                    neighbor(self.pos_queue@[k], r),
                )
            } by {
            assert(self.pos_queue@[k] == before.pos_queue@[k]);
            assert(neighbor(before.pos_queue@[k], r) == neighbor(self.pos_queue@[k], r));
        }
    }
}

/// A queue of distinct cells of a board's rectangle is no longer than the
/// rectangle has cells.
proof fn lemma_positions_fit(b: Board, q: Seq<Pos>)
    requires
        b.rect_wf(),
        q.no_duplicates(),
        forall|k: int| 0 <= k < q.len() ==> b.in_rect(#[trigger] q[k]),
        b.tile_index@.len() <= usize::MAX,
    ensures
        q.len() <= b.tile_index@.len(),
{
    let keys = q.map_values(|p: Pos| b.key_of(p) as usize);
    assert forall|i: int| 0 <= i < keys.len() implies #[trigger] keys[i] < b.tile_index@.len() by {
        b.lemma_key(q[i], q[i]);
    }
    assert(keys.no_duplicates()) by {
        assert forall|i: int, j: int| 0 <= i < j < keys.len() implies keys[i] != keys[j] by {
            b.lemma_key(q[i], q[j]);
            b.lemma_key(q[j], q[i]);
        }
    }
    lemma_distinct_below(keys, b.tile_index@.len() as usize);
}

/// The terrain a segment of terrain `t` is grouped under first: river for a
/// lake or a station, its own terrain otherwise.
pub open spec fn own_group_terrain(t: Terrain) -> Terrain {
    if is_waterlike(t) {
        Terrain::River
    } else {
        t
    }
}

/// Whether `p` is a cell without a tile next to a tile reachable from the
/// origin: a place where the next tile could go.
pub open spec fn frontier(b: Board, p: Pos) -> bool {
    !b.has_tile(p) && exists|q: Pos| reachable(b, q) && #[trigger] adjacent(q, p)
}

/// The result of group analysis on a board.
pub struct GroupAssignments {
    /// Cells without a tile next to a reachable tile, each once.
    pub possible_placements: Vec<Pos>,
    /// The groups, in the order they were found.
    pub groups: Vec<Group>,
    /// Per segment, its group under its own terrain (river for a lake or a
    /// station).
    pub assigned_groups: Vec<Option<GroupIndex>>,
    /// Per segment, its group under rail (for rails and stations).
    pub rail_groups: Vec<Option<GroupIndex>>,
}

impl GroupAssignments {
    /// Whether this is a complete analysis of board `b`: valid groups, a
    /// group for each segment of a reachable tile under each terrain it is
    /// grouped under, and exactly the frontier as possible placements.
    pub open spec fn valid_for(&self, b: Board) -> bool {
        &&& groups_ok(b, self.groups@, self.assigned_groups@, self.rail_groups@)
        &&& self.groups@.len() <= usize::MAX
        &&& forall|k: int|
            0 <= k < self.groups@.len() ==> reachable(
                b,
                b.segments@[#[trigger] self.groups@[k].segment_indices@[0] as int].pos,
            )
        &&& forall|p: Pos| #[trigger] self.possible_placements@.contains(p) <==> frontier(b, p)
        &&& self.possible_placements@.no_duplicates()
        &&& forall|p: Pos, i: int, g: Terrain|
            reachable(b, p) && #[trigger] b.on_tile(p, i) && #[trigger] qualifies(b.segments@[i].terrain, g)
                ==> assignment(self.assigned_groups@, self.rail_groups@, slot(g), i) is Some
    }

    /// Analyses `board`: partitions the segments of the tiles reachable from
    /// the origin into groups and finds the cells where a tile could go.
    pub fn from_board(board: &Board) -> (r: GroupAssignments)
        requires
            board.wf(),
        ensures
            r.valid_for(*board),
    {
        let mut analyzer = GroupAnalyzer::new(board);
        analyzer.run();
        analyzer.into_assignments()
    }

    /// The group of segment `segment_index` under its own terrain (river
    /// for a lake or a station); `None` for a segment without one or past the
    /// last segment.
    pub fn group_of(&self, board: &Board, segment_index: SegmentIndex) -> (r: Option<GroupIndex>)
        requires
            board.wf(),
            self.valid_for(*board),
        ensures
            segment_index < board.segments@.len() ==> r == assignment(
                self.assigned_groups@,
                self.rail_groups@,
                slot(own_group_terrain(board.segments@[segment_index as int].terrain)),
                segment_index as int,
            ),
            segment_index >= board.segments@.len() ==> r is None,
    {
        if segment_index >= board.segments.len() {
            return None;
        }
        match board.segment(segment_index).terrain {
            Terrain::Rail => self.rail_groups[segment_index],
            _ => self.assigned_groups[segment_index],
        }
    }

    /// The group of segment `segment_index` under rail, for rails and
    /// stations; `None` for other segments or past the last segment.
    pub fn rail_group_of(&self, board: &Board, segment_index: SegmentIndex) -> (r: Option<GroupIndex>)
        requires
            board.wf(),
            self.valid_for(*board),
        ensures
            segment_index < board.segments@.len() ==> r == assignment(
                self.assigned_groups@,
                self.rail_groups@,
                1,
                segment_index as int,
            ),
            segment_index >= board.segments@.len() ==> r is None,
    {
        if segment_index >= board.segments.len() {
            return None;
        }
        self.rail_groups[segment_index]
    }
}

} // verus!
