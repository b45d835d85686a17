//! What holds of every complete group analysis.
use vstd::prelude::*;
use crate::connectivity::{
    qualifies, slot, lemma_slot_terrain, node, links, links_at, is_path, connected, is_walk,
    reachable, lemma_connected_trans, lemma_walk_push, lemma_closed_path,
};
use crate::data::Terrain;
use crate::group::Group;
use crate::group_assignments::{
    GroupAssignments, assignment, member, group_ok, is_open_edge, edges_recorded,
};
use crate::hex::{Pos, neighbor, adjacent};
use crate::map::{Board, segments_wf};

verus! {

/// A segment met across an edge lies on the neighbouring tile.
proof fn lemma_link_pos(b: Board, i: int, j: int, g: Terrain) -> (r: int)
    requires
        b.wf(),
        links(b, i, j, g),
    ensures
        0 <= r < 6,
        0 <= j < b.segments@.len(),
        b.segments@[j].pos == neighbor(b.segments@[i].pos, r),
        b.has_tile(b.segments@[j].pos),
{
    let r = choose|r: int| links_at(b, i, r, j, g);
    let q = neighbor(b.segments@[i].pos, r);
    assert(b.tile_at(q) is Some);
    assert(segments_wf(b.tile_segments(q), q));
    assert(b.tile_segments(q)[j - b.first_segment(q)] == b.segments@[j]);
    r
}

/// The tiles along a path of segments from a reachable tile are reachable.
proof fn lemma_path_reachable(b: Board, g: Terrain, path: Seq<int>)
    requires
        b.wf(),
        is_path(b, g, path),
        0 <= path[0] < b.segments@.len(),
        reachable(b, b.segments@[path[0]].pos),
    ensures
        reachable(b, b.segments@[path.last()].pos),
    decreases path.len(),
{
    if path.len() > 1 {
        let front = path.drop_last();
        assert(is_path(b, g, front)) by {
            assert forall|k: int| 0 <= k < front.len() - 1 implies #[trigger] links(b, front[k], front[k + 1], g) by {
                assert(front[k] == path[k] && front[k + 1] == path[k + 1]);
            }
        }
        lemma_path_reachable(b, g, front);
        let k1 = path.len() - 2;
        assert(path[k1 + 1] == path.last());
        assert(links(b, path[k1], path[k1 + 1], g));
        let r = lemma_link_pos(b, path[k1], path[k1 + 1], g);
        let p = b.segments@[path[k1]].pos;
        let w = choose|w: Seq<Pos>| is_walk(b, w) && w.last() == p;
        lemma_walk_push(b, w, b.segments@[path.last()].pos);
    }
}

/// Partition: after analysis, every segment of a tile reachable from the
/// origin belongs, under each terrain it is grouped under, to exactly one
/// group of that terrain.
pub proof fn lemma_partition(ga: GroupAssignments, b: Board, p: Pos, i: int, g: Terrain)
    requires
        b.wf(),
        ga.valid_for(b),
        reachable(b, p),
        b.on_tile(p, i),
        qualifies(b.segments@[i].terrain, g),
    ensures
        exists|k: int| 0 <= k < ga.groups@.len() && ga.groups@[k].terrain == g && #[trigger] member(ga.groups@[k], i),
        forall|k1: int, k2: int|
            0 <= k1 < ga.groups@.len() && 0 <= k2 < ga.groups@.len() && ga.groups@[k1].terrain == g
                && ga.groups@[k2].terrain == g && #[trigger] member(ga.groups@[k1], i) && #[trigger] member(
                ga.groups@[k2],
                i,
            ) ==> k1 == k2,
{
    let a0 = ga.assigned_groups@;
    let a1 = ga.rail_groups@;
    assert(b.tile_at(p) is Some);
    assert(0 <= i < b.segments@.len());
    lemma_slot_terrain(b.segments@[i].terrain, g);
    assert(assignment(a0, a1, slot(g), i) is Some);
    let k = assignment(a0, a1, slot(g), i)->0 as int;
    assert(member(ga.groups@[k], i));
    assert(group_ok(b, ga.groups@, a0, a1, k));
    let gk = ga.groups@[k];
    let x = choose|x: int| 0 <= x < gk.segment_indices@.len() && gk.segment_indices@[x] == i as usize;
    assert(node(b, gk.segment_indices@[x] as int, gk.terrain));
    lemma_slot_terrain(b.segments@[i].terrain, gk.terrain);
    assert(gk.terrain == g);
    assert forall|k1: int, k2: int|
        0 <= k1 < ga.groups@.len() && 0 <= k2 < ga.groups@.len() && ga.groups@[k1].terrain == g
            && ga.groups@[k2].terrain == g && #[trigger] member(ga.groups@[k1], i) && #[trigger] member(
            ga.groups@[k2],
            i,
        ) implies k1 == k2 by {
        assert(group_ok(b, ga.groups@, a0, a1, k1));
        assert(group_ok(b, ga.groups@, a0, a1, k2));
        let g1 = ga.groups@[k1];
        let g2 = ga.groups@[k2];
        let x1 = choose|x1: int| 0 <= x1 < g1.segment_indices@.len() && g1.segment_indices@[x1] == i as usize;
        let x2 = choose|x2: int| 0 <= x2 < g2.segment_indices@.len() && g2.segment_indices@[x2] == i as usize;
        assert(node(b, g1.segment_indices@[x1] as int, g1.terrain));
        assert(node(b, g2.segment_indices@[x2] as int, g2.terrain));
    }
}

/// Open edges: a group lists a cell and direction as open exactly when one
/// of its members covers that direction and no tile lies in that cell.
pub proof fn lemma_open_edges(ga: GroupAssignments, b: Board, k: int, p: Pos, r: int)
    requires
        b.wf(),
        ga.valid_for(b),
        0 <= k < ga.groups@.len(),
    ensures
        ga.groups@[k].open_edges@.contains((p, r as usize)) && 0 <= r < 6 <==> is_open_edge(
            b,
            ga.groups@[k].segment_indices@,
            p,
            r,
        ),
{
    let grp = ga.groups@[k];
    assert(group_ok(b, ga.groups@, ga.assigned_groups@, ga.rail_groups@, k));
    let ms = grp.segment_indices@;
    let open = grp.open_edges@;
    if open.contains((p, r as usize)) && 0 <= r < 6 {
        let e = choose|e: int| 0 <= e < open.len() && open[e] == (p, r as usize);
        assert(is_open_edge(b, ms, open[e].0, open[e].1 as int));
    }
    if is_open_edge(b, ms, p, r) {
        let x = choose|x: int|
            0 <= x < ms.len() && b.segments@[ms[x] as int].occupies(r) && p == neighbor(
                b.segments@[ms[x] as int].pos,
                r,
            ) && !b.has_tile(p);
        assert(edges_recorded(b, open, ms[x] as int));
    }
}

/// Frontier: the possible placements are exactly the cells without a tile
/// next to a tile reachable from the origin.
pub proof fn lemma_frontier(ga: GroupAssignments, b: Board, p: Pos)
    requires
        ga.valid_for(b),
    ensures
        ga.possible_placements@.contains(p) <==> (!b.has_tile(p) && exists|q: Pos|
            reachable(b, q) && #[trigger] adjacent(q, p)),
{
}

/// Whether two groups have the same members.
pub open spec fn same_members(g1: Group, g2: Group) -> bool {
    forall|i: int| #[trigger] member(g1, i) <==> #[trigger] member(g2, i)
}

/// The members of group `k` reached by a path from one of its members.
proof fn lemma_group_closed_path(b: Board, ga: GroupAssignments, k: int, path: Seq<int>)
    requires
        b.wf(),
        ga.valid_for(b),
        0 <= k < ga.groups@.len(),
        is_path(b, ga.groups@[k].terrain, path),
        member(ga.groups@[k], path[0]),
    ensures
        member(ga.groups@[k], path.last()),
{
    let grp = ga.groups@[k];
    let g = grp.terrain;
    let ms = grp.segment_indices@;
    assert(group_ok(b, ga.groups@, ga.assigned_groups@, ga.rail_groups@, k));
    assert forall|m: int, j: int|
        0 <= m && 0 <= j && ms.contains(m as usize) && #[trigger] links(b, m, j, g) implies ms.contains(
        j as usize,
    ) by {
        let r = choose|r: int| links_at(b, m, r, j, g);
        lemma_link_pos(b, m, j, g);
        assert(member(grp, m));
    }
    lemma_closed_path(b, g, ms, path);
    if path.len() > 1 {
        let k1 = path.len() - 2;
        assert(path[k1 + 1] == path.last());
        assert(links(b, path[k1], path[k1 + 1], g));
        lemma_link_pos(b, path[k1], path[k1 + 1], g);
    }
}

/// The other group of an analysis that holds a member of `g1` holds all of
/// `g1`'s members and no others, and is closed exactly when `g1` is.
proof fn lemma_same_group(b: Board, ga1: GroupAssignments, k1: int, ga2: GroupAssignments, k2: int, f: int)
    requires
        b.wf(),
        ga1.valid_for(b),
        ga2.valid_for(b),
        0 <= k1 < ga1.groups@.len(),
        0 <= k2 < ga2.groups@.len(),
        ga1.groups@[k1].terrain == ga2.groups@[k2].terrain,
        f == ga1.groups@[k1].segment_indices@[0] as int,
        member(ga2.groups@[k2], f),
    ensures
        same_members(ga1.groups@[k1], ga2.groups@[k2]),
        ga1.groups@[k1].open_edges@.len() == 0 <==> ga2.groups@[k2].open_edges@.len() == 0,
{
    let g1 = ga1.groups@[k1];
    let g2 = ga2.groups@[k2];
    let g = g1.terrain;
    let ms1 = g1.segment_indices@;
    let ms2 = g2.segment_indices@;
    assert(group_ok(b, ga1.groups@, ga1.assigned_groups@, ga1.rail_groups@, k1));
    assert(group_ok(b, ga2.groups@, ga2.assigned_groups@, ga2.rail_groups@, k2));
    assert forall|i: int| member(g1, i) implies member(g2, i) by {
        let x = choose|x: int| 0 <= x < ms1.len() && ms1[x] == i as usize;
        assert(connected(b, g, ms1[0] as int, ms1[x] as int));
        let path = choose|path: Seq<int>| is_path(b, g, path) && path[0] == f && path.last() == i;
        lemma_group_closed_path(b, ga2, k2, path);
    }
    assert forall|i: int| member(g2, i) implies member(g1, i) by {
        let x = choose|x: int| 0 <= x < ms2.len() && ms2[x] == i as usize;
        let y = choose|y: int| 0 <= y < ms2.len() && ms2[y] == f as usize;
        assert(connected(b, g, ms2[y] as int, ms2[0] as int));
        assert(connected(b, g, ms2[0] as int, ms2[x] as int));
        lemma_connected_trans(b, g, f, ms2[0] as int, i);
        let path = choose|path: Seq<int>| is_path(b, g, path) && path[0] == f && path.last() == i;
        assert(ms1.contains(ms1[0]));
        lemma_group_closed_path(b, ga1, k1, path);
    }
    if g1.open_edges@.len() > 0 {
        let e = g1.open_edges@[0];
        assert(is_open_edge(b, ms1, e.0, e.1 as int));
        let x = choose|x: int|
            0 <= x < ms1.len() && b.segments@[ms1[x] as int].occupies(e.1 as int) && e.0 == neighbor(
                b.segments@[ms1[x] as int].pos,
                e.1 as int,
            ) && !b.has_tile(e.0);
        assert(ms1.contains(ms1[x]));
        assert(member(g1, ms1[x] as int));
        assert(member(g2, ms1[x] as int));
        let y = choose|y: int| 0 <= y < ms2.len() && ms2[y] == ms1[x];
        assert(edges_recorded(b, g2.open_edges@, ms2[y] as int));
        assert(g2.open_edges@.contains((e.0, e.1 as int as usize)));
    }
    if g2.open_edges@.len() > 0 {
        let e = g2.open_edges@[0];
        assert(is_open_edge(b, ms2, e.0, e.1 as int));
        let x = choose|x: int|
            0 <= x < ms2.len() && b.segments@[ms2[x] as int].occupies(e.1 as int) && e.0 == neighbor(
                b.segments@[ms2[x] as int].pos,
                e.1 as int,
            ) && !b.has_tile(e.0);
        assert(ms2.contains(ms2[x]));
        assert(member(g2, ms2[x] as int));
        assert(member(g1, ms2[x] as int));
        let y = choose|y: int| 0 <= y < ms1.len() && ms1[y] == ms2[x];
        assert(edges_recorded(b, g1.open_edges@, ms1[y] as int));
        assert(g1.open_edges@.contains((e.0, e.1 as int as usize)));
    }
}

/// Idempotence: any two complete analyses of one board find the same groups,
/// with the same members and the same closed or open state, and the same
/// possible placements; only the numbering of the groups may differ.
pub proof fn lemma_analysis_unique(b: Board, ga1: GroupAssignments, ga2: GroupAssignments, k1: int)
    requires
        b.wf(),
        ga1.valid_for(b),
        ga2.valid_for(b),
        0 <= k1 < ga1.groups@.len(),
    ensures
        exists|k2: int|
            0 <= k2 < ga2.groups@.len() && ga2.groups@[k2].terrain == ga1.groups@[k1].terrain
                && same_members(ga1.groups@[k1], #[trigger] ga2.groups@[k2]) && (ga1.groups@[k1].open_edges@.len()
                == 0 <==> ga2.groups@[k2].open_edges@.len() == 0),
        forall|p: Pos| #[trigger] ga1.possible_placements@.contains(p) <==> ga2.possible_placements@.contains(p),
{
    let g1 = ga1.groups@[k1];
    let g = g1.terrain;
    let ms1 = g1.segment_indices@;
    assert(group_ok(b, ga1.groups@, ga1.assigned_groups@, ga1.rail_groups@, k1));
    let f = ms1[0] as int;
    assert(node(b, f, g));
    let p = b.segments@[f].pos;
    assert(reachable(b, p));
    lemma_partition(ga2, b, p, f, g);
    let k2 = choose|k2: int| 0 <= k2 < ga2.groups@.len() && ga2.groups@[k2].terrain == g && #[trigger] member(ga2.groups@[k2], f);
    lemma_same_group(b, ga1, k1, ga2, k2, f);
}

/// Closure: a group is closed exactly when none of its members covers a side
/// that faces a cell without a tile.
pub proof fn lemma_closed_iff(ga: GroupAssignments, b: Board, k: int)
    requires
        b.wf(),
        ga.valid_for(b),
        0 <= k < ga.groups@.len(),
    ensures
        ga.groups@[k].open_edges@.len() == 0 <==> forall|x: int, r: int|
            0 <= x < ga.groups@[k].segment_indices@.len() ==> !(#[trigger] b.segments@[ga.groups@[k].segment_indices@[x] as int].occupies(r)
                && !b.has_tile(neighbor(b.segments@[ga.groups@[k].segment_indices@[x] as int].pos, r))),
{
    let grp = ga.groups@[k];
    let ms = grp.segment_indices@;
    let open = grp.open_edges@;
    assert(group_ok(b, ga.groups@, ga.assigned_groups@, ga.rail_groups@, k));
    if open.len() > 0 {
        let e = open[0];
        assert(is_open_edge(b, ms, e.0, e.1 as int));
    }
    if open.len() == 0 {
        assert forall|x: int, r: int|
            0 <= x < ms.len() implies !(#[trigger] b.segments@[ms[x] as int].occupies(r) && !b.has_tile(
                neighbor(b.segments@[ms[x] as int].pos, r),
            )) by {
            assert(edges_recorded(b, open, ms[x] as int));
            if b.segments@[ms[x] as int].occupies(r) && !b.has_tile(neighbor(b.segments@[ms[x] as int].pos, r)) {
                assert(open.contains((neighbor(b.segments@[ms[x] as int].pos, r), r as usize)));
            }
        }
    }
}

} // verus!
