//! The graph of segments that meet across tile edges, and walks over tiles.
use vstd::prelude::*;
use crate::data::{Terrain, is_group_terrain, extends, is_waterlike, is_raillike};
use crate::hex::{Pos, neighbor, adjacent, opposite, lemma_neighbor_back};
use crate::map::{Board, origin, segments_wf};

verus! {

/// Whether segments of terrain `t` are grouped under terrain `g`: a lake
/// under river, a station under both river and rail, any other under its
/// own terrain.
pub open spec fn qualifies(t: Terrain, g: Terrain) -> bool {
    is_group_terrain(g) && extends(t, g)
}

/// Which of the two assignment slots holds a segment's group under `g`:
/// rail groups use the second, all others the first.
pub open spec fn slot(g: Terrain) -> int {
    if g is Rail {
        1
    } else {
        0
    }
}

/// The terrain a segment of terrain `t` is grouped under in slot `s`.
pub open spec fn slot_terrain(t: Terrain, s: int) -> Option<Terrain> {
    if s == 0 {
        if is_waterlike(t) {
            Some(Terrain::River)
        } else if t is Rail || t is Missing {
            None
        } else {
            Some(t)
        }
    } else if is_raillike(t) {
        Some(Terrain::Rail)
    } else {
        None
    }
}

pub proof fn lemma_slot_terrain(t: Terrain, g: Terrain)
    ensures
        qualifies(t, g) <==> slot_terrain(t, slot(g)) == Some(g),
        forall|s: int|
            0 <= s < 2 ==> (#[trigger] slot_terrain(t, s) matches Some(h) ==> qualifies(t, h)
                && slot(h) == s),
{
}

/// Whether segment `i` of board `b` is a node of the group graph under
/// terrain `g`: it lies on its tile and is grouped under `g`.
pub open spec fn node(b: Board, i: int, g: Terrain) -> bool {
    &&& 0 <= i < b.segments@.len()
    &&& b.on_tile(b.segments@[i].pos, i)
    &&& qualifies(b.segments@[i].terrain, g)
}

/// Whether segment `i`, through its side `r`, meets segment `j` of the
/// neighbouring tile, which joins a group of terrain `g`.
pub open spec fn links_at(b: Board, i: int, r: int, j: int, g: Terrain) -> bool {
    &&& 0 <= i < b.segments@.len()
    &&& b.segments@[i].occupies(r)
    &&& b.on_tile(neighbor(b.segments@[i].pos, r), j)
    &&& b.segments@[j].occupies(opposite(r))
    &&& extends(b.segments@[j].terrain, g)
}

/// Whether segment `i` meets segment `j` across some side, under `g`.
pub open spec fn links(b: Board, i: int, j: int, g: Terrain) -> bool {
    exists|r: int| links_at(b, i, r, j, g)
}

/// Whether consecutive segments of `path` meet under `g`.
pub open spec fn is_path(b: Board, g: Terrain, path: Seq<int>) -> bool {
    &&& path.len() >= 1
    &&& forall|k: int| 0 <= k < path.len() - 1 ==> #[trigger] links(b, path[k], path[k + 1], g)
}

/// Whether a chain of meeting segments leads from `i` to `j` under `g`.
pub open spec fn connected(b: Board, g: Terrain, i: int, j: int) -> bool {
    exists|path: Seq<int>| is_path(b, g, path) && path[0] == i && path.last() == j
}

/// Whether `w` is a walk over tiles from the origin, one cell at a time.
pub open spec fn is_walk(b: Board, w: Seq<Pos>) -> bool {
    &&& w.len() >= 1
    &&& w[0] == origin()
    &&& forall|k: int| 0 <= k < w.len() ==> b.has_tile(#[trigger] w[k])
    &&& forall|k: int| 0 <= k < w.len() - 1 ==> #[trigger] adjacent(w[k], w[k + 1])
}

/// Whether the tile at `p` can be reached from the origin over tiles.
pub open spec fn reachable(b: Board, p: Pos) -> bool {
    exists|w: Seq<Pos>| is_walk(b, w) && w.last() == p
}

/// Meeting across an edge works both ways.
pub proof fn lemma_links_symmetric(b: Board, i: int, j: int, g: Terrain)
    requires
        b.wf(),
        node(b, i, g),
        links(b, i, j, g),
    ensures
        links(b, j, i, g),
        node(b, j, g),
{
    let r = choose|r: int| links_at(b, i, r, j, g);
    let p = b.segments@[i].pos;
    let q = neighbor(p, r);
    assert(b.tile_at(p) is Some);
    assert(b.inner(p));
    assert(b.tile_at(q) is Some);
    let segs_p = b.tile_segments(p);
    let segs_q = b.tile_segments(q);
    assert(segments_wf(segs_q, q));
    assert(segs_q[j - b.first_segment(q)] == b.segments@[j]);
    assert(b.segments@[j].pos == q);
    lemma_neighbor_back(p, r);
    assert(links_at(b, j, opposite(r), i, g));
}

/// A path followed by a meeting step is a path.
pub proof fn lemma_path_push(b: Board, g: Terrain, path: Seq<int>, j: int)
    requires
        is_path(b, g, path),
        links(b, path.last(), j, g),
    ensures
        is_path(b, g, path.push(j)),
        path.push(j)[0] == path[0],
        path.push(j).last() == j,
{
    let q = path.push(j);
    assert forall|k: int| 0 <= k < q.len() - 1 implies #[trigger] links(b, q[k], q[k + 1], g) by {
        if k < path.len() - 1 {
            assert(q[k] == path[k] && q[k + 1] == path[k + 1]);
        }
    }
}

/// Two paths that meet end to start form a path.
pub proof fn lemma_path_concat(b: Board, g: Terrain, p1: Seq<int>, p2: Seq<int>)
    requires
        is_path(b, g, p1),
        is_path(b, g, p2),
        p1.last() == p2[0],
    ensures
        is_path(b, g, p1 + p2.drop_first()),
        (p1 + p2.drop_first())[0] == p1[0],
        (p1 + p2.drop_first()).last() == p2.last(),
{
    let q = p1 + p2.drop_first();
    assert forall|k: int| 0 <= k < q.len() - 1 implies #[trigger] links(b, q[k], q[k + 1], g) by {
        if k < p1.len() - 1 {
            assert(q[k] == p1[k] && q[k + 1] == p1[k + 1]);
        } else if k == p1.len() - 1 {
            assert(q[k] == p2[0] && q[k + 1] == p2[1]);
        } else {
            let m = k - p1.len() + 1;
            assert(q[k] == p2[m] && q[k + 1] == p2[m + 1]);
        }
    }
}

pub proof fn lemma_connected_trans(b: Board, g: Terrain, i: int, j: int, k: int)
    requires
        connected(b, g, i, j),
        connected(b, g, j, k),
    ensures
        connected(b, g, i, k),
{
    let p1 = choose|p: Seq<int>| is_path(b, g, p) && p[0] == i && p.last() == j;
    let p2 = choose|p: Seq<int>| is_path(b, g, p) && p[0] == j && p.last() == k;
    lemma_path_concat(b, g, p1, p2);
}

pub proof fn lemma_connected_refl(b: Board, g: Terrain, i: int)
    ensures
        connected(b, g, i, i),
{
    let p = seq![i];
    assert(is_path(b, g, p));
    assert(p[0] == i && p.last() == i);
}

pub proof fn lemma_connected_step(b: Board, g: Terrain, i: int, j: int)
    requires
        links(b, i, j, g),
    ensures
        connected(b, g, i, j),
{
    lemma_connected_refl(b, g, i);
    lemma_path_push(b, g, seq![i], j);
}

/// A set of segments closed under meeting steps holds every segment a path
/// from one of its members reaches.
pub proof fn lemma_closed_path(b: Board, g: Terrain, members: Seq<usize>, path: Seq<int>)
    requires
        is_path(b, g, path),
        0 <= path[0],
        members.contains(path[0] as usize),
        forall|m: int, j: int|
            0 <= m && 0 <= j && members.contains(m as usize) && #[trigger] links(b, m, j, g)
                ==> members.contains(j as usize),
    ensures
        0 <= path.last(),
        members.contains(path.last() as usize),
    decreases path.len(),
{
    if path.len() > 1 {
        let front = path.drop_last();
        assert(is_path(b, g, front)) by {
            assert forall|k: int| 0 <= k < front.len() - 1 implies #[trigger] links(b, front[k], front[k + 1], g) by {
                assert(front[k] == path[k] && front[k + 1] == path[k + 1]);
            }
        }
        lemma_closed_path(b, g, members, front);
        let k1 = path.len() - 2;
        assert(path[k1 + 1] == path.last());
        assert(links(b, path[k1], path[k1 + 1], g));
        let r = choose|r: int| #[trigger] links_at(b, path[k1], r, path[k1 + 1], g);
    }
}

/// A walk followed by a step to a neighbouring tile is a walk.
pub proof fn lemma_walk_push(b: Board, w: Seq<Pos>, p: Pos)
    requires
        is_walk(b, w),
        adjacent(w.last(), p),
        b.has_tile(p),
    ensures
        is_walk(b, w.push(p)),
        w.push(p).last() == p,
{
    let q = w.push(p);
    assert forall|k: int| 0 <= k < q.len() implies b.has_tile(#[trigger] q[k]) by {
        if k < w.len() {
            assert(q[k] == w[k]);
        }
    }
    assert forall|k: int| 0 <= k < q.len() - 1 implies #[trigger] adjacent(q[k], q[k + 1]) by {
        if k < w.len() - 1 {
            assert(q[k] == w[k] && q[k + 1] == w[k + 1]);
        }
    }
}

} // verus!
