//! Laying out a list of tiles as a board.
use vstd::prelude::*;
use crate::data::{Segment, Terrain};
use crate::hex::Pos;
use crate::map::{
    Board, Tile, LoadError, BOARD_LIMIT, render, renders, segments_wf, within_limit, tiles_fit,
    origin, rect_contains, rect_key, lemma_rect_key,
};

verus! {

/// The index of the last tile of `tiles` that lies at `p`, or -1 where none
/// does.
pub open spec fn last_index(tiles: Seq<Tile>, p: Pos) -> int
    decreases tiles.len(),
{
    if tiles.len() == 0 {
        -1
    } else if tiles.last().pos == p {
        tiles.len() - 1
    } else {
        last_index(tiles.drop_last(), p)
    }
}

/// What a tile list lays out: each tile's cell and segments.
pub open spec fn tile_views(tiles: Seq<Tile>) -> Seq<(Pos, Seq<Segment>)> {
    tiles.map_values(|t: Tile| (t.pos, t.segments@))
}

/// The index of the last entry of `vs` at `p`, or -1 where none is.
pub open spec fn last_at(vs: Seq<(Pos, Seq<Segment>)>, p: Pos) -> int
    decreases vs.len(),
{
    if vs.len() == 0 {
        -1
    } else if vs.last().0 == p {
        vs.len() - 1
    } else {
        last_at(vs.drop_last(), p)
    }
}

/// The smallest x among the origin and the cells of `vs`.
pub open spec fn lowest_x(vs: Seq<(Pos, Seq<Segment>)>) -> int
    decreases vs.len(),
{
    if vs.len() == 0 {
        0
    } else if (vs.last().0.x as int) < lowest_x(vs.drop_last()) {
        vs.last().0.x as int
    } else {
        lowest_x(vs.drop_last())
    }
}

/// The smallest y among the origin and the cells of `vs`.
pub open spec fn lowest_y(vs: Seq<(Pos, Seq<Segment>)>) -> int
    decreases vs.len(),
{
    if vs.len() == 0 {
        0
    } else if (vs.last().0.y as int) < lowest_y(vs.drop_last()) {
        vs.last().0.y as int
    } else {
        lowest_y(vs.drop_last())
    }
}

/// The largest x among the origin and the cells of `vs`.
pub open spec fn highest_x(vs: Seq<(Pos, Seq<Segment>)>) -> int
    decreases vs.len(),
{
    if vs.len() == 0 {
        0
    } else if (vs.last().0.x as int) > highest_x(vs.drop_last()) {
        vs.last().0.x as int
    } else {
        highest_x(vs.drop_last())
    }
}

/// The largest y among the origin and the cells of `vs`.
pub open spec fn highest_y(vs: Seq<(Pos, Seq<Segment>)>) -> int
    decreases vs.len(),
{
    if vs.len() == 0 {
        0
    } else if (vs.last().0.y as int) > highest_y(vs.drop_last()) {
        vs.last().0.y as int
    } else {
        highest_y(vs.drop_last())
    }
}

/// The segments of all entries of `vs`, one entry after the other.
pub open spec fn all_segments(vs: Seq<(Pos, Seq<Segment>)>) -> Seq<Segment>
    decreases vs.len(),
{
    if vs.len() == 0 {
        seq![]
    } else {
        all_segments(vs.drop_last()) + vs.last().1
    }
}

/// Whether `b`'s index rectangle is the bounding box of the origin and the
/// cells of `vs`, with one cell of margin on each side.
pub open spec fn rectangle_of(b: Board, vs: Seq<(Pos, Seq<Segment>)>) -> bool {
    &&& b.index_offset.x == lowest_x(vs) - 1
    &&& b.index_offset.y == lowest_y(vs) - 1
    &&& b.index_size.x == highest_x(vs) - lowest_x(vs) + 3
    &&& b.index_size.y == highest_y(vs) - lowest_y(vs) + 3
}

/// Whether `b` lays out the tiles `vs`: the rectangle around them, all their
/// segments in order, and at each cell the segments of the last tile there,
/// with none at the origin where no tile lies.
pub open spec fn lays_out(b: Board, vs: Seq<(Pos, Seq<Segment>)>) -> bool {
    &&& rectangle_of(b, vs)
    &&& b.segments@ == all_segments(vs)
    &&& forall|p: Pos| #[trigger] b.has_tile(p) <==> (p == origin() || last_at(vs, p) >= 0)
    &&& forall|p: Pos| last_at(vs, p) >= 0 ==> #[trigger] b.tile_segments(p) == vs[last_at(vs, p)].1
    &&& last_at(vs, origin()) < 0 ==> b.tile_segments(origin()).len() == 0
}

pub proof fn lemma_last_at_views(tiles: Seq<Tile>, p: Pos)
    ensures
        last_index(tiles, p) == last_at(tile_views(tiles), p),
    decreases tiles.len(),
{
    if tiles.len() > 0 {
        assert(tile_views(tiles).drop_last() =~= tile_views(tiles.drop_last()));
        lemma_last_at_views(tiles.drop_last(), p);
    }
}

pub proof fn lemma_last_index(tiles: Seq<Tile>, p: Pos)
    ensures
        -1 <= last_index(tiles, p) < tiles.len(),
        last_index(tiles, p) >= 0 ==> tiles[last_index(tiles, p)].pos == p,
    decreases tiles.len(),
{
    if tiles.len() > 0 {
        lemma_last_index(tiles.drop_last(), p);
    }
}

/// A tile at `p` anywhere in the list means a last one there.
pub proof fn lemma_last_index_found(tiles: Seq<Tile>, p: Pos, k: int)
    requires
        0 <= k < tiles.len(),
        tiles[k].pos == p,
    ensures
        last_index(tiles, p) >= k,
    decreases tiles.len(),
{
    if k < tiles.len() - 1 && tiles.last().pos != p {
        assert(tiles.drop_last()[k] == tiles[k]);
        lemma_last_index_found(tiles.drop_last(), p, k);
    }
}

/// What the index holds for `p` once the first `j` tiles are written.
spec fn expected_entry(tiles: Seq<Tile>, bases: Seq<usize>, j: int, p: Pos) -> Option<
    (usize, usize),
> {
    let k = last_index(tiles.take(j), p);
    if k >= 0 {
        Some((bases[k], tiles[k].segments@.len() as usize))
    } else if p == origin() {
        Some((0usize, 0usize))
    } else {
        None
    }
}

/// The terrain shown per side by segments `start..end` of `segments`.
fn render_range(segments: &Vec<Segment>, start: usize, end: usize) -> (r: [Terrain; 6])
    requires
        start <= end <= segments@.len(),
        forall|i: int| start <= i < end ==> (#[trigger] segments@[i]).rotation < 6,
    ensures
        renders(r, segments@.subrange(start as int, end as int)),
{
    let mut r = [
        Terrain::Empty,
        Terrain::Empty,
        Terrain::Empty,
        Terrain::Empty,
        Terrain::Empty,
        Terrain::Empty,
    ];
    let mut i = start;
    assert(segments@.subrange(start as int, start as int).len() == 0);
    while i < end
        invariant
            start <= i <= end <= segments@.len(),
            forall|k: int| start <= k < end ==> (#[trigger] segments@[k]).rotation < 6,
            forall|d: int| 0 <= d < 6 ==> #[trigger] r@[d] == render(segments@.subrange(start as int, i as int), d),
        decreases end - i,
    {
        let seg = segments[i];
        let ghost before = segments@.subrange(start as int, i as int);
        let ghost after = segments@.subrange(start as int, i + 1);
        assert(after.drop_last() =~= before);
        assert(after.last() == seg);
        let mut d: usize = 0;
        while d < 6
            invariant
                d <= 6,
                seg.rotation < 6,
                after.len() > 0,
                after.drop_last() == before,
                after.last() == seg,
                forall|e: int| 0 <= e < d ==> #[trigger] r@[e] == render(after, e),
                forall|e: int| d <= e < 6 ==> #[trigger] r@[e] == render(before, e),
            decreases 6 - d,
        {
            if seg.covers(d) {
                r[d] = seg.terrain;
            }
            d += 1;
        }
        i += 1;
    }
    r
}

impl Board {
    /// Lays out `tiles` on a board, with `next_tile` as the tile to place
    /// next. A later tile at the same cell replaces an earlier one, and the
    /// origin holds a tile without segments where no tile lies there.
    pub fn from_tiles(tiles: &Vec<Tile>, next_tile: Vec<Segment>) -> (r: Result<Board, LoadError>)
        requires
            forall|k: int|
                0 <= k < tiles@.len() ==> segments_wf((#[trigger] tiles@[k]).segments@, tiles@[k].pos),
            forall|i: int| 0 <= i < next_tile@.len() ==> (#[trigger] next_tile@[i]).rotation < 6,
        ensures
            r is Err <==> !tiles_fit(tiles@),
            r is Err ==> r == Err::<Board, LoadError>(LoadError::BoardTooLarge),
            r matches Ok(b) ==> {
                &&& b.wf()
                &&& b.next_tile@ == next_tile@
                &&& forall|p: Pos|
                    #[trigger] b.has_tile(p) <==> (p == origin() || last_index(tiles@, p) >= 0)
                &&& forall|p: Pos|
                    last_index(tiles@, p) >= 0 ==> #[trigger] b.tile_segments(p)
                        == tiles@[last_index(tiles@, p)].segments@
                &&& last_index(tiles@, origin()) < 0 ==> b.tile_segments(origin()).len() == 0
                &&& lays_out(b, tile_views(tiles@))
            },
    {
        let n = tiles.len();
        let mut min_x: i32 = 0;
        let mut min_y: i32 = 0;
        let mut max_x: i32 = 0;
        let mut max_y: i32 = 0;
        let mut segments: Vec<Segment> = Vec::new();
        let mut bases: Vec<usize> = Vec::new();
        let mut k: usize = 0;
        while k < n
            invariant
                n == tiles@.len(),
                k <= n,
                -BOARD_LIMIT <= min_x <= 0 <= max_x <= BOARD_LIMIT,
                -BOARD_LIMIT <= min_y <= 0 <= max_y <= BOARD_LIMIT,
                forall|j: int|
                    0 <= j < k ==> min_x <= (#[trigger] tiles@[j]).pos.x <= max_x && min_y
                        <= tiles@[j].pos.y <= max_y,
                forall|j: int|
                    0 <= j < tiles@.len() ==> segments_wf(
                        (#[trigger] tiles@[j]).segments@,
                        tiles@[j].pos,
                    ),
                min_x == lowest_x(tile_views(tiles@.take(k as int))),
                min_y == lowest_y(tile_views(tiles@.take(k as int))),
                max_x == highest_x(tile_views(tiles@.take(k as int))),
                max_y == highest_y(tile_views(tiles@.take(k as int))),
                segments@ == all_segments(tile_views(tiles@.take(k as int))),
                bases@.len() == k,
                forall|j: int|
                    0 <= j < k ==> #[trigger] bases@[j] + tiles@[j].segments@.len()
                        <= segments@.len() && segments@.subrange(
                        bases@[j] as int,
                        bases@[j] + tiles@[j].segments@.len(),
                    ) == tiles@[j].segments@,
                forall|i: int|
                    0 <= i < segments@.len() ==> (#[trigger] segments@[i]).rotation < 6
                        && !(segments@[i].terrain is Missing),
            decreases n - k,
        {
            let tile = &tiles[k];
            let p = tile.pos;
            let ghost vk = tile_views(tiles@.take(k as int));
            let ghost vk1 = tile_views(tiles@.take(k + 1));
            assert(vk1.drop_last() =~= vk);
            assert(vk1.last() == (p, tile.segments@));
            if p.x < -BOARD_LIMIT || p.x > BOARD_LIMIT || p.y < -BOARD_LIMIT || p.y > BOARD_LIMIT {
                assert(!within_limit(tiles@[k as int].pos.x as int) || !within_limit(
                    tiles@[k as int].pos.y as int,
                ));
                return Err(LoadError::BoardTooLarge);
            }
            if p.x < min_x {
                min_x = p.x;
            }
            if p.y < min_y {
                min_y = p.y;
            }
            if p.x > max_x {
                max_x = p.x;
            }
            if p.y > max_y {
                max_y = p.y;
            }
            let base = segments.len();
            let ghost old_segments = segments@;
            let mut i: usize = 0;
            while i < tile.segments.len()
                invariant
                    segments@.len() == base + i,
                    i <= tile.segments@.len(),
                    segments@.subrange(0, base as int) == old_segments,
                    segments@.subrange(base as int, base + i) == tile.segments@.take(i as int),
                    segments_wf(tile.segments@, p),
                    forall|j: int|
                        0 <= j < segments@.len() ==> (#[trigger] segments@[j]).rotation < 6
                            && !(segments@[j].terrain is Missing),
                decreases tile.segments@.len() - i,
            {
                let ghost prev = segments@;
                segments.push(tile.segments[i]);
                assert(segments@.subrange(0, base as int) =~= prev.subrange(0, base as int));
                assert(segments@.subrange(base as int, base + i + 1) =~= tile.segments@.take(
                    i + 1,
                ));
                i += 1;
            }
            assert(tile.segments@.take(i as int) =~= tile.segments@);
            assert(segments@ =~= old_segments + tile.segments@) by {
                assert(segments@ =~= segments@.subrange(0, base as int) + segments@.subrange(base as int, base + i));
            }
            assert forall|j: int| 0 <= j < k implies #[trigger] bases@[j] + tiles@[j].segments@.len()
                <= segments@.len() && segments@.subrange(
                bases@[j] as int,
                bases@[j] + tiles@[j].segments@.len(),
            ) == tiles@[j].segments@ by {
                let b = bases@[j] as int;
                let e = b + tiles@[j].segments@.len();
                assert(old_segments.subrange(b, e) == tiles@[j].segments@);
                assert(segments@.subrange(b, e) =~= old_segments.subrange(b, e));
            }
            bases.push(base);
            k += 1;
        }
        assert(tiles_fit(tiles@));
        let index_offset = Pos { x: min_x - 1, y: min_y - 1 };
        let index_size = Pos { x: max_x - min_x + 3, y: max_y - min_y + 3 };
        let w = index_size.x as usize;
        let h = index_size.y as usize;
        assert(w * h <= 40000 * 40000) by (nonlinear_arith)
            requires
                w <= 40000,
                h <= 40000,
        ;
        let len = w * h;
        let mut tile_index: Vec<Option<(usize, usize)>> = Vec::new();
        let mut rendered_tiles: Vec<Option<[Terrain; 6]>> = Vec::new();
        let mut c: usize = 0;
        while c < len
            invariant
                c <= len,
                tile_index@.len() == c,
                rendered_tiles@.len() == c,
                forall|q: int| 0 <= q < c ==> tile_index@[q] is None && rendered_tiles@[q] is None,
            decreases len - c,
        {
            tile_index.push(None);
            rendered_tiles.push(None);
            c += 1;
        }
        proof {
            lemma_rect_key(index_offset, index_size, origin(), origin());
        }
        let origin_key = ((0 - index_offset.y) as usize) * w + ((0 - index_offset.x) as usize);
        assert(origin_key == rect_key(index_offset, index_size, origin()));
        tile_index.set(origin_key, Some((0, 0)));
        rendered_tiles.set(origin_key, Some(render_range(&segments, 0, 0)));
        assert forall|p: Pos| #[trigger]
            rect_contains(index_offset, index_size, p) implies tile_index@[rect_key(
                index_offset,
                index_size,
                p,
            )] == expected_entry(tiles@, bases@, 0, p) && match rendered_tiles@[rect_key(
                index_offset,
                index_size,
                p,
            )] {
                Some(a) => tile_index@[rect_key(index_offset, index_size, p)] matches Some((b, c))
                    && renders(a, segments@.subrange(b as int, b + c)),
                None => tile_index@[rect_key(index_offset, index_size, p)] is None,
            } by {
            lemma_rect_key(index_offset, index_size, p, origin());
            assert(tiles@.take(0).len() == 0);
        }
        let mut j: usize = 0;
        while j < n
            invariant
                n == tiles@.len(),
                j <= n,
                bases@.len() == n,
                tile_index@.len() == len,
                rendered_tiles@.len() == len,
                len == index_size.x * index_size.y,
                index_offset.x == min_x - 1,
                index_offset.y == min_y - 1,
                index_size.x == max_x - min_x + 3,
                index_size.y == max_y - min_y + 3,
                w == index_size.x,
                -BOARD_LIMIT <= min_x <= 0 <= max_x <= BOARD_LIMIT,
                -BOARD_LIMIT <= min_y <= 0 <= max_y <= BOARD_LIMIT,
                forall|i: int|
                    0 <= i < n ==> min_x <= (#[trigger] tiles@[i]).pos.x <= max_x && min_y
                        <= tiles@[i].pos.y <= max_y,
                forall|i: int|
                    0 <= i < n ==> #[trigger] bases@[i] + tiles@[i].segments@.len()
                        <= segments@.len() && segments@.subrange(
                        bases@[i] as int,
                        bases@[i] + tiles@[i].segments@.len(),
                    ) == tiles@[i].segments@,
                forall|i: int|
                    0 <= i < segments@.len() ==> (#[trigger] segments@[i]).rotation < 6
                        && !(segments@[i].terrain is Missing),
                forall|p: Pos| #[trigger]
                    rect_contains(index_offset, index_size, p) ==> tile_index@[rect_key(
                        index_offset,
                        index_size,
                        p,
                    )] == expected_entry(tiles@, bases@, j as int, p) && match rendered_tiles@[rect_key(
                        index_offset,
                        index_size,
                        p,
                    )] {
                        Some(a) => tile_index@[rect_key(index_offset, index_size, p)] matches Some(
                            (b, c),
                        ) && renders(a, segments@.subrange(b as int, b + c)),
                        None => tile_index@[rect_key(index_offset, index_size, p)] is None,
                    },
            decreases n - j,
        {
            let tile = &tiles[j];
            let p = tile.pos;
            let base = bases[j];
            let count = tile.segments.len();
            let total = segments.len();
            assert(base + count <= total);
            assert(segments@.subrange(base as int, base + count) == tiles@[j as int].segments@);
            proof {
                lemma_rect_key(index_offset, index_size, p, p);
            }
            let key = ((p.y - index_offset.y) as usize) * w + ((p.x - index_offset.x) as usize);
            assert(key == rect_key(index_offset, index_size, p));
            tile_index.set(key, Some((base, count)));
            let rendered = render_range(&segments, base, base + count);
            rendered_tiles.set(key, Some(rendered));
            assert forall|q: Pos| #[trigger]
                rect_contains(index_offset, index_size, q) implies tile_index@[rect_key(
                    index_offset,
                    index_size,
                    q,
                )] == expected_entry(tiles@, bases@, j + 1, q) && match rendered_tiles@[rect_key(
                    index_offset,
                    index_size,
                    q,
                )] {
                    Some(a) => tile_index@[rect_key(index_offset, index_size, q)] matches Some(
                        (b, c),
                    ) && renders(a, segments@.subrange(b as int, b + c)),
                    None => tile_index@[rect_key(index_offset, index_size, q)] is None,
                } by {
                lemma_rect_key(index_offset, index_size, q, p);
                assert(tiles@.take(j + 1).drop_last() =~= tiles@.take(j as int));
                assert(tiles@.take(j + 1).last() == tiles@[j as int]);
            }
            j += 1;
        }
        let rendered_next_tile = render_range(&next_tile, 0, next_tile.len());
        let segments_len = segments.len();
        assert(next_tile@.subrange(0, next_tile@.len() as int) =~= next_tile@);
        let board = Board {
            index_offset,
            index_size,
            tile_index,
            rendered_tiles,
            segments,
            next_tile,
            rendered_next_tile,
        };
        assert(tiles@.take(n as int) =~= tiles@);
        proof {
            lemma_rect_key(index_offset, index_size, origin(), origin());
            assert(board.has_tile(origin()));
            assert forall|p: Pos| #[trigger] board.tile_at(p) is Some implies {
                &&& board.inner(p)
                &&& board.end_segment(p) <= board.segments@.len()
                &&& segments_wf(board.tile_segments(p), p)
            } by {
                lemma_last_index(tiles@, p);
                let li = last_index(tiles@, p);
                assert(rect_contains(index_offset, index_size, p));
                if li >= 0 {
                    assert(tiles@[li].pos == p);
                    assert(board.tile_at(p) == expected_entry(tiles@, bases@, n as int, p));
                    assert(bases@[li] + tiles@[li].segments@.len() <= segments_len);
                    assert(board.tile_segments(p) == tiles@[li].segments@);
                } else {
                    assert(board.tile_segments(p).len() == 0);
                }
            }
            assert forall|p: Pos| #[trigger] board.has_tile(p) <==> (p == origin() || last_index(tiles@, p) >= 0) by {
                lemma_last_index(tiles@, p);
                let li = last_index(tiles@, p);
                if li >= 0 {
                    assert(rect_contains(index_offset, index_size, tiles@[li].pos));
                }
            }
            assert forall|p: Pos|
                last_index(tiles@, p) >= 0 implies #[trigger] board.tile_segments(p)
                    == tiles@[last_index(tiles@, p)].segments@ by {
                lemma_last_index(tiles@, p);
                let li = last_index(tiles@, p);
                assert(rect_contains(index_offset, index_size, tiles@[li].pos));
                assert(board.tile_at(p) == expected_entry(tiles@, bases@, n as int, p));
                assert(bases@[li] + tiles@[li].segments@.len() <= segments_len);
            }
            assert forall|p: Pos|
                board.in_rect(p) implies match #[trigger] board.rendered_tiles@[board.key_of(p)] {
                    Some(a) => board.tile_at(p) is Some && renders(a, board.tile_segments(p)),
                    None => board.tile_at(p) is None,
                } by {
                assert(rect_contains(index_offset, index_size, p));
            }
            let vs = tile_views(tiles@);
            assert(tile_views(tiles@.take(n as int)) == vs);
            assert forall|p: Pos| #[trigger] board.has_tile(p) <==> (p == origin() || last_at(vs, p) >= 0) by {
                lemma_last_at_views(tiles@, p);
            }
            assert forall|p: Pos| last_at(vs, p) >= 0 implies #[trigger] board.tile_segments(p) == vs[last_at(vs, p)].1 by {
                lemma_last_at_views(tiles@, p);
                lemma_last_index(tiles@, p);
            }
            lemma_last_at_views(tiles@, origin());
        }
        Ok(board)
    }
}

} // verus!
