//! The board: every placed tile's segments, a dense index from cell to
//! tile, and the upcoming tile.
use vstd::prelude::*;
use crate::data::{Segment, Terrain};
use crate::hex::{Pos, Rotation, neighbor, neighbor_pos_of, neighbors_fit};

verus! {

/// Index of a segment in the board's flat list of segments.
pub type SegmentIndex = usize;

/// Number of segments on one tile.
pub type SegmentCount = usize;

/// Index of a cell in the dense index rectangle.
pub type TileKey = usize;

/// The largest magnitude a tile coordinate may have.
pub const BOARD_LIMIT: i32 = 16384;

/// A tile as it lies on the board: its cell and its segments, each with the
/// tile's rotation already added to its own.
pub struct Tile {
    pub pos: Pos,
    pub segments: Vec<Segment>,
}

/// Why a board could not be loaded.
#[derive(PartialEq, Eq, Structural, Clone, Copy, Debug)]
pub enum LoadError {
    /// A segment names a terrain code that no terrain has.
    UnknownTerrain(i32),
    /// A segment names a form code that no form has.
    UnknownForm(i32),
    /// A lake form carries a terrain other than river.
    InvalidLakeForm(i32),
    /// A tile names a special tile that is not known.
    UnknownSpecialTile(i32),
    /// A tile names a quest tile that is not known.
    UnknownQuestTile(i32),
    /// A tile lies further than `BOARD_LIMIT` from the origin.
    BoardTooLarge,
}

/// The terrain that a tile of segments `segs` shows at direction `r`: that
/// of the last segment covering `r`, or `Empty` where none does.
pub open spec fn render(segs: Seq<Segment>, r: int) -> Terrain
    decreases segs.len(),
{
    if segs.len() == 0 {
        Terrain::Empty
    } else if segs.last().occupies(r) {
        segs.last().terrain
    } else {
        render(segs.drop_last(), r)
    }
}

/// Whether `a` lists, direction by direction, what `segs` show.
pub open spec fn renders(a: [Terrain; 6], segs: Seq<Segment>) -> bool {
    forall|r: int| 0 <= r < 6 ==> #[trigger] a@[r] == render(segs, r)
}

/// Whether the segments of a tile at `p` are fit to be placed there.
pub open spec fn segments_wf(segs: Seq<Segment>, p: Pos) -> bool {
    forall|i: int|
        0 <= i < segs.len() ==> (#[trigger] segs[i]).pos == p && segs[i].rotation < 6
            && !(segs[i].terrain is Missing)
}

/// Whether a coordinate lies within `BOARD_LIMIT` of the origin.
pub open spec fn within_limit(v: int) -> bool {
    -BOARD_LIMIT <= v <= BOARD_LIMIT
}

/// Whether a tile list can be laid out on one board.
pub open spec fn tiles_fit(tiles: Seq<Tile>) -> bool {
    forall|k: int|
        0 <= k < tiles.len() ==> within_limit((#[trigger] tiles[k]).pos.x as int)
            && within_limit(tiles[k].pos.y as int)
}

/// The segments of the last tile of `tiles` that lies at `p`.
pub open spec fn last_tile_at(tiles: Seq<Tile>, p: Pos) -> Option<Seq<Segment>>
    decreases tiles.len(),
{
    if tiles.len() == 0 {
        None
    } else if tiles.last().pos == p {
        Some(tiles.last().segments@)
    } else {
        last_tile_at(tiles.drop_last(), p)
    }
}

/// Whether `p` lies in the rectangle at `off` of extent `size`.
pub open spec fn rect_contains(off: Pos, size: Pos, p: Pos) -> bool {
    &&& off.x <= p.x < off.x + size.x
    &&& off.y <= p.y < off.y + size.y
}

/// The row-major index of `p` in the rectangle at `off` of extent `size`.
pub open spec fn rect_key(off: Pos, size: Pos, p: Pos) -> int {
    (p.y - off.y) * size.x + (p.x - off.x)
}

/// The cell every board has a tile at, and where analysis starts.
pub open spec fn origin() -> Pos {
    Pos { x: 0, y: 0 }
}

pub struct Board {
    /// The smallest coordinate of the index rectangle.
    pub index_offset: Pos,
    /// The extent of the index rectangle.
    pub index_size: Pos,
    /// For each cell of the rectangle, the tile's first segment and count.
    pub tile_index: Vec<Option<(SegmentIndex, SegmentCount)>>,
    /// For each cell of the rectangle, the terrain the tile shows per side.
    pub rendered_tiles: Vec<Option<[Terrain; 6]>>,
    /// All segments of all tiles, each tile's segments side by side.
    pub segments: Vec<Segment>,
    /// The segments of the tile to be placed next, at rotation zero.
    pub next_tile: Vec<Segment>,
    /// The terrain the next tile shows per side, at rotation zero.
    pub rendered_next_tile: [Terrain; 6],
}

/// Row-major indices of a rectangle's cells are in range and distinct.
pub proof fn lemma_rect_key(off: Pos, size: Pos, p: Pos, q: Pos)
    requires
        rect_contains(off, size, p),
        rect_contains(off, size, q),
    ensures
        0 <= rect_key(off, size, p) < size.x * size.y,
        rect_key(off, size, p) == rect_key(off, size, q) ==> p == q,
{
    let w = size.x as int;
    let h = size.y as int;
    let px = p.x - off.x;
    let py = p.y - off.y;
    let qx = q.x - off.x;
    let qy = q.y - off.y;
    assert(0 <= py * w + px < w * h) by (nonlinear_arith)
        requires
            0 <= px < w,
            0 <= py < h,
    ;
    assert(py * w + px == qy * w + qx ==> py == qy && px == qx) by (nonlinear_arith)
        requires
            0 <= px < w,
            0 <= qx < w,
            0 <= py,
            0 <= qy,
    ;
}

impl Board {
    pub open spec fn in_rect(&self, p: Pos) -> bool {
        rect_contains(self.index_offset, self.index_size, p)
    }

    /// Whether `p` lies in the rectangle with a cell of margin to spare.
    pub open spec fn inner(&self, p: Pos) -> bool {
        &&& self.index_offset.x < p.x < self.index_offset.x + self.index_size.x - 1
        &&& self.index_offset.y < p.y < self.index_offset.y + self.index_size.y - 1
    }

    pub open spec fn key_of(&self, p: Pos) -> int {
        rect_key(self.index_offset, self.index_size, p)
    }

    /// The first segment and segment count of the tile at `p`, if any.
    pub open spec fn tile_at(&self, p: Pos) -> Option<(SegmentIndex, SegmentCount)> {
        if self.in_rect(p) {
            self.tile_index@[self.key_of(p)]
        } else {
            None
        }
    }

    pub open spec fn has_tile(&self, p: Pos) -> bool {
        self.tile_at(p) is Some
    }

    /// The index of the first segment of the tile at `p`.
    pub open spec fn first_segment(&self, p: Pos) -> int {
        match self.tile_at(p) {
            Some((b, _)) => b as int,
            None => 0,
        }
    }

    /// One past the index of the last segment of the tile at `p`.
    pub open spec fn end_segment(&self, p: Pos) -> int {
        match self.tile_at(p) {
            Some((b, c)) => b + c,
            None => 0,
        }
    }

    /// Whether segment `i` belongs to the tile at `p`.
    pub open spec fn on_tile(&self, p: Pos, i: int) -> bool {
        &&& self.tile_at(p) is Some
        &&& self.first_segment(p) <= i < self.end_segment(p)
    }

    /// The segments of the tile at `p`; empty where there is none.
    pub open spec fn tile_segments(&self, p: Pos) -> Seq<Segment> {
        match self.tile_at(p) {
            Some((b, c)) => self.segments@.subrange(b as int, b + c),
            None => seq![],
        }
    }

    /// The terrain the board shows at side `r` of cell `p`; `Missing` where
    /// no tile lies.
    pub open spec fn terrain_at(&self, p: Pos, r: int) -> Terrain {
        if self.has_tile(p) {
            render(self.tile_segments(p), r)
        } else {
            Terrain::Missing
        }
    }

    pub open spec fn rect_wf(&self) -> bool {
        &&& 3 <= self.index_size.x
        &&& 3 <= self.index_size.y
        &&& i32::MIN + 2 <= self.index_offset.x
        &&& i32::MIN + 2 <= self.index_offset.y
        &&& self.index_offset.x + self.index_size.x <= i32::MAX - 2
        &&& self.index_offset.y + self.index_size.y <= i32::MAX - 2
        &&& self.tile_index@.len() == self.index_size.x * self.index_size.y
        &&& self.tile_index@.len() <= usize::MAX
        &&& self.rendered_tiles@.len() == self.tile_index@.len()
    }

    /// The map's invariant.
    pub open spec fn wf(&self) -> bool {
        &&& self.rect_wf()
        &&& self.segments@.len() <= usize::MAX
        &&& self.has_tile(origin())
        &&& forall|p: Pos| #[trigger]
            self.tile_at(p) is Some ==> {
                &&& self.inner(p)
                &&& self.end_segment(p) <= self.segments@.len()
                &&& segments_wf(self.tile_segments(p), p)
            }
        &&& forall|p: Pos|
            self.in_rect(p) ==> match #[trigger] self.rendered_tiles@[self.key_of(p)] {
                Some(a) => self.tile_at(p) is Some && renders(a, self.tile_segments(p)),
                None => self.tile_at(p) is None,
            }
        &&& forall|i: int|
            0 <= i < self.segments@.len() ==> (#[trigger] self.segments@[i]).rotation < 6
                && !(self.segments@[i].terrain is Missing)
        &&& forall|i: int|
            0 <= i < self.next_tile@.len() ==> (#[trigger] self.next_tile@[i]).rotation < 6
        &&& renders(self.rendered_next_tile, self.next_tile@)
    }

    pub proof fn lemma_key(&self, p: Pos, q: Pos)
        requires
            self.rect_wf(),
            self.in_rect(p),
            self.in_rect(q),
        ensures
            0 <= self.key_of(p) < self.tile_index@.len(),
            self.key_of(p) == self.key_of(q) ==> p == q,
    {
        lemma_rect_key(self.index_offset, self.index_size, p, q);
    }


    /// Every cell next to a tile lies in the rectangle.
    pub proof fn lemma_neighbor_in_rect(&self, p: Pos, r: int)
        requires
            self.wf(),
            self.has_tile(p),
            0 <= r < 6,
        ensures
            self.in_rect(neighbor(p, r)),
            neighbors_fit(p),
    {
    }

    /// The dense index of `pos`, where it lies in the index rectangle.
    pub fn tile_key(&self, pos: Pos) -> (r: Option<TileKey>)
        requires
            self.rect_wf(),
        ensures
            r is Some <==> self.in_rect(pos),
            r is Some ==> r->0 == self.key_of(pos) && r->0 < self.tile_index@.len(),
    {
        let ox = self.index_offset.x;
        let oy = self.index_offset.y;
        let valid_s = pos.x >= ox && (pos.x as i64) < ox as i64 + self.index_size.x as i64;
        let valid_t = pos.y >= oy && (pos.y as i64) < oy as i64 + self.index_size.y as i64;
        if valid_s && valid_t {
            proof {
                self.lemma_key(pos, pos);
            }
            let dx = (pos.x as i64 - ox as i64) as usize;
            let dy = (pos.y as i64 - oy as i64) as usize;
            let w = self.index_size.x as usize;
            let n = self.tile_index.len();
            let ghost key = self.key_of(pos);
            assert(dy * w <= dy * w + dx) by (nonlinear_arith)
                requires
                    dx >= 0,
            ;
            assert(dy * w + dx == key);
            assert(dy * w < n);
            Some(dy * w + dx)
        } else {
            None
        }
    }

    /// Whether a tile lies at `pos`.
    pub fn has(&self, pos: Pos) -> (r: bool)
        requires
            self.wf(),
        ensures
            r == self.has_tile(pos),
    {
        match self.tile_key(pos) {
            Some(key) => self.tile_index[key].is_some(),
            None => false,
        }
    }

    /// The segment indices `start..end` of the tile at `pos`, if any.
    pub fn segment_indices_at(&self, pos: Pos) -> (r: Option<(SegmentIndex, SegmentIndex)>)
        requires
            self.wf(),
        ensures
            r is Some <==> self.has_tile(pos),
            r matches Some((lo, hi)) ==> lo == self.first_segment(pos) && hi == self.end_segment(pos)
                && hi <= self.segments@.len(),
    {
        match self.tile_key(pos) {
            Some(key) => match self.tile_index[key] {
                Some((index, count)) => {
                    assert(self.tile_at(pos) == Some((index, count)));
                    assert(self.end_segment(pos) == index + count);
                    let total = self.segments.len();
                    assert(index + count <= total);
                    Some((index, index + count))
                },
                None => None,
            },
            None => None,
        }
    }

    /// The segment at `index`.
    pub fn segment(&self, segment_index: SegmentIndex) -> (r: &Segment)
        requires
            segment_index < self.segments@.len(),
        ensures
            *r == self.segments@[segment_index as int],
    {
        &self.segments[segment_index]
    }

    /// The cell next to `pos` in direction `rotation`.
    pub fn neighbor_pos_of(pos: Pos, rotation: Rotation) -> (r: Pos)
        requires
            rotation < 6,
            neighbors_fit(pos),
        ensures
            r == neighbor(pos, rotation as int),
    {
        neighbor_pos_of(pos, rotation)
    }

    /// The first segment of the tile at `pos` that covers side `rotation`.
    pub fn segment_index_at(&self, pos: Pos, rotation: Rotation) -> (r: Option<SegmentIndex>)
        requires
            self.wf(),
            rotation < 6,
        ensures
            r matches Some(i) ==> self.on_tile(pos, i as int) && self.segments@[i as int].occupies(
                rotation as int,
            ),
            r matches Some(i) ==> forall|j: int|
                self.first_segment(pos) <= j < i ==> !(#[trigger] self.segments@[j]).occupies(rotation as int),
            r is None ==> forall|j: int|
                #[trigger] self.on_tile(pos, j) ==> !self.segments@[j].occupies(rotation as int),
    {
        let (lo, hi) = match self.segment_indices_at(pos) {
            Some(range) => range,
            None => return None,
        };
        let mut i = lo;
        while i < hi
            invariant
                self.wf(),
                rotation < 6,
                self.tile_at(pos) is Some,
                lo == self.first_segment(pos),
                hi == self.end_segment(pos),
                hi <= self.segments@.len(),
                lo <= i <= hi,
                forall|j: int| lo <= j < i ==> !(#[trigger] self.segments@[j]).occupies(rotation as int),
            decreases hi - i,
        {
            proof {
                assert(self.tile_segments(pos)[i - lo] == self.segments@[i as int]);
            }
            if self.segments[i].covers(rotation) {
                return Some(i);
            }
            i += 1;
        }
        None
    }

    /// The cell at index `key` of the index rectangle.
    pub open spec fn pos_of_key(&self, key: int) -> Pos {
        Pos {
            x: (self.index_offset.x + key % (self.index_size.x as int)) as i32,
            y: (self.index_offset.y + key / (self.index_size.x as int)) as i32,
        }
    }

    /// Every index of the rectangle is the index of its cell.
    pub proof fn lemma_pos_of_key(&self, key: int)
        requires
            self.rect_wf(),
            0 <= key < self.tile_index@.len(),
        ensures
            self.in_rect(self.pos_of_key(key)),
            self.key_of(self.pos_of_key(key)) == key,
    {
        let wi = self.index_size.x as int;
        let hi = self.index_size.y as int;
        assert(key / wi < hi) by (nonlinear_arith)
            requires
                key < wi * hi,
                wi > 0,
        ;
        assert(key == (key / wi) * wi + key % wi && 0 <= key % wi < wi && 0 <= key / wi) by (nonlinear_arith)
            requires
                wi > 0,
                key >= 0,
        ;
    }

    /// The cell at index `key`: the inverse of `tile_key` on the rectangle.
    fn tile_position(&self, key: TileKey) -> (r: Pos)
        requires
            self.rect_wf(),
            key < self.tile_index@.len(),
        ensures
            r == self.pos_of_key(key as int),
            self.in_rect(r),
            self.key_of(r) == key,
    {
        let w = self.index_size.x as usize;
        proof {
            self.lemma_pos_of_key(key as int);
            let wi = w as int;
            let k = key as int;
            assert(0 <= k % wi < wi && 0 <= k / wi < self.index_size.y) by (nonlinear_arith)
                requires
                    wi > 0,
                    k >= 0,
                    k < wi * self.index_size.y,
            ;
        }
        let dx = (key % w) as i32;
        let dy = (key / w) as i32;
        Pos { x: self.index_offset.x + dx, y: self.index_offset.y + dy }
    }

    /// The cells that hold a tile, in index order.
    pub fn iter_tile_positions(&self) -> (r: Vec<Pos>)
        requires
            self.wf(),
        ensures
            forall|p: Pos| #[trigger] r@.contains(p) <==> self.has_tile(p),
            r@.no_duplicates(),
    {
        let mut r: Vec<Pos> = Vec::new();
        let mut key: usize = 0;
        while key < self.tile_index.len()
            invariant
                self.wf(),
                key <= self.tile_index@.len(),
                forall|p: Pos|
                    #[trigger] r@.contains(p) <==> (self.has_tile(p) && self.key_of(p) < key),
                r@.no_duplicates(),
            decreases self.tile_index@.len() - key,
        {
            if self.tile_index[key].is_some() {
                let p = self.tile_position(key);
                proof {
                    crate::group_assignments::lemma_push_contains(r@, p);
                    assert(!r@.contains(p));
                    assert forall|q: Pos| #[trigger] r@.push(p).contains(q) <==> (self.has_tile(q) && self.key_of(q) < key + 1) by {
                        if self.in_rect(q) {
                            self.lemma_key(q, p);
                        }
                    }
                }
                r.push(p);
            } else {
                proof {
                    assert forall|q: Pos| #[trigger] r@.contains(q) <==> (self.has_tile(q) && self.key_of(q) < key + 1) by {
                        if self.in_rect(q) && self.key_of(q) == key {
                            self.lemma_key(q, q);
                        }
                    }
                }
            }
            key += 1;
        }
        proof {
            assert forall|q: Pos| #[trigger] r@.contains(q) <==> self.has_tile(q) by {
                if self.in_rect(q) {
                    self.lemma_key(q, q);
                }
            }
        }
        r
    }

    /// The terrain the board shows at side `rotation` of cell `pos`.
    pub fn terrain_at_side(&self, pos: Pos, rotation: Rotation) -> (r: Terrain)
        requires
            self.wf(),
            rotation < 6,
        ensures
            r == self.terrain_at(pos, rotation as int),
    {
        match self.tile_key(pos) {
            Some(key) => match self.rendered_tiles[key] {
                Some(rendered) => rendered[rotation],
                None => Terrain::Missing,
            },
            None => Terrain::Missing,
        }
    }
}

} // verus!
