//! Raw tile records as a savegame holds them, and their normalization into
//! tiles whose segments carry absolute rotations.
use vstd::prelude::*;
use crate::data::{Form, Terrain, Segment};
use crate::hex::{Pos, axial_from_offset, axial_row};
use crate::load::{lays_out, tile_views};
use crate::map::{Board, Tile, LoadError, segments_wf, tiles_fit};

verus! {

/// A segment as recorded: terrain code, form code, rotation on its tile.
pub struct RawSegment {
    pub group_type: i32,
    pub segment_type: i32,
    pub rotation: i32,
}

/// A tile as recorded: offset position, rotation, and its segments given
/// either as a list, as a special tile, or as a quest tile.
pub struct RawTile {
    pub s: i32,
    pub t: i32,
    pub rotation: i32,
    pub segments: Vec<RawSegment>,
    pub special_tile_id: i32,
    pub quest_tile_id: Option<i32>,
}

/// The placed tiles and the tile to place next.
pub struct RawSaveGame {
    pub tiles: Vec<RawTile>,
    pub next_tile: RawTile,
}

/// The largest magnitude of an offset coordinate that is converted.
pub const OFFSET_LIMIT: i32 = 1048576;

/// The form a form code names.
pub open spec fn form_of_code(code: i32) -> Result<Form, LoadError> {
    if code == 1 {
        Ok(Form::Size1)
    } else if code == 2 {
        Ok(Form::Size2)
    } else if code == 3 {
        Ok(Form::Bridge)
    } else if code == 4 {
        Ok(Form::Straight)
    } else if code == 5 {
        Ok(Form::Size3)
    } else if code == 6 {
        Ok(Form::JunctionLeft)
    } else if code == 7 {
        Ok(Form::JunctionRight)
    } else if code == 8 {
        Ok(Form::ThreeWay)
    } else if code == 9 {
        Ok(Form::Size4)
    } else if code == 10 {
        Ok(Form::FanOut)
    } else if code == 11 {
        Ok(Form::X)
    } else if code == 12 {
        Ok(Form::Size5)
    } else if code == 13 {
        Ok(Form::Size6)
    } else if code == 102 {
        Ok(Form::LakeSize2)
    } else if code == 105 {
        Ok(Form::LakeSize3)
    } else if code == 109 {
        Ok(Form::LakeSize4)
    } else if code == 111 {
        Ok(Form::LakeSize5)
    } else {
        Err(LoadError::UnknownForm(code))
    }
}

/// The terrain a terrain code names.
pub open spec fn terrain_of_code(code: i32) -> Result<Terrain, LoadError> {
    if code == -1 {
        Ok(Terrain::Empty)
    } else if code == 0 {
        Ok(Terrain::House)
    } else if code == 1 {
        Ok(Terrain::Forest)
    } else if code == 2 {
        Ok(Terrain::Wheat)
    } else if code == 3 {
        Ok(Terrain::Rail)
    } else if code == 4 {
        Ok(Terrain::River)
    } else {
        Err(LoadError::UnknownTerrain(code))
    }
}

/// A river that covers a lake form, or all six sides, is a lake; lake forms
/// carry nothing but river.
pub open spec fn normalized(f: Form, t: Terrain) -> Option<(Form, Terrain)> {
    match (f, t) {
        (Form::LakeSize2, Terrain::River) => Some((Form::Size2, Terrain::Lake)),
        (Form::LakeSize3, Terrain::River) => Some((Form::Size3, Terrain::Lake)),
        (Form::LakeSize4, Terrain::River) => Some((Form::Size4, Terrain::Lake)),
        (Form::LakeSize5, Terrain::River) => Some((Form::Size5, Terrain::Lake)),
        (Form::Size6, Terrain::River) => Some((Form::Size6, Terrain::Lake)),
        (Form::LakeSize2, _) | (Form::LakeSize3, _) | (Form::LakeSize4, _) | (Form::LakeSize5, _) => None,
        _ => Some((f, t)),
    }
}

impl Form {
    /// The form that `code` names.
    pub fn from_code(code: i32) -> (r: Result<Form, LoadError>)
        ensures
            r == form_of_code(code),
    {
        match code {
            1 => Ok(Form::Size1),
            2 => Ok(Form::Size2),
            3 => Ok(Form::Bridge),
            4 => Ok(Form::Straight),
            5 => Ok(Form::Size3),
            6 => Ok(Form::JunctionLeft),
            7 => Ok(Form::JunctionRight),
            8 => Ok(Form::ThreeWay),
            9 => Ok(Form::Size4),
            10 => Ok(Form::FanOut),
            11 => Ok(Form::X),
            12 => Ok(Form::Size5),
            13 => Ok(Form::Size6),
            102 => Ok(Form::LakeSize2),
            105 => Ok(Form::LakeSize3),
            109 => Ok(Form::LakeSize4),
            111 => Ok(Form::LakeSize5),
            other => Err(LoadError::UnknownForm(other)),
        }
    }
}

impl Terrain {
    /// The terrain that `code` names.
    pub fn from_code(code: i32) -> (r: Result<Terrain, LoadError>)
        ensures
            r == terrain_of_code(code),
    {
        match code {
            -1 => Ok(Terrain::Empty),
            0 => Ok(Terrain::House),
            1 => Ok(Terrain::Forest),
            2 => Ok(Terrain::Wheat),
            3 => Ok(Terrain::Rail),
            4 => Ok(Terrain::River),
            other => Err(LoadError::UnknownTerrain(other)),
        }
    }
}

/// Folds river forms that only a lake can have into lakes.
pub fn normalize(f: Form, t: Terrain) -> (r: Option<(Form, Terrain)>)
    ensures
        r == normalized(f, t),
{
    match (f, t) {
        (Form::LakeSize2, Terrain::River) => Some((Form::Size2, Terrain::Lake)),
        (Form::LakeSize3, Terrain::River) => Some((Form::Size3, Terrain::Lake)),
        (Form::LakeSize4, Terrain::River) => Some((Form::Size4, Terrain::Lake)),
        (Form::LakeSize5, Terrain::River) => Some((Form::Size5, Terrain::Lake)),
        (Form::Size6, Terrain::River) => Some((Form::Size6, Terrain::Lake)),
        (Form::LakeSize2, _) | (Form::LakeSize3, _) | (Form::LakeSize4, _) | (Form::LakeSize5, _) => None,
        _ => Some((f, t)),
    }
}

/// The segment a raw segment becomes on a tile at `pos` turned by `rot`.
pub open spec fn segment_of_raw(raw: RawSegment, pos: Pos, rot: int) -> Result<Segment, LoadError> {
    match form_of_code(raw.segment_type) {
        Err(e) => Err(e),
        Ok(f) => match terrain_of_code(raw.group_type) {
            Err(e) => Err(e),
            Ok(t) => match normalized(f, t) {
                None => Err(LoadError::InvalidLakeForm(raw.segment_type)),
                Some((f2, t2)) => Ok(
                    Segment { pos, form: f2, terrain: t2, rotation: ((raw.rotation + rot) % 6) as usize },
                ),
            },
        },
    }
}

/// The segments raw segments become, or the first error among them.
pub open spec fn segments_of_raw(raws: Seq<RawSegment>, pos: Pos, rot: int) -> Result<Seq<Segment>, LoadError>
    decreases raws.len(),
{
    if raws.len() == 0 {
        Ok(seq![])
    } else {
        match segments_of_raw(raws.drop_last(), pos, rot) {
            Err(e) => Err(e),
            Ok(s) => match segment_of_raw(raws.last(), pos, rot) {
                Err(e) => Err(e),
                Ok(x) => Ok(s.push(x)),
            },
        }
    }
}

pub open spec fn quest_tile_parts(id: i32) -> Option<Seq<(Form, Terrain, usize)>> {
    if id == 2 || id == 3 || id == 4 || id == 5 {
        Some(seq![(Form::Size2, Terrain::Wheat, 5usize), (Form::Size4, Terrain::Forest, 1usize)])
    } else if id == 92 {
        Some(seq![(Form::Size2, Terrain::Wheat, 0usize)])
    } else if id == 1 {
        Some(seq![(Form::Size2, Terrain::Wheat, 0usize), (Form::Size2, Terrain::House, 2usize), (Form::Size1, Terrain::House, 5usize)])
    } else if id == 6 || id == 7 || id == 8 {
        Some(seq![(Form::Size3, Terrain::Wheat, 3usize), (Form::Size1, Terrain::House, 0usize)])
    } else if id == 9 || id == 10 {
        Some(seq![(Form::Size4, Terrain::Wheat, 0usize), (Form::Size2, Terrain::Forest, 4usize)])
    } else if id == 11 || id == 12 {
        Some(seq![(Form::X, Terrain::Wheat, 0usize), (Form::Size1, Terrain::Forest, 2usize), (Form::Size1, Terrain::Forest, 5usize)])
    } else if id == 13 || id == 14 || id == 15 {
        Some(seq![(Form::Size6, Terrain::Wheat, 0usize)])
    } else if id == 16 || id == 19 || id == 65 || id == 66 {
        Some(seq![(Form::Size1, Terrain::Forest, 0usize)])
    } else if id == 67 || id == 68 || id == 69 || id == 70 {
        Some(seq![(Form::Size2, Terrain::Forest, 0usize)])
    } else if id == 20 || id == 21 || id == 71 || id == 72 {
        Some(seq![(Form::Size3, Terrain::Forest, 0usize)])
    } else if id == 22 || id == 73 {
        Some(seq![(Form::Size4, Terrain::Forest, 0usize)])
    } else if id == 23 || id == 24 || id == 74 || id == 75 || id == 76 {
        Some(seq![(Form::Size6, Terrain::Forest, 0usize)])
    } else if id == 17 || id == 18 {
        Some(seq![(Form::Size1, Terrain::Forest, 3usize), (Form::Size2, Terrain::Lake, 0usize)])
    } else if id == 33 {
        Some(seq![(Form::Size2, Terrain::House, 0usize)])
    } else if id == 35 || id == 38 {
        Some(seq![(Form::Size3, Terrain::House, 0usize)])
    } else if id == 34 || id == 36 || id == 37 || id == 80 {
        Some(seq![(Form::Size3, Terrain::House, 0usize), (Form::Size3, Terrain::Forest, 3usize)])
    } else if id == 39 || id == 40 || id == 41 || id == 84 {
        Some(seq![(Form::FanOut, Terrain::House, 4usize), (Form::Size1, Terrain::Forest, 1usize), (Form::Size1, Terrain::Forest, 3usize)])
    } else if id == 85 || id == 86 {
        Some(seq![(Form::Size5, Terrain::House, 0usize), (Form::Size1, Terrain::Forest, 5usize)])
    } else if id == 42 || id == 43 || id == 44 {
        Some(seq![(Form::Size6, Terrain::House, 0usize)])
    } else if id == 25 {
        Some(seq![(Form::Bridge, Terrain::Rail, 0usize), (Form::Size1, Terrain::Wheat, 1usize), (Form::Size2, Terrain::Wheat, 4usize)])
    } else if id == 26 {
        Some(seq![(Form::Bridge, Terrain::Rail, 0usize), (Form::Size1, Terrain::Forest, 1usize), (Form::Size3, Terrain::Forest, 3usize)])
    } else if id == 27 {
        Some(seq![(Form::Bridge, Terrain::Rail, 0usize), (Form::Size1, Terrain::House, 1usize), (Form::Size3, Terrain::House, 3usize)])
    } else if id == 28 || id == 29 {
        Some(seq![(Form::Straight, Terrain::Rail, 0usize), (Form::Size1, Terrain::Forest, 1usize), (Form::Size1, Terrain::House, 4usize)])
    } else if id == 30 || id == 31 {
        Some(seq![(Form::Straight, Terrain::Rail, 0usize)])
    } else if id == 45 || id == 46 {
        Some(seq![(Form::Bridge, Terrain::River, 0usize), (Form::Size1, Terrain::Forest, 1usize), (Form::Size3, Terrain::Forest, 3usize)])
    } else if id == 47 || id == 54 || id == 58 {
        Some(seq![(Form::Straight, Terrain::River, 0usize)])
    } else if id == 49 || id == 50 {
        Some(seq![(Form::Straight, Terrain::River, 0usize), (Form::Size2, Terrain::Wheat, 1usize), (Form::Size1, Terrain::House, 5usize)])
    } else if id == 51 || id == 52 {
        Some(seq![(Form::Straight, Terrain::River, 0usize), (Form::Size2, Terrain::Forest, 1usize), (Form::Size1, Terrain::Wheat, 4usize)])
    } else if id == 87 || id == 88 {
        Some(seq![(Form::Straight, Terrain::River, 0usize), (Form::Size2, Terrain::Forest, 1usize), (Form::Size2, Terrain::Wheat, 4usize)])
    } else if id == 48 {
        Some(seq![(Form::Straight, Terrain::River, 0usize), (Form::Size2, Terrain::House, 1usize), (Form::Size1, Terrain::House, 5usize)])
    } else if id == 53 {
        Some(seq![(Form::Straight, Terrain::River, 0usize), (Form::Size2, Terrain::House, 1usize), (Form::Size2, Terrain::House, 4usize)])
    } else if id == 59 || id == 89 || id == 60 {
        Some(seq![(Form::Size3, Terrain::Lake, 0usize), (Form::Size3, Terrain::Forest, 3usize)])
    } else if id == 61 || id == 62 || id == 90 {
        Some(seq![(Form::Size4, Terrain::Lake, 0usize), (Form::Size2, Terrain::Forest, 4usize)])
    } else if id == 55 || id == 63 || id == 64 || id == 56 || id == 91 {
        Some(seq![(Form::Size6, Terrain::Lake, 0usize)])
    } else if id == 57 {
        Some(seq![(Form::Size6, Terrain::Station, 0usize)])
    } else {
        None
    }
}

/// The segments of quest or fixed parts on a tile at `pos` turned by `rot`.
pub open spec fn segments_of_parts(parts: Seq<(Form, Terrain, usize)>, pos: Pos, rot: int) -> Seq<Segment> {
    parts.map_values(
        |p: (Form, Terrain, usize)| Segment { pos, form: p.0, terrain: p.1, rotation: ((p.2 + rot) % 6) as usize },
    )
}

/// Whether a raw tile's rotations are valid.
pub open spec fn raw_tile_wf(raw: RawTile) -> bool {
    &&& raw.rotation >= 0
    &&& forall|i: int| 0 <= i < raw.segments@.len() ==> (#[trigger] raw.segments@[i]).rotation >= 0
}

/// The axial cell of a raw tile.
pub open spec fn raw_pos(raw: RawTile) -> Pos {
    Pos { x: raw.s, y: axial_row(raw.s as int, raw.t as int) as i32 }
}

/// What a raw tile becomes.
pub open spec fn tile_of_raw(raw: RawTile) -> Result<(Pos, Seq<Segment>), LoadError> {
    let pos = raw_pos(raw);
    let rot = raw.rotation as int % 6;
    if !(-OFFSET_LIMIT <= raw.s <= OFFSET_LIMIT && -OFFSET_LIMIT <= raw.t <= OFFSET_LIMIT) {
        Err(LoadError::BoardTooLarge)
    } else {
        match raw.quest_tile_id {
            Some(q) => match quest_tile_parts(q) {
                None => Err(LoadError::UnknownQuestTile(q)),
                Some(parts) => Ok((pos, segments_of_parts(parts, pos, rot))),
            },
            None => if raw.special_tile_id == 0 {
                match segments_of_raw(raw.segments@, pos, rot) {
                    Err(e) => Err(e),
                    Ok(s) => Ok((pos, s)),
                }
            } else if raw.special_tile_id == 1 {
                Ok((pos, seq![Segment { pos, form: Form::Size6, terrain: Terrain::Station, rotation: rot as usize }]))
            } else {
                Err(LoadError::UnknownSpecialTile(raw.special_tile_id))
            },
        }
    }
}

/// The parts of quest tile `id`: form, terrain and rotation of each
/// segment, before the tile's own rotation.
pub fn quest_tile_parts_of(id: i32) -> (r: Option<Vec<(Form, Terrain, usize)>>)
    ensures
        r is None <==> quest_tile_parts(id) is None,
        r matches Some(v) ==> v@ == quest_tile_parts(id)->0,
{
    let mut parts: Vec<(Form, Terrain, usize)> = Vec::new();
    match id {
        2 | 3 | 4 | 5 => {
            parts.push((Form::Size2, Terrain::Wheat, 5));
            parts.push((Form::Size4, Terrain::Forest, 1));
            assert(parts@ =~= seq![(Form::Size2, Terrain::Wheat, 5usize), (Form::Size4, Terrain::Forest, 1usize)]);
        },
        92 => {
            parts.push((Form::Size2, Terrain::Wheat, 0));
            assert(parts@ =~= seq![(Form::Size2, Terrain::Wheat, 0usize)]);
        },
        1 => {
            parts.push((Form::Size2, Terrain::Wheat, 0));
            parts.push((Form::Size2, Terrain::House, 2));
            parts.push((Form::Size1, Terrain::House, 5));
            assert(parts@ =~= seq![(Form::Size2, Terrain::Wheat, 0usize), (Form::Size2, Terrain::House, 2usize), (Form::Size1, Terrain::House, 5usize)]);
        },
        6 | 7 | 8 => {
            parts.push((Form::Size3, Terrain::Wheat, 3));
            parts.push((Form::Size1, Terrain::House, 0));
            assert(parts@ =~= seq![(Form::Size3, Terrain::Wheat, 3usize), (Form::Size1, Terrain::House, 0usize)]);
        },
        9 | 10 => {
            parts.push((Form::Size4, Terrain::Wheat, 0));
            parts.push((Form::Size2, Terrain::Forest, 4));
            assert(parts@ =~= seq![(Form::Size4, Terrain::Wheat, 0usize), (Form::Size2, Terrain::Forest, 4usize)]);
        },
        11 | 12 => {
            parts.push((Form::X, Terrain::Wheat, 0));
            parts.push((Form::Size1, Terrain::Forest, 2));
            parts.push((Form::Size1, Terrain::Forest, 5));
            assert(parts@ =~= seq![(Form::X, Terrain::Wheat, 0usize), (Form::Size1, Terrain::Forest, 2usize), (Form::Size1, Terrain::Forest, 5usize)]);
        },
        13 | 14 | 15 => {
            parts.push((Form::Size6, Terrain::Wheat, 0));
            assert(parts@ =~= seq![(Form::Size6, Terrain::Wheat, 0usize)]);
        },
        16 | 19 | 65 | 66 => {
            parts.push((Form::Size1, Terrain::Forest, 0));
            assert(parts@ =~= seq![(Form::Size1, Terrain::Forest, 0usize)]);
        },
        67 | 68 | 69 | 70 => {
            parts.push((Form::Size2, Terrain::Forest, 0));
            assert(parts@ =~= seq![(Form::Size2, Terrain::Forest, 0usize)]);
        },
        20 | 21 | 71 | 72 => {
            parts.push((Form::Size3, Terrain::Forest, 0));
            assert(parts@ =~= seq![(Form::Size3, Terrain::Forest, 0usize)]);
        },
        22 | 73 => {
            parts.push((Form::Size4, Terrain::Forest, 0));
            assert(parts@ =~= seq![(Form::Size4, Terrain::Forest, 0usize)]);
        },
        23 | 24 | 74 | 75 | 76 => {
            parts.push((Form::Size6, Terrain::Forest, 0));
            assert(parts@ =~= seq![(Form::Size6, Terrain::Forest, 0usize)]);
        },
        17 | 18 => {
            parts.push((Form::Size1, Terrain::Forest, 3));
            parts.push((Form::Size2, Terrain::Lake, 0));
            assert(parts@ =~= seq![(Form::Size1, Terrain::Forest, 3usize), (Form::Size2, Terrain::Lake, 0usize)]);
        },
        33 => {
            parts.push((Form::Size2, Terrain::House, 0));
            assert(parts@ =~= seq![(Form::Size2, Terrain::House, 0usize)]);
        },
        35 | 38 => {
            parts.push((Form::Size3, Terrain::House, 0));
            assert(parts@ =~= seq![(Form::Size3, Terrain::House, 0usize)]);
        },
        34 | 36 | 37 | 80 => {
            parts.push((Form::Size3, Terrain::House, 0));
            parts.push((Form::Size3, Terrain::Forest, 3));
            assert(parts@ =~= seq![(Form::Size3, Terrain::House, 0usize), (Form::Size3, Terrain::Forest, 3usize)]);
        },
        39 | 40 | 41 | 84 => {
            parts.push((Form::FanOut, Terrain::House, 4));
            parts.push((Form::Size1, Terrain::Forest, 1));
            parts.push((Form::Size1, Terrain::Forest, 3));
            assert(parts@ =~= seq![(Form::FanOut, Terrain::House, 4usize), (Form::Size1, Terrain::Forest, 1usize), (Form::Size1, Terrain::Forest, 3usize)]);
        },
        85 | 86 => {
            parts.push((Form::Size5, Terrain::House, 0));
            parts.push((Form::Size1, Terrain::Forest, 5));
            assert(parts@ =~= seq![(Form::Size5, Terrain::House, 0usize), (Form::Size1, Terrain::Forest, 5usize)]);
        },
        42 | 43 | 44 => {
            parts.push((Form::Size6, Terrain::House, 0));
            assert(parts@ =~= seq![(Form::Size6, Terrain::House, 0usize)]);
        },
        25 => {
            parts.push((Form::Bridge, Terrain::Rail, 0));
            parts.push((Form::Size1, Terrain::Wheat, 1));
            parts.push((Form::Size2, Terrain::Wheat, 4));
            assert(parts@ =~= seq![(Form::Bridge, Terrain::Rail, 0usize), (Form::Size1, Terrain::Wheat, 1usize), (Form::Size2, Terrain::Wheat, 4usize)]);
        },
        26 => {
            parts.push((Form::Bridge, Terrain::Rail, 0));
            parts.push((Form::Size1, Terrain::Forest, 1));
            parts.push((Form::Size3, Terrain::Forest, 3));
            assert(parts@ =~= seq![(Form::Bridge, Terrain::Rail, 0usize), (Form::Size1, Terrain::Forest, 1usize), (Form::Size3, Terrain::Forest, 3usize)]);
        },
        27 => {
            parts.push((Form::Bridge, Terrain::Rail, 0));
            parts.push((Form::Size1, Terrain::House, 1));
            parts.push((Form::Size3, Terrain::House, 3));
            assert(parts@ =~= seq![(Form::Bridge, Terrain::Rail, 0usize), (Form::Size1, Terrain::House, 1usize), (Form::Size3, Terrain::House, 3usize)]);
        },
        28 | 29 => {
            parts.push((Form::Straight, Terrain::Rail, 0));
            parts.push((Form::Size1, Terrain::Forest, 1));
            parts.push((Form::Size1, Terrain::House, 4));
            assert(parts@ =~= seq![(Form::Straight, Terrain::Rail, 0usize), (Form::Size1, Terrain::Forest, 1usize), (Form::Size1, Terrain::House, 4usize)]);
        },
        30 | 31 => {
            parts.push((Form::Straight, Terrain::Rail, 0));
            assert(parts@ =~= seq![(Form::Straight, Terrain::Rail, 0usize)]);
        },
        45 | 46 => {
            parts.push((Form::Bridge, Terrain::River, 0));
            parts.push((Form::Size1, Terrain::Forest, 1));
            parts.push((Form::Size3, Terrain::Forest, 3));
            assert(parts@ =~= seq![(Form::Bridge, Terrain::River, 0usize), (Form::Size1, Terrain::Forest, 1usize), (Form::Size3, Terrain::Forest, 3usize)]);
        },
        47 | 54 | 58 => {
            parts.push((Form::Straight, Terrain::River, 0));
            assert(parts@ =~= seq![(Form::Straight, Terrain::River, 0usize)]);
        },
        49 | 50 => {
            parts.push((Form::Straight, Terrain::River, 0));
            parts.push((Form::Size2, Terrain::Wheat, 1));
            parts.push((Form::Size1, Terrain::House, 5));
            assert(parts@ =~= seq![(Form::Straight, Terrain::River, 0usize), (Form::Size2, Terrain::Wheat, 1usize), (Form::Size1, Terrain::House, 5usize)]);
        },
        51 | 52 => {
            parts.push((Form::Straight, Terrain::River, 0));
            parts.push((Form::Size2, Terrain::Forest, 1));
            parts.push((Form::Size1, Terrain::Wheat, 4));
            assert(parts@ =~= seq![(Form::Straight, Terrain::River, 0usize), (Form::Size2, Terrain::Forest, 1usize), (Form::Size1, Terrain::Wheat, 4usize)]);
        },
        87 | 88 => {
            parts.push((Form::Straight, Terrain::River, 0));
            parts.push((Form::Size2, Terrain::Forest, 1));
            parts.push((Form::Size2, Terrain::Wheat, 4));
            assert(parts@ =~= seq![(Form::Straight, Terrain::River, 0usize), (Form::Size2, Terrain::Forest, 1usize), (Form::Size2, Terrain::Wheat, 4usize)]);
        },
        48 => {
            parts.push((Form::Straight, Terrain::River, 0));
            parts.push((Form::Size2, Terrain::House, 1));
            parts.push((Form::Size1, Terrain::House, 5));
            assert(parts@ =~= seq![(Form::Straight, Terrain::River, 0usize), (Form::Size2, Terrain::House, 1usize), (Form::Size1, Terrain::House, 5usize)]);
        },
        53 => {
            parts.push((Form::Straight, Terrain::River, 0));
            parts.push((Form::Size2, Terrain::House, 1));
            parts.push((Form::Size2, Terrain::House, 4));
            assert(parts@ =~= seq![(Form::Straight, Terrain::River, 0usize), (Form::Size2, Terrain::House, 1usize), (Form::Size2, Terrain::House, 4usize)]);
        },
        59 | 89 | 60 => {
            parts.push((Form::Size3, Terrain::Lake, 0));
            parts.push((Form::Size3, Terrain::Forest, 3));
            assert(parts@ =~= seq![(Form::Size3, Terrain::Lake, 0usize), (Form::Size3, Terrain::Forest, 3usize)]);
        },
        61 | 62 | 90 => {
            parts.push((Form::Size4, Terrain::Lake, 0));
            parts.push((Form::Size2, Terrain::Forest, 4));
            assert(parts@ =~= seq![(Form::Size4, Terrain::Lake, 0usize), (Form::Size2, Terrain::Forest, 4usize)]);
        },
        55 | 63 | 64 | 56 | 91 => {
            parts.push((Form::Size6, Terrain::Lake, 0));
            assert(parts@ =~= seq![(Form::Size6, Terrain::Lake, 0usize)]);
        },
        57 => {
            parts.push((Form::Size6, Terrain::Station, 0));
            assert(parts@ =~= seq![(Form::Size6, Terrain::Station, 0usize)]);
        },
        _ => {
            return None;
        },
    }
    Some(parts)
}

impl Segment {
    /// The segment `raw` becomes on a tile at `pos` turned by `tile_rotation`.
    pub fn from_raw(raw: &RawSegment, pos: Pos, tile_rotation: usize) -> (r: Result<Segment, LoadError>)
        requires
            raw.rotation >= 0,
            tile_rotation < 6,
        ensures
            r == segment_of_raw(*raw, pos, tile_rotation as int),
    {
        let form = match Form::from_code(raw.segment_type) {
            Ok(f) => f,
            Err(e) => return Err(e),
        };
        let terrain = match Terrain::from_code(raw.group_type) {
            Ok(t) => t,
            Err(e) => return Err(e),
        };
        match normalize(form, terrain) {
            None => Err(LoadError::InvalidLakeForm(raw.segment_type)),
            Some((f, t)) => {
                let rotation = ((raw.rotation % 6) as usize + tile_rotation) % 6;
                Ok(Segment { pos, form: f, terrain: t, rotation })
            },
        }
    }
}

/// The segments of quest tile `id` on a tile at `pos` turned by `rotation`.
pub fn segments_from_quest_tile(pos: Pos, id: i32, rotation: usize) -> (r: Result<Vec<Segment>, LoadError>)
    requires
        rotation < 6,
    ensures
        r is Err <==> quest_tile_parts(id) is None,
        r is Err ==> r == Err::<Vec<Segment>, LoadError>(LoadError::UnknownQuestTile(id)),
        r matches Ok(v) ==> v@ == segments_of_parts(quest_tile_parts(id)->0, pos, rotation as int),
{
    let parts = match quest_tile_parts_of(id) {
        Some(p) => p,
        None => return Err(LoadError::UnknownQuestTile(id)),
    };
    let ghost want = segments_of_parts(parts@, pos, rotation as int);
    let mut segments: Vec<Segment> = Vec::new();
    let mut i: usize = 0;
    while i < parts.len()
        invariant
            i <= parts@.len(),
            rotation < 6,
            want == segments_of_parts(parts@, pos, rotation as int),
            segments@ == want.take(i as int),
        decreases parts@.len() - i,
    {
        let (form, terrain, local) = parts[i];
        segments.push(Segment { pos, form, terrain, rotation: (local % 6 + rotation) % 6 });
        assert(segments@ =~= want.take(i + 1));
        i += 1;
    }
    assert(want.take(i as int) =~= want);
    Ok(segments)
}

/// The segments of special tile `id` on a tile at `pos` turned by
/// `rotation`: the station is the one special tile.
pub fn segments_from_special_tile_id(pos: Pos, id: i32, rotation: usize) -> (r: Result<Vec<Segment>, LoadError>)
    requires
        rotation < 6,
    ensures
        id == 1 ==> (r matches Ok(v) && v@ == seq![
            (Segment { pos, form: Form::Size6, terrain: Terrain::Station, rotation }),
        ]),
        id != 1 ==> r == Err::<Vec<Segment>, LoadError>(LoadError::UnknownSpecialTile(id)),
{
    if id == 1 {
        let mut v: Vec<Segment> = Vec::new();
        v.push(Segment { pos, form: Form::Size6, terrain: Terrain::Station, rotation });
        assert(v@ =~= seq![Segment { pos, form: Form::Size6, terrain: Terrain::Station, rotation }]);
        Ok(v)
    } else {
        Err(LoadError::UnknownSpecialTile(id))
    }
}

/// Turns a raw tile into its cell and segments, each segment's rotation
/// made absolute.
pub fn load_tile(raw: &RawTile) -> (r: Result<Tile, LoadError>)
    requires
        raw_tile_wf(*raw),
    ensures
        r is Err <==> tile_of_raw(*raw) is Err,
        r matches Err(e) ==> tile_of_raw(*raw) == Err::<(Pos, Seq<Segment>), LoadError>(e),
        r matches Ok(t) ==> tile_of_raw(*raw) == Ok::<(Pos, Seq<Segment>), LoadError>((t.pos, t.segments@)),
{
    if raw.s < -OFFSET_LIMIT || raw.s > OFFSET_LIMIT || raw.t < -OFFSET_LIMIT || raw.t > OFFSET_LIMIT {
        return Err(LoadError::BoardTooLarge);
    }
    let pos = axial_from_offset(raw.s, raw.t);
    proof {
        assert(pos == raw_pos(*raw));
    }
    let rotation = (raw.rotation % 6) as usize;
    match raw.quest_tile_id {
        Some(q) => {
            let segments = segments_from_quest_tile(pos, q, rotation);
            match segments {
                Ok(v) => Ok(Tile { pos, segments: v }),
                Err(e) => Err(e),
            }
        },
        None => {
            if raw.special_tile_id != 0 {
                match segments_from_special_tile_id(pos, raw.special_tile_id, rotation) {
                    Ok(v) => Ok(Tile { pos, segments: v }),
                    Err(e) => Err(e),
                }
            } else {
                let mut segments: Vec<Segment> = Vec::new();
                let mut i: usize = 0;
                while i < raw.segments.len()
                    invariant
                        i <= raw.segments@.len(),
                        rotation < 6,
                        rotation == raw.rotation % 6,
                        raw_tile_wf(*raw),
                        raw.quest_tile_id is None,
                        raw.special_tile_id == 0,
                        pos == raw_pos(*raw),
                        -OFFSET_LIMIT <= raw.s <= OFFSET_LIMIT,
                        -OFFSET_LIMIT <= raw.t <= OFFSET_LIMIT,
                        segments_of_raw(raw.segments@.take(i as int), pos, rotation as int) == Ok::<Seq<Segment>, LoadError>(segments@),
                    decreases raw.segments@.len() - i,
                {
                    assert(raw.segments@.take(i + 1).drop_last() =~= raw.segments@.take(i as int));
                    match Segment::from_raw(&raw.segments[i], pos, rotation) {
                        Ok(seg) => {
                            assert(raw.segments@.take(i + 1).last() == raw.segments@[i as int]);
                            segments.push(seg);
                        },
                        Err(e) => {
                            proof {
                                assert(raw.segments@.take(i + 1).last() == raw.segments@[i as int]);
                                assert(segments_of_raw(raw.segments@.take(i + 1), pos, rotation as int) == Err::<Seq<Segment>, LoadError>(e));
                                lemma_raw_error_stays(raw.segments@, i as int + 1, pos, rotation as int);
                            }
                            return Err(e);
                        },
                    }
                    i += 1;
                }
                assert(raw.segments@.take(i as int) =~= raw.segments@);
                Ok(Tile { pos, segments })
            }
        },
    }
}

/// An error among the first `n` raw segments is the error of them all.
pub proof fn lemma_raw_error_stays(raws: Seq<RawSegment>, n: int, pos: Pos, rot: int)
    requires
        0 <= n <= raws.len(),
        segments_of_raw(raws.take(n), pos, rot) is Err,
    ensures
        segments_of_raw(raws, pos, rot) == segments_of_raw(raws.take(n), pos, rot),
    decreases raws.len() - n,
{
    if n < raws.len() {
        assert(raws.take(n + 1).drop_last() =~= raws.take(n));
        lemma_raw_error_stays(raws, n + 1, pos, rot);
    } else {
        assert(raws.take(n) =~= raws);
    }
}

/// The tiles raw tiles become, or the first error among them.
pub open spec fn tiles_of_raw(raws: Seq<RawTile>) -> Result<Seq<(Pos, Seq<Segment>)>, LoadError>
    decreases raws.len(),
{
    if raws.len() == 0 {
        Ok(seq![])
    } else {
        match tiles_of_raw(raws.drop_last()) {
            Err(e) => Err(e),
            Ok(s) => match tile_of_raw(raws.last()) {
                Err(e) => Err(e),
                Ok(t) => Ok(s.push(t)),
            },
        }
    }
}

/// Whether every loaded tile lies within `BOARD_LIMIT` of the origin.
pub open spec fn loaded_fit(ls: Seq<(Pos, Seq<Segment>)>) -> bool {
    forall|k: int|
        0 <= k < ls.len() ==> crate::map::within_limit((#[trigger] ls[k]).0.x as int)
            && crate::map::within_limit(ls[k].0.y as int)
}

pub proof fn lemma_segments_of_raw_wf(raws: Seq<RawSegment>, pos: Pos, rot: int)
    requires
        segments_of_raw(raws, pos, rot) is Ok,
        0 <= rot < 6,
        forall|i: int| 0 <= i < raws.len() ==> (#[trigger] raws[i]).rotation >= 0,
    ensures
        segments_wf(segments_of_raw(raws, pos, rot)->Ok_0, pos),
        segments_of_raw(raws, pos, rot)->Ok_0.len() == raws.len(),
    decreases raws.len(),
{
    if raws.len() > 0 {
        let front = raws.drop_last();
        assert forall|i: int| 0 <= i < front.len() implies (#[trigger] front[i]).rotation >= 0 by {
            assert(front[i] == raws[i]);
        }
        lemma_segments_of_raw_wf(front, pos, rot);
        assert(raws.last() == raws[raws.len() - 1]);
    }
}

pub proof fn lemma_tile_of_raw_wf(raw: RawTile)
    requires
        raw_tile_wf(raw),
        tile_of_raw(raw) is Ok,
    ensures
        segments_wf(tile_of_raw(raw)->Ok_0.1, tile_of_raw(raw)->Ok_0.0),
{
    let rot = raw.rotation as int % 6;
    let pos = raw_pos(raw);
    if raw.quest_tile_id is None && raw.special_tile_id == 0 {
        lemma_segments_of_raw_wf(raw.segments@, pos, rot);
    } else if raw.quest_tile_id is Some {
        let parts = quest_tile_parts(raw.quest_tile_id->0)->0;
        assert forall|i: int| 0 <= i < parts.len() implies !((#[trigger] parts[i]).1 is Missing) by {
        }
    }
}

impl Board {
    /// Loads a savegame: normalizes every raw tile and lays the tiles out,
    /// with the raw next tile as the tile to place next.
    pub fn load(savegame: &RawSaveGame) -> (r: Result<Board, LoadError>)
        requires
            forall|k: int| 0 <= k < savegame.tiles@.len() ==> raw_tile_wf(#[trigger] savegame.tiles@[k]),
            raw_tile_wf(savegame.next_tile),
        ensures
            tiles_of_raw(savegame.tiles@) matches Err(e) ==> r == Err::<Board, LoadError>(e),
            tiles_of_raw(savegame.tiles@) is Ok ==> (tile_of_raw(savegame.next_tile) matches Err(e) ==> r
                == Err::<Board, LoadError>(e)),
            tiles_of_raw(savegame.tiles@) matches Ok(ls) ==> (tile_of_raw(savegame.next_tile) matches Ok(nt) ==> {
                &&& r is Err <==> !loaded_fit(ls)
                &&& r is Err ==> r == Err::<Board, LoadError>(LoadError::BoardTooLarge)
                &&& r matches Ok(b) ==> {
                    &&& b.wf()
                    &&& b.next_tile@ == nt.1
                    &&& lays_out(b, ls)
                    &&& forall|p: Pos| #[trigger] b.has_tile(p) <==> (p == crate::map::origin() || exists|k: int|
                        0 <= k < ls.len() && ls[k].0 == p)
                }
            }),
    {
        let raws = &savegame.tiles;
        let mut tiles: Vec<Tile> = Vec::new();
        let mut i: usize = 0;
        while i < raws.len()
            invariant
                i <= raws@.len(),
                raws@ == savegame.tiles@,
                forall|k: int| 0 <= k < raws@.len() ==> raw_tile_wf(#[trigger] raws@[k]),
                tiles_of_raw(raws@.take(i as int)) matches Ok(ls) && ls.len() == tiles@.len() && forall|k: int|
                    0 <= k < ls.len() ==> (#[trigger] ls[k]).0 == tiles@[k].pos && ls[k].1 == tiles@[k].segments@,
                forall|k: int|
                    0 <= k < tiles@.len() ==> segments_wf((#[trigger] tiles@[k]).segments@, tiles@[k].pos),
            decreases raws@.len() - i,
        {
            assert(raws@.take(i + 1).drop_last() =~= raws@.take(i as int));
            assert(raws@.take(i + 1).last() == raws@[i as int]);
            match load_tile(&raws[i]) {
                Ok(tile) => {
                    proof {
                        lemma_tile_of_raw_wf(raws@[i as int]);
                    }
                    let ghost prev = tiles@;
                    tiles.push(tile);
                    proof {
                        let ls = tiles_of_raw(raws@.take(i + 1))->Ok_0;
                        assert forall|k: int| 0 <= k < ls.len() implies (#[trigger] ls[k]).0 == tiles@[k].pos && ls[k].1 == tiles@[k].segments@ by {
                            if k < prev.len() {
                                assert(tiles@[k] == prev[k]);
                            }
                        }
                        assert forall|k: int| 0 <= k < tiles@.len() implies segments_wf((#[trigger] tiles@[k]).segments@, tiles@[k].pos) by {
                            if k < prev.len() {
                                assert(tiles@[k] == prev[k]);
                            }
                        }
                    }
                },
                Err(e) => {
                    proof {
                        assert(tiles_of_raw(raws@.take(i + 1)) == Err::<Seq<(Pos, Seq<Segment>)>, LoadError>(e));
                        lemma_raw_tiles_error_stays(raws@, i as int + 1);
                    }
                    return Err(e);
                },
            }
            i += 1;
        }
        assert(raws@.take(i as int) =~= raws@);
        let next = match load_tile(&savegame.next_tile) {
            Ok(t) => t,
            Err(e) => return Err(e),
        };
        proof {
            lemma_tile_of_raw_wf(savegame.next_tile);
        }
        let r = Board::from_tiles(&tiles, next.segments);
        proof {
            let ls = tiles_of_raw(raws@)->Ok_0;
            assert(tiles_fit(tiles@) <==> loaded_fit(ls)) by {
                if !loaded_fit(ls) {
                    let k = choose|k: int| 0 <= k < ls.len() && !(crate::map::within_limit((#[trigger] ls[k]).0.x as int)
                        && crate::map::within_limit(ls[k].0.y as int));
                    assert(ls[k].0 == tiles@[k].pos);
                }
                if !tiles_fit(tiles@) {
                    let k = choose|k: int| 0 <= k < tiles@.len() && !(crate::map::within_limit((#[trigger] tiles@[k]).pos.x as int)
                        && crate::map::within_limit(tiles@[k].pos.y as int));
                    assert(ls[k].0 == tiles@[k].pos);
                }
            }
            assert(ls =~= tile_views(tiles@));
            if r is Ok {
                let b = r->Ok_0;
                assert forall|p: Pos| #[trigger] b.has_tile(p) <==> (p == crate::map::origin() || exists|k: int|
                    0 <= k < ls.len() && ls[k].0 == p) by {
                    crate::load::lemma_last_index(tiles@, p);
                    if exists|k: int| 0 <= k < ls.len() && ls[k].0 == p {
                        let k = choose|k: int| 0 <= k < ls.len() && ls[k].0 == p;
                        crate::load::lemma_last_index_found(tiles@, p, k);
                    }
                    if crate::load::last_index(tiles@, p) >= 0 {
                        let k = crate::load::last_index(tiles@, p);
                        assert(ls[k].0 == tiles@[k].pos);
                    }
                }
            }
        }
        r
    }
}

/// An error among the first `n` raw tiles is the error of them all.
pub proof fn lemma_raw_tiles_error_stays(raws: Seq<RawTile>, n: int)
    requires
        0 <= n <= raws.len(),
        tiles_of_raw(raws.take(n)) is Err,
    ensures
        tiles_of_raw(raws) == tiles_of_raw(raws.take(n)),
    decreases raws.len() - n,
{
    if n < raws.len() {
        assert(raws.take(n + 1).drop_last() =~= raws.take(n));
        lemma_raw_tiles_error_stays(raws, n + 1);
    } else {
        assert(raws.take(n) =~= raws);
    }
}

} // verus!
