//! Terrain kinds, segment forms, and the rules by which edges match.
use vstd::prelude::*;
use crate::hex::{Pos, Rotation};

verus! {

/// Which of the six edge directions a segment covers, as a pattern of
/// offsets from the segment's own rotation.
#[derive(PartialEq, Eq, Structural, Clone, Copy, Debug, Hash)]
pub enum Form {
    Size1,
    Size2,
    /// 1-skip1-1
    Bridge,
    /// 1-skip2-1
    Straight,
    Size3,
    /// 2-skip1-1
    JunctionLeft,
    /// 2-skip2-1
    JunctionRight,
    /// 1-skip1-1-skip1-1
    ThreeWay,
    Size4,
    /// 3-skip1-1
    FanOut,
    /// 2-skip1-2
    X,
    Size5,
    Size6,
    LakeSize2,
    LakeSize3,
    LakeSize4,
    LakeSize5,
}

/// What an edge of a tile carries. `Missing` stands for "no tile here" and
/// differs from `Empty`, an edge of a present tile without terrain.
#[derive(PartialEq, Eq, Structural, Clone, Copy, Debug, Hash)]
pub enum Terrain {
    Missing,
    Empty,
    House,
    Forest,
    Wheat,
    Rail,
    River,
    Lake,
    Station,
}

/// Whether a form with local offset `l` (in `0..6`) covers that offset.
pub open spec fn form_has(f: Form, l: int) -> bool {
    match f {
        Form::Size1 => l == 0,
        Form::Size2 => l == 0 || l == 1,
        Form::Bridge => l == 0 || l == 2,
        Form::Straight => l == 0 || l == 3,
        Form::Size3 => 0 <= l <= 2,
        Form::JunctionLeft => l == 0 || l == 1 || l == 3,
        Form::JunctionRight => l == 0 || l == 1 || l == 4,
        Form::ThreeWay => l == 0 || l == 2 || l == 4,
        Form::Size4 => 0 <= l <= 3,
        Form::FanOut => 0 <= l <= 2 || l == 4,
        Form::X => l == 0 || l == 1 || l == 3 || l == 4,
        Form::Size5 => 0 <= l <= 4,
        Form::Size6 => 0 <= l <= 5,
        Form::LakeSize2 => false,
        Form::LakeSize3 => false,
        Form::LakeSize4 => 0 <= l <= 3,
        Form::LakeSize5 => false,
    }
}

/// Whether `t` can name a group: lake and station only ever extend the
/// groups of other terrains, and `Missing` is no terrain at all.
pub open spec fn is_group_terrain(t: Terrain) -> bool {
    !(t is Station || t is Lake || t is Missing)
}

/// Whether a segment of terrain `t` joins a group of terrain `g`.
pub open spec fn extends(t: Terrain, g: Terrain) -> bool {
    if g is River {
        t is River || t is Lake || t is Station
    } else if g is Rail {
        t is Rail || t is Station
    } else {
        t == g
    }
}

/// Lake and station connect several solid terrains.
pub open spec fn is_linking(t: Terrain) -> bool {
    t is Lake || t is Station
}

/// Whether `t` is water that a river may touch.
pub open spec fn is_waterlike(t: Terrain) -> bool {
    t is River || t is Lake || t is Station
}

/// Whether `t` is track that a rail may touch.
pub open spec fn is_raillike(t: Terrain) -> bool {
    t is Rail || t is Station
}

/// How two facing edges fit: `Some(true)` a match, `Some(false)` a soft
/// mismatch, `None` an incompatibility that rules the placement out.
pub open spec fn compatibility(a: Terrain, b: Terrain) -> Option<bool> {
    if a is Missing || b is Missing {
        Some(true)
    } else if (is_linking(a) && (is_linking(b) || b is Empty)) || (is_linking(b) && a is Empty) {
        Some(true)
    } else if (a is River && is_waterlike(b)) || (b is River && is_waterlike(a)) {
        Some(true)
    } else if (a is Rail && is_raillike(b)) || (b is Rail && is_raillike(a)) {
        Some(true)
    } else if a is River || a is Rail || b is River || b is Rail {
        None
    } else {
        Some(a == b)
    }
}

impl Terrain {
    /// Whether a segment of this terrain joins a group of terrain `terrain`.
    pub fn extends_group_of(self, terrain: Terrain) -> (r: bool)
        requires
            is_group_terrain(terrain),
        ensures
            r == extends(self, terrain),
    {
        match (self, terrain) {
            (Terrain::Lake, Terrain::River) | (Terrain::Station, Terrain::River) => true,
            (Terrain::Station, Terrain::Rail) => true,
            (a, b) => a == b,
        }
    }

    /// How an edge of this terrain fits against a facing edge of `other`.
    pub fn connects_and_matches(self, other: Terrain) -> (r: Option<bool>)
        ensures
            r == compatibility(self, other),
    {
        match (self, other) {
            (Terrain::Missing, _) | (_, Terrain::Missing) => Some(true),
            (Terrain::Empty, Terrain::Lake | Terrain::Station) => Some(true),
            (Terrain::Lake | Terrain::Station, Terrain::Empty) => Some(true),
            (Terrain::Lake | Terrain::Station, Terrain::Lake | Terrain::Station) => Some(true),
            (Terrain::River, Terrain::River | Terrain::Lake | Terrain::Station) => Some(true),
            (Terrain::Lake | Terrain::Station, Terrain::River) => Some(true),
            (Terrain::Rail, Terrain::Rail | Terrain::Station) => Some(true),
            (Terrain::Station, Terrain::Rail) => Some(true),
            (Terrain::River | Terrain::Rail, _) => None,
            (_, Terrain::River | Terrain::Rail) => None,
            (a, b) => Some(a == b),
        }
    }
}

/// Edge compatibility does not depend on which side is asked, and an edge
/// facing no tile always fits.
pub proof fn lemma_compatibility_symmetric(a: Terrain, b: Terrain)
    ensures
        compatibility(a, b) == compatibility(b, a),
        compatibility(a, Terrain::Missing) == Some(true),
        compatibility(Terrain::Missing, a) == Some(true),
{
}

/// One terrain patch of a placed tile.
#[derive(PartialEq, Eq, Structural, Clone, Copy, Debug)]
pub struct Segment {
    pub pos: Pos,
    pub form: Form,
    pub terrain: Terrain,
    pub rotation: Rotation,
}

impl Segment {
    /// Whether this segment covers the absolute direction `r`.
    pub open spec fn occupies(self, r: int) -> bool {
        0 <= r < 6 && form_has(self.form, (r - self.rotation) % 6)
    }

    /// Whether this segment covers direction `rotation` of its tile.
    pub fn covers(&self, rotation: Rotation) -> (r: bool)
        requires
            self.rotation < 6,
            rotation < 6,
        ensures
            r == self.occupies(rotation as int),
    {
        let local = (rotation + 6 - self.rotation) % 6;
        assert(local as int == (rotation - self.rotation) % 6);
        match self.form {
            Form::Size1 => local == 0,
            Form::Size2 => local <= 1,
            Form::Bridge => local == 0 || local == 2,
            Form::Straight => local == 0 || local == 3,
            Form::Size3 => local <= 2,
            Form::JunctionLeft => local <= 1 || local == 3,
            Form::JunctionRight => local <= 1 || local == 4,
            Form::ThreeWay => local == 0 || local == 2 || local == 4,
            Form::Size4 => local <= 3,
            Form::FanOut => local <= 2 || local == 4,
            Form::X => local <= 1 || local == 3 || local == 4,
            Form::Size5 => local <= 4,
            Form::Size6 => true,
            Form::LakeSize2 | Form::LakeSize3 | Form::LakeSize5 => false,
            Form::LakeSize4 => local <= 3,
        }
    }

    /// The absolute directions this segment covers, in the order of its
    /// form's pattern, starting from the segment's own rotation.
    pub fn rotations(&self) -> (r: Vec<Rotation>)
        requires
            self.rotation < 6,
        ensures
            r@.len() == form_pattern(self.form).len(),
            forall|j: int|
                0 <= j < r@.len() ==> #[trigger] r@[j] == (self.rotation + form_pattern(self.form)[j]) % 6,
            forall|j: int| 0 <= j < r@.len() ==> self.occupies(#[trigger] r@[j] as int),
    {
        let pattern = form_pattern_of(self.form);
        let mut r: Vec<Rotation> = Vec::new();
        let mut j: usize = 0;
        while j < pattern.len()
            invariant
                self.rotation < 6,
                pattern@ == form_pattern(self.form),
                forall|k: int| 0 <= k < pattern@.len() ==> #[trigger] pattern@[k] < 6 && form_has(self.form, pattern@[k] as int),
                j <= pattern@.len(),
                r@.len() == j,
                forall|k: int| 0 <= k < j ==> #[trigger] r@[k] == (self.rotation + pattern@[k]) % 6,
            decreases pattern@.len() - j,
        {
            r.push((self.rotation + pattern[j]) % 6);
            j += 1;
        }
        proof {
            assert forall|k: int| 0 <= k < r@.len() implies self.occupies(#[trigger] r@[k] as int) by {
                let l = pattern@[k] as int;
                assert(((self.rotation + l) % 6 - self.rotation) % 6 == l);
            }
        }
        r
    }
}

/// The offsets a form covers, in the order its pattern lists them.
pub open spec fn form_pattern(f: Form) -> Seq<usize> {
    match f {
        Form::Size1 => seq![0],
        Form::Size2 => seq![0, 1],
        Form::Bridge => seq![0, 2],
        Form::Straight => seq![0, 3],
        Form::Size3 => seq![0, 1, 2],
        Form::JunctionLeft => seq![0, 1, 3],
        Form::JunctionRight => seq![0, 1, 4],
        Form::ThreeWay => seq![0, 2, 4],
        Form::Size4 => seq![0, 1, 2, 3],
        Form::FanOut => seq![0, 1, 2, 4],
        Form::X => seq![0, 1, 3, 4],
        Form::Size5 => seq![0, 1, 2, 3, 4],
        Form::Size6 => seq![0, 1, 2, 3, 4, 5],
        Form::LakeSize2 => seq![],
        Form::LakeSize3 => seq![],
        Form::LakeSize4 => seq![0, 1, 2, 3],
        Form::LakeSize5 => seq![],
    }
}

/// The offsets form `f` covers, in pattern order.
fn form_pattern_of(f: Form) -> (r: Vec<usize>)
    ensures
        r@ == form_pattern(f),
        forall|k: int| 0 <= k < r@.len() ==> #[trigger] r@[k] < 6 && form_has(f, r@[k] as int),
{
    let mut r: Vec<usize> = Vec::new();
    let count: usize = match f {
        Form::Size1 => 1,
        Form::Size2 | Form::Bridge | Form::Straight => 2,
        Form::Size3 | Form::JunctionLeft | Form::JunctionRight | Form::ThreeWay => 3,
        Form::Size4 | Form::FanOut | Form::X | Form::LakeSize4 => 4,
        Form::Size5 => 5,
        Form::Size6 => 6,
        Form::LakeSize2 | Form::LakeSize3 | Form::LakeSize5 => 0,
    };
    match f {
        Form::Bridge => {
            r.push(0);
            r.push(2);
        },
        Form::Straight => {
            r.push(0);
            r.push(3);
        },
        Form::JunctionLeft => {
            r.push(0);
            r.push(1);
            r.push(3);
        },
        Form::JunctionRight => {
            r.push(0);
            r.push(1);
            r.push(4);
        },
        Form::ThreeWay => {
            r.push(0);
            r.push(2);
            r.push(4);
        },
        Form::FanOut => {
            r.push(0);
            r.push(1);
            r.push(2);
            r.push(4);
        },
        Form::X => {
            r.push(0);
            r.push(1);
            r.push(3);
            r.push(4);
        },
        _ => {
            let mut l: usize = 0;
            while l < count
                invariant
                    l <= count <= 6,
                    r@.len() == l,
                    forall|k: int| 0 <= k < l ==> #[trigger] r@[k] == k,
                decreases count - l,
            {
                r.push(l);
                l += 1;
            }
        },
    }
    assert(r@ =~= form_pattern(f));
    r
}

} // verus!
