use hexboard::data::{Form, Segment, Terrain};
use hexboard::hex::{axial_from_offset, neighbor_pos_of, opposite_side, Pos};
use hexboard::map::LoadError;
use hexboard::raw_data::{normalize, segments_from_quest_tile, segments_from_special_tile_id, RawSegment};
use hexboard::shader::{byte_size_for_n_tiles, TILE_};

const ALL: [Terrain; 9] = [
    Terrain::Missing,
    Terrain::Empty,
    Terrain::House,
    Terrain::Forest,
    Terrain::Wheat,
    Terrain::Rail,
    Terrain::River,
    Terrain::Lake,
    Terrain::Station,
];

#[test]
fn compatibility_is_symmetric_and_missing_always_fits() {
    for a in ALL {
        for b in ALL {
            assert_eq!(a.connects_and_matches(b), b.connects_and_matches(a), "{:?} {:?}", a, b);
        }
        assert_eq!(a.connects_and_matches(Terrain::Missing), Some(true));
        assert_eq!(Terrain::Missing.connects_and_matches(a), Some(true));
    }
}

#[test]
fn compatibility_table_values() {
    assert_eq!(Terrain::River.connects_and_matches(Terrain::Lake), Some(true));
    assert_eq!(Terrain::River.connects_and_matches(Terrain::Station), Some(true));
    assert_eq!(Terrain::Rail.connects_and_matches(Terrain::Station), Some(true));
    assert_eq!(Terrain::Lake.connects_and_matches(Terrain::Empty), Some(true));
    assert_eq!(Terrain::Station.connects_and_matches(Terrain::Lake), Some(true));
    assert_eq!(Terrain::House.connects_and_matches(Terrain::House), Some(true));
    assert_eq!(Terrain::House.connects_and_matches(Terrain::Forest), Some(false));
    assert_eq!(Terrain::Empty.connects_and_matches(Terrain::Forest), Some(false));
    assert_eq!(Terrain::Rail.connects_and_matches(Terrain::Forest), None);
    assert_eq!(Terrain::River.connects_and_matches(Terrain::Rail), None);
    assert_eq!(Terrain::River.connects_and_matches(Terrain::Empty), None);
    assert_eq!(Terrain::Lake.connects_and_matches(Terrain::House), Some(false));
}

#[test]
fn group_extension_rules() {
    assert!(Terrain::Lake.extends_group_of(Terrain::River));
    assert!(Terrain::Station.extends_group_of(Terrain::River));
    assert!(Terrain::Station.extends_group_of(Terrain::Rail));
    assert!(Terrain::River.extends_group_of(Terrain::River));
    assert!(!Terrain::Lake.extends_group_of(Terrain::Rail));
    assert!(!Terrain::River.extends_group_of(Terrain::Rail));
    assert!(!Terrain::Forest.extends_group_of(Terrain::House));
    assert!(Terrain::Wheat.extends_group_of(Terrain::Wheat));
}

#[test]
fn neighbors_and_opposites() {
    let p = Pos::new(2, -3);
    let expected = [(2, -2), (3, -3), (3, -4), (2, -4), (1, -3), (1, -2)];
    for r in 0..6 {
        assert_eq!(neighbor_pos_of(p, r), Pos::new(expected[r].0, expected[r].1));
        assert_eq!(neighbor_pos_of(neighbor_pos_of(p, r), opposite_side(r)), p);
    }
    assert_eq!(opposite_side(0), 3);
    assert_eq!(opposite_side(4), 1);
}

#[test]
fn offset_to_axial() {
    assert_eq!(axial_from_offset(3, 5), Pos::new(3, 3));
    assert_eq!(axial_from_offset(4, 5), Pos::new(4, 3));
    assert_eq!(axial_from_offset(-1, 0), Pos::new(-1, 0));
    assert_eq!(axial_from_offset(-2, 0), Pos::new(-2, 1));
    assert_eq!(axial_from_offset(-3, 0), Pos::new(-3, 1));
    assert_eq!(axial_from_offset(0, 7), Pos::new(0, 7));
}

#[test]
fn segment_rotations() {
    let seg = Segment { pos: Pos::new(0, 0), form: Form::JunctionRight, terrain: Terrain::House, rotation: 4 };
    assert_eq!(seg.rotations(), vec![4, 5, 2]);
    let pair = Segment { pos: Pos::new(0, 0), form: Form::Size2, terrain: Terrain::Forest, rotation: 5 };
    assert_eq!(pair.rotations(), vec![5, 0]);
    assert!(seg.covers(2));
    assert!(!seg.covers(0));
    let six = Segment { pos: Pos::new(0, 0), form: Form::Size6, terrain: Terrain::Lake, rotation: 3 };
    assert_eq!(six.rotations(), vec![3, 4, 5, 0, 1, 2]);
}

#[test]
fn codes_and_lake_folding() {
    assert_eq!(Form::from_code(11), Ok(Form::X));
    assert_eq!(Form::from_code(109), Ok(Form::LakeSize4));
    assert_eq!(Form::from_code(14), Err(LoadError::UnknownForm(14)));
    assert_eq!(Terrain::from_code(-1), Ok(Terrain::Empty));
    assert_eq!(Terrain::from_code(4), Ok(Terrain::River));
    assert_eq!(Terrain::from_code(5), Err(LoadError::UnknownTerrain(5)));
    assert_eq!(normalize(Form::LakeSize3, Terrain::River), Some((Form::Size3, Terrain::Lake)));
    assert_eq!(normalize(Form::Size6, Terrain::River), Some((Form::Size6, Terrain::Lake)));
    assert_eq!(normalize(Form::LakeSize2, Terrain::House), None);
    assert_eq!(normalize(Form::Size2, Terrain::River), Some((Form::Size2, Terrain::River)));
}

#[test]
fn raw_segment_conversion() {
    let pos = Pos::new(1, 1);
    let raw = RawSegment { group_type: 4, segment_type: 105, rotation: 4 };
    let seg = Segment::from_raw(&raw, pos, 5).unwrap();
    assert_eq!(seg, Segment { pos, form: Form::Size3, terrain: Terrain::Lake, rotation: 3 });
    let bad_lake = RawSegment { group_type: 1, segment_type: 102, rotation: 0 };
    assert_eq!(Segment::from_raw(&bad_lake, pos, 0), Err(LoadError::InvalidLakeForm(102)));
    let bad_form = RawSegment { group_type: 1, segment_type: 0, rotation: 0 };
    assert_eq!(Segment::from_raw(&bad_form, pos, 0), Err(LoadError::UnknownForm(0)));
    let bad_terrain = RawSegment { group_type: 9, segment_type: 1, rotation: 0 };
    assert_eq!(Segment::from_raw(&bad_terrain, pos, 0), Err(LoadError::UnknownTerrain(9)));
}

#[test]
fn special_and_quest_tiles() {
    let pos = Pos::new(0, 0);
    let station = segments_from_special_tile_id(pos, 1, 2).unwrap();
    assert_eq!(station, vec![Segment { pos, form: Form::Size6, terrain: Terrain::Station, rotation: 2 }]);
    assert_eq!(segments_from_special_tile_id(pos, 3, 0), Err(LoadError::UnknownSpecialTile(3)));
    let quest = segments_from_quest_tile(pos, 4, 3).unwrap();
    assert_eq!(
        quest,
        vec![
            Segment { pos, form: Form::Size2, terrain: Terrain::Wheat, rotation: 2 },
            Segment { pos, form: Form::Size4, terrain: Terrain::Forest, rotation: 4 },
        ]
    );
    assert_eq!(segments_from_quest_tile(pos, 0, 0), Err(LoadError::UnknownQuestTile(0)));
}

#[test]
fn buffer_sizes() {
    assert_eq!(TILE_, 32);
    assert_eq!(byte_size_for_n_tiles(0), 48);
    assert_eq!(byte_size_for_n_tiles(1), 48);
    assert_eq!(byte_size_for_n_tiles(9), 16 + 9 * 32);
}
