use hexboard::best_placements::{score_of_next_at, BestPlacements};
use hexboard::data::{Form, Segment, Terrain};
use hexboard::group_assignments::GroupAssignments;
use hexboard::hex::{neighbor_pos_of, Pos};
use hexboard::map::{Board, LoadError, Tile};
use hexboard::raw_data::{RawSaveGame, RawSegment, RawTile};

fn seg(x: i32, y: i32, form: Form, terrain: Terrain, rotation: usize) -> Segment {
    Segment { pos: Pos::new(x, y), form, terrain, rotation }
}

fn tile(x: i32, y: i32, segments: Vec<Segment>) -> Tile {
    Tile { pos: Pos::new(x, y), segments }
}

fn board(tiles: Vec<Tile>, next: Vec<Segment>) -> Board {
    Board::from_tiles(&tiles, next).unwrap()
}

fn frontier_sorted(groups: &GroupAssignments) -> Vec<(i32, i32)> {
    let mut cells: Vec<(i32, i32)> = groups.possible_placements.iter().map(|p| (p.x, p.y)).collect();
    cells.sort();
    cells
}

fn neighbors_sorted(x: i32, y: i32) -> Vec<(i32, i32)> {
    let mut cells: Vec<(i32, i32)> =
        (0..6).map(|r| neighbor_pos_of(Pos::new(x, y), r)).map(|p| (p.x, p.y)).collect();
    cells.sort();
    cells
}

#[test]
fn empty_board_is_valid() {
    let b = board(vec![], vec![]);
    assert_eq!(b.index_offset, Pos::new(-1, -1));
    assert_eq!(b.index_size, Pos::new(3, 3));
    assert!(b.has(Pos::new(0, 0)));
    assert_eq!(b.segment_indices_at(Pos::new(0, 0)), Some((0, 0)));
    assert!(!b.has(Pos::new(1, 0)));
    assert!(!b.has(Pos::new(100, -100)));
    assert_eq!(b.tile_key(Pos::new(100, 0)), None);
    assert_eq!(b.segment_indices_at(Pos::new(5, 5)), None);
    let groups = GroupAssignments::from_board(&b);
    assert_eq!(groups.groups.len(), 0);
    assert_eq!(frontier_sorted(&groups), neighbors_sorted(0, 0));
}

#[test]
fn board_index_and_lookup() {
    let b = board(
        vec![
            tile(2, -1, vec![seg(2, -1, Form::Size2, Terrain::Forest, 1)]),
            tile(0, 1, vec![seg(0, 1, Form::Size1, Terrain::House, 0), seg(0, 1, Form::Size1, Terrain::Wheat, 3)]),
        ],
        vec![seg(0, 0, Form::Size1, Terrain::River, 0)],
    );
    assert_eq!(b.index_offset, Pos::new(-1, -2));
    assert_eq!(b.index_size, Pos::new(5, 5));
    assert_eq!(b.tile_index.len(), 25);
    assert_eq!(b.tile_key(Pos::new(-1, -2)), Some(0));
    assert_eq!(b.tile_key(Pos::new(2, -1)), Some(8));
    assert_eq!(b.segment_indices_at(Pos::new(2, -1)), Some((0, 1)));
    assert_eq!(b.segment_indices_at(Pos::new(0, 1)), Some((1, 3)));
    assert_eq!(b.segment(2).terrain, Terrain::Wheat);
    assert_eq!(b.terrain_at_side(Pos::new(2, -1), 1), Terrain::Forest);
    assert_eq!(b.terrain_at_side(Pos::new(2, -1), 2), Terrain::Forest);
    assert_eq!(b.terrain_at_side(Pos::new(2, -1), 0), Terrain::Empty);
    assert_eq!(b.terrain_at_side(Pos::new(0, 1), 3), Terrain::Wheat);
    assert_eq!(b.terrain_at_side(Pos::new(1, 1), 3), Terrain::Missing);
    assert_eq!(b.rendered_next_tile[0], Terrain::River);
    assert_eq!(b.rendered_next_tile[1], Terrain::Empty);
}

#[test]
fn later_tile_replaces_earlier() {
    let b = board(
        vec![
            tile(1, 0, vec![seg(1, 0, Form::Size1, Terrain::House, 0)]),
            tile(1, 0, vec![seg(1, 0, Form::Size2, Terrain::Forest, 0), seg(1, 0, Form::Size1, Terrain::Wheat, 3)]),
        ],
        vec![],
    );
    assert_eq!(b.segment_indices_at(Pos::new(1, 0)), Some((1, 3)));
    assert_eq!(b.terrain_at_side(Pos::new(1, 0), 0), Terrain::Forest);
}

#[test]
fn board_too_large() {
    let far = vec![tile(16385, 0, vec![])];
    assert!(matches!(Board::from_tiles(&far, vec![]), Err(LoadError::BoardTooLarge)));
    let edge = vec![tile(-16384, 0, vec![])];
    assert!(Board::from_tiles(&edge, vec![]).is_ok());
}

#[test]
fn single_house_segment_is_one_open_group() {
    let b = board(vec![tile(0, 0, vec![seg(0, 0, Form::Size1, Terrain::House, 0)])], vec![]);
    let groups = GroupAssignments::from_board(&b);
    assert_eq!(groups.groups.len(), 1);
    let g = &groups.groups[0];
    assert_eq!(g.size(), 1);
    assert!(!g.is_closed());
    assert_eq!(g.open_edges, vec![(Pos::new(0, 1), 0)]);
    assert_eq!(groups.group_of(&b, 0), Some(0));
    assert_eq!(frontier_sorted(&groups), neighbors_sorted(0, 0));
}

#[test]
fn facing_house_segments_merge() {
    let b = board(
        vec![
            tile(0, 0, vec![seg(0, 0, Form::Size1, Terrain::House, 0)]),
            tile(0, 1, vec![seg(0, 1, Form::Size1, Terrain::House, 3)]),
        ],
        vec![],
    );
    let groups = GroupAssignments::from_board(&b);
    assert_eq!(groups.groups.len(), 1);
    let g = &groups.groups[0];
    assert_eq!(g.size(), 2);
    assert_eq!(g.open_edges.len(), 0);
    assert!(g.is_closed());
    assert_eq!(groups.group_of(&b, 0), Some(0));
    assert_eq!(groups.group_of(&b, 1), Some(0));
    let frontier = frontier_sorted(&groups);
    assert_eq!(frontier, vec![(-1, 0), (-1, 1), (-1, 2), (0, -1), (0, 2), (1, -1), (1, 0), (1, 1)]);
    let mut outward = 0;
    for p in [Pos::new(0, 0), Pos::new(0, 1)] {
        for r in 0..6 {
            if !b.has(neighbor_pos_of(p, r)) {
                outward += 1;
            }
        }
    }
    assert_eq!(outward, 10);
}

#[test]
fn station_joins_a_river_and_a_rail_group() {
    let b = board(
        vec![
            tile(0, 0, vec![seg(0, 0, Form::Size6, Terrain::Station, 0)]),
            tile(0, 1, vec![seg(0, 1, Form::Size1, Terrain::River, 3)]),
            tile(1, 0, vec![seg(1, 0, Form::Size1, Terrain::Rail, 4)]),
            tile(0, -1, vec![seg(0, -1, Form::Size1, Terrain::Lake, 0)]),
        ],
        vec![],
    );
    let groups = GroupAssignments::from_board(&b);
    assert_eq!(groups.groups.len(), 2);
    let water = groups.group_of(&b, 0).unwrap();
    let rail = groups.rail_group_of(&b, 0).unwrap();
    assert_ne!(water, rail);
    assert_eq!(groups.groups[water].terrain, Terrain::River);
    assert_eq!(groups.groups[rail].terrain, Terrain::Rail);
    assert_eq!(groups.groups[water].size(), 3);
    assert_eq!(groups.groups[rail].size(), 2);
    assert_eq!(groups.group_of(&b, 1), Some(water));
    assert_eq!(groups.group_of(&b, 3), Some(water));
    assert_eq!(groups.group_of(&b, 2), Some(rail));
    assert_eq!(groups.rail_group_of(&b, 1), None);
    assert_eq!(groups.groups[water].open_edges.len(), 3);
}

#[test]
fn every_segment_of_reachable_tiles_has_one_group() {
    let b = board(
        vec![
            tile(0, 0, vec![seg(0, 0, Form::Size3, Terrain::Forest, 0), seg(0, 0, Form::Size3, Terrain::Wheat, 3)]),
            tile(1, 0, vec![seg(1, 0, Form::Size2, Terrain::Forest, 3), seg(1, 0, Form::Bridge, Terrain::Rail, 0)]),
            tile(-1, 0, vec![seg(-1, 0, Form::Size6, Terrain::Wheat, 0)]),
            tile(5, 5, vec![seg(5, 5, Form::Size1, Terrain::House, 0)]),
        ],
        vec![],
    );
    let groups = GroupAssignments::from_board(&b);
    assert_eq!(groups.groups.len(), 3);
    for i in 0..5 {
        let k = groups.group_of(&b, i).unwrap();
        let count = groups.groups.iter().filter(|g| g.segment_indices.contains(&i)).count();
        assert_eq!(count, 1, "segment {}", i);
        assert!(groups.groups[k].segment_indices.contains(&i));
    }
    // The tile at (5, 5) is not reachable from the origin.
    assert_eq!(groups.group_of(&b, 5), None);
    assert!(!groups.possible_placements.contains(&Pos::new(5, 6)));
    let forest = groups.group_of(&b, 0).unwrap();
    assert_eq!(groups.group_of(&b, 2), Some(forest));
    assert_eq!(groups.groups[forest].size(), 2);
    let wheat = groups.group_of(&b, 1).unwrap();
    assert_eq!(groups.group_of(&b, 4), Some(wheat));
    assert_eq!(groups.groups[wheat].size(), 2);
    let rail = groups.group_of(&b, 3).unwrap();
    assert_eq!(groups.rail_group_of(&b, 3), Some(rail));
    assert_eq!(groups.groups[rail].size(), 1);
}

#[test]
fn open_edges_are_exactly_covered_sides_facing_empty_cells() {
    let b = board(
        vec![
            tile(0, 0, vec![seg(0, 0, Form::Size3, Terrain::Forest, 0)]),
            tile(1, 0, vec![seg(1, 0, Form::Size1, Terrain::Forest, 4)]),
        ],
        vec![],
    );
    let groups = GroupAssignments::from_board(&b);
    assert_eq!(groups.groups.len(), 1);
    let mut edges: Vec<(i32, i32, usize)> =
        groups.groups[0].open_edges.iter().map(|(p, r)| (p.x, p.y, *r)).collect();
    edges.sort();
    assert_eq!(edges, vec![(0, 1, 0), (1, -1, 2)]);
}

#[test]
fn analysis_twice_gives_the_same_groups() {
    let tiles = vec![
        tile(0, 0, vec![seg(0, 0, Form::Size3, Terrain::Forest, 0), seg(0, 0, Form::Size3, Terrain::River, 3)]),
        tile(0, 1, vec![seg(0, 1, Form::Size6, Terrain::Forest, 0)]),
        tile(0, -1, vec![seg(0, -1, Form::Straight, Terrain::River, 0)]),
    ];
    let b = Board::from_tiles(&tiles, vec![]).unwrap();
    let a1 = GroupAssignments::from_board(&b);
    let a2 = GroupAssignments::from_board(&b);
    assert_eq!(a1.groups.len(), a2.groups.len());
    for (g1, g2) in a1.groups.iter().zip(a2.groups.iter()) {
        let mut m1 = g1.segment_indices.clone();
        let mut m2 = g2.segment_indices.clone();
        m1.sort();
        m2.sort();
        assert_eq!(m1, m2);
        assert_eq!(g1.is_closed(), g2.is_closed());
    }
    assert_eq!(frontier_sorted(&a1), frontier_sorted(&a2));
}

#[test]
fn river_next_to_lake_matches() {
    let b = board(
        vec![tile(0, 0, vec![seg(0, 0, Form::Size6, Terrain::Lake, 0)])],
        vec![seg(0, 0, Form::Size1, Terrain::River, 0)],
    );
    let score = score_of_next_at(&b, Pos::new(0, -1), 0).unwrap();
    assert_eq!(score.matching_edges, 1);
    assert_eq!(score.mismatched_edges, 0);
    assert!(!score.split);
    let groups = GroupAssignments::from_board(&b);
    let best = BestPlacements::from_board(&b, &groups);
    let usable = best.iter_usable();
    assert!(!usable.is_empty());
    let top = best.placement(usable[0]);
    assert_eq!(top.mismatched_edges, 0);
    assert_eq!(top.matching_edges, 1);
}

#[test]
fn rail_next_to_forest_is_excluded() {
    let b = board(
        vec![tile(0, 0, vec![seg(0, 0, Form::Size6, Terrain::Forest, 0)])],
        vec![seg(0, 0, Form::Size1, Terrain::Rail, 0)],
    );
    assert!(score_of_next_at(&b, Pos::new(0, -1), 0).is_none());
    let other = score_of_next_at(&b, Pos::new(0, -1), 1).unwrap();
    assert!(other.mismatched_edges >= 1);
    let groups = GroupAssignments::from_board(&b);
    let best = BestPlacements::from_board(&b, &groups);
    assert!(best.len() > 0);
    assert!(best.iter_usable().is_empty());
    for i in 0..best.len() {
        assert!(best.placement(i).mismatched_edges >= 1);
    }
}

#[test]
fn ranking_is_sorted_and_repeatable() {
    let b = board(
        vec![
            tile(0, 0, vec![seg(0, 0, Form::Size3, Terrain::Forest, 0), seg(0, 0, Form::Size3, Terrain::House, 3)]),
            tile(1, 0, vec![seg(1, 0, Form::Size6, Terrain::House, 0)]),
        ],
        vec![seg(0, 0, Form::Size2, Terrain::House, 0), seg(0, 0, Form::Size2, Terrain::Forest, 3)],
    );
    let groups = GroupAssignments::from_board(&b);
    let first = BestPlacements::from_board(&b, &groups);
    let second = BestPlacements::from_board(&b, &groups);
    assert_eq!(first.len(), second.len());
    let key = |s: &hexboard::best_placements::PlacementScore| {
        (!s.split, -(s.mismatched_edges as i32), s.matching_edges, s.pos.x, s.pos.y)
    };
    for i in 0..first.len() {
        let (a, c) = (first.placement(i), second.placement(i));
        assert_eq!((a.pos, a.rotation, a.split, a.mismatched_edges, a.matching_edges), (c.pos, c.rotation, c.split, c.mismatched_edges, c.matching_edges));
        if i > 0 {
            assert!(key(first.placement(i - 1)) < key(a));
        }
    }
    let usable = first.iter_usable();
    assert!(usable.len() <= 30);
    for w in usable.windows(2) {
        assert!(w[0] > w[1]);
    }
    for &i in &usable {
        assert_eq!(first.placement(i).mismatched_edges, 0);
    }
}

#[test]
fn split_flag_counts_free_runs() {
    let b = board(
        vec![
            tile(0, 0, vec![seg(0, 0, Form::Size6, Terrain::Wheat, 0)]),
            tile(0, 2, vec![seg(0, 2, Form::Size6, Terrain::Wheat, 0)]),
        ],
        vec![seg(0, 0, Form::Size6, Terrain::Wheat, 0)],
    );
    // (0, 1) lies between two tiles: occupied, free, free, occupied, free,
    // free makes four runs.
    let between = score_of_next_at(&b, Pos::new(0, 1), 0).unwrap();
    assert_eq!(between.matching_edges, 2);
    assert_eq!(between.mismatched_edges, 0);
    assert!(between.split);
    // (1, 0) touches the origin only: three runs.
    let beside = score_of_next_at(&b, Pos::new(1, 0), 0).unwrap();
    assert_eq!(beside.matching_edges, 1);
    assert!(!beside.split);
}

#[test]
fn load_from_raw_records() {
    let game = RawSaveGame {
        tiles: vec![
            RawTile {
                s: 0,
                t: 0,
                rotation: 1,
                segments: vec![RawSegment { group_type: 0, segment_type: 1, rotation: 0 }],
                special_tile_id: 0,
                quest_tile_id: None,
            },
            RawTile { s: 1, t: 1, rotation: 0, segments: vec![], special_tile_id: 1, quest_tile_id: None },
            RawTile { s: -1, t: 0, rotation: 2, segments: vec![], special_tile_id: 0, quest_tile_id: Some(57) },
        ],
        next_tile: RawTile {
            s: 0,
            t: 0,
            rotation: 0,
            segments: vec![RawSegment { group_type: 4, segment_type: 4, rotation: 0 }],
            special_tile_id: 0,
            quest_tile_id: None,
        },
    };
    let b = Board::load(&game).unwrap();
    assert!(b.has(Pos::new(0, 0)));
    assert!(b.has(Pos::new(1, 0)));
    assert!(b.has(Pos::new(-1, 0)));
    assert_eq!(b.segments.len(), 3);
    assert_eq!(b.segments[0], seg(0, 0, Form::Size1, Terrain::House, 1));
    assert_eq!(b.segments[1], seg(1, 0, Form::Size6, Terrain::Station, 0));
    assert_eq!(b.segments[2], seg(-1, 0, Form::Size6, Terrain::Station, 2));
    assert_eq!(b.rendered_next_tile[0], Terrain::River);
    assert_eq!(b.rendered_next_tile[3], Terrain::River);

    let mut broken = game;
    broken.tiles[2].quest_tile_id = Some(0);
    assert!(matches!(Board::load(&broken), Err(LoadError::UnknownQuestTile(0))));
    broken.tiles[2].quest_tile_id = None;
    broken.tiles[2].special_tile_id = 7;
    assert!(matches!(Board::load(&broken), Err(LoadError::UnknownSpecialTile(7))));
}

#[test]
fn lookups_past_the_end_are_absent() {
    let b = board(vec![], vec![]);
    let groups = GroupAssignments::from_board(&b);
    assert_eq!(groups.group_of(&b, 0), None);
    assert_eq!(groups.rail_group_of(&b, 7), None);
    let one = board(vec![tile(0, 0, vec![seg(0, 0, Form::Size1, Terrain::Rail, 0)])], vec![]);
    let groups = GroupAssignments::from_board(&one);
    assert_eq!(groups.rail_group_of(&one, 0), Some(0));
    assert_eq!(groups.group_of(&one, 0), Some(0));
    assert_eq!(groups.group_of(&one, 1), None);
}

#[test]
fn loaded_house_tile_is_one_open_group() {
    let raw_house = |s: i32, t: i32, rotation: i32| RawTile {
        s,
        t,
        rotation: 0,
        segments: vec![RawSegment { group_type: 0, segment_type: 1, rotation }],
        special_tile_id: 0,
        quest_tile_id: None,
    };
    let empty_next = RawTile { s: 0, t: 0, rotation: 0, segments: vec![], special_tile_id: 0, quest_tile_id: None };
    let single = RawSaveGame { tiles: vec![raw_house(0, 0, 0)], next_tile: empty_next };
    let b = Board::load(&single).unwrap();
    assert_eq!(b.index_offset, Pos::new(-1, -1));
    assert_eq!(b.index_size, Pos::new(3, 3));
    assert_eq!(b.segments, vec![seg(0, 0, Form::Size1, Terrain::House, 0)]);
    let groups = GroupAssignments::from_board(&b);
    assert_eq!(groups.groups.len(), 1);
    assert_eq!(groups.groups[0].segment_indices, vec![0]);
    assert!(!groups.groups[0].is_closed());

    let empty_next = RawTile { s: 0, t: 0, rotation: 0, segments: vec![], special_tile_id: 0, quest_tile_id: None };
    let pair = RawSaveGame { tiles: vec![raw_house(0, 0, 0), raw_house(0, 1, 3)], next_tile: empty_next };
    let b = Board::load(&pair).unwrap();
    assert_eq!(b.index_offset, Pos::new(-1, -1));
    assert_eq!(b.index_size, Pos::new(3, 4));
    let groups = GroupAssignments::from_board(&b);
    assert_eq!(groups.groups.len(), 1);
    assert_eq!(groups.groups[0].size(), 2);
    assert!(groups.groups[0].is_closed());

    let nothing = RawSaveGame {
        tiles: vec![],
        next_tile: RawTile { s: 0, t: 0, rotation: 0, segments: vec![], special_tile_id: 0, quest_tile_id: None },
    };
    let b = Board::load(&nothing).unwrap();
    assert_eq!(b.index_offset, Pos::new(-1, -1));
    assert_eq!(b.index_size, Pos::new(3, 3));
    assert!(b.segments.is_empty());
}
