use hexboard::best_placements::BestPlacements;
use hexboard::data::{Form, Segment, Terrain};
use hexboard::group_assignments::GroupAssignments;
use hexboard::hex::Pos;
use hexboard::map::{Board, Tile};
use hexboard::shader::{byte_size, tile_words};

fn seg(x: i32, y: i32, form: Form, terrain: Terrain, rotation: usize) -> Segment {
    Segment { pos: Pos::new(x, y), form, terrain, rotation }
}

#[test]
fn segment_lookup_by_side() {
    let tiles = vec![Tile {
        pos: Pos::new(0, 0),
        segments: vec![seg(0, 0, Form::Size2, Terrain::House, 1), seg(0, 0, Form::Size3, Terrain::Forest, 3)],
    }];
    let b = Board::from_tiles(&tiles, vec![]).unwrap();
    assert_eq!(b.segment_index_at(Pos::new(0, 0), 2), Some(0));
    assert_eq!(b.segment_index_at(Pos::new(0, 0), 4), Some(1));
    assert_eq!(b.segment_index_at(Pos::new(0, 0), 0), None);
    assert_eq!(b.segment_index_at(Pos::new(1, 0), 0), None);
}

#[test]
fn tile_positions_in_index_order() {
    let tiles = vec![
        Tile { pos: Pos::new(1, 1), segments: vec![] },
        Tile { pos: Pos::new(-1, 0), segments: vec![] },
    ];
    let b = Board::from_tiles(&tiles, vec![]).unwrap();
    assert_eq!(b.iter_tile_positions(), vec![Pos::new(-1, 0), Pos::new(0, 0), Pos::new(1, 1)]);
}

#[test]
fn render_words_layout() {
    let tiles = vec![
        Tile { pos: Pos::new(0, 0), segments: vec![seg(0, 0, Form::Size1, Terrain::House, 0)] },
        Tile { pos: Pos::new(0, 1), segments: vec![seg(0, 1, Form::Size1, Terrain::House, 3)] },
    ];
    let b = Board::from_tiles(&tiles, vec![seg(0, 0, Form::Size1, Terrain::House, 0)]).unwrap();
    let groups = GroupAssignments::from_board(&b);
    let best = BestPlacements::from_board(&b, &groups);
    let words = tile_words(&b, &groups, &best);
    assert_eq!(words.len(), 4 + 8 * b.tile_index.len());
    assert_eq!(words.len() * 4, byte_size(&b));
    assert_eq!(&words[0..4], &[(-1i32) as u32, (-1i32) as u32, 3, 4]);
    let origin = 4 + 8 * b.tile_key(Pos::new(0, 0)).unwrap();
    // House (2), form Size1 (0), rotation 0, closed group 0.
    assert_eq!(words[origin], 2 | (1 << 12));
    assert_eq!(words[origin + 1], 1);
    let above = 4 + 8 * b.tile_key(Pos::new(0, 1)).unwrap();
    assert_eq!(words[above], 2 | (3 << 9) | (1 << 12));
    let empty = 4 + 8 * b.tile_key(Pos::new(-1, -1)).unwrap();
    assert_eq!(words[empty], 0);
    let usable = best.iter_usable();
    assert!(!usable.is_empty());
    let last = usable.len() - 1;
    let pos = best.placement(usable[last]).pos;
    assert_eq!(words[4 + 8 * b.tile_key(pos).unwrap() + 6], last as u32);
}
