//! Sizes of the buffer that holds a board for rendering.
use vstd::prelude::*;
use crate::best_placements::{
    BestPlacements, Entry, ranks, usable_top, lemma_usable_in_range, lemma_frontier_fits, ranked_entry,
};
use crate::data::{Form, Terrain};
use crate::connectivity::slot;
use crate::group_assignments::{GroupAssignments, assignment, own_group_terrain};
use crate::map::Board;

verus! {

/// Bytes of one integer.
pub const INT_: usize = 4;
/// Bytes of a pair of integers.
pub const IVEC2_: usize = 2 * INT_;
/// Bytes of four integers.
pub const IVEC4_: usize = 4 * INT_;
/// Bytes of one cell: its segment words, rank and spare.
pub const TILE_: usize = IVEC4_ + IVEC2_ + IVEC2_;

/// The bytes for the index offset and size and for `num_tiles` cells, at
/// least one.
pub fn byte_size_for_n_tiles(num_tiles: usize) -> (r: usize)
    requires
        num_tiles <= (usize::MAX - 2 * IVEC2_) as int / TILE_ as int,
    ensures
        r == 2 * IVEC2_ + (if num_tiles < 1 { 1 } else { num_tiles }) * TILE_,
{
    let n = if num_tiles < 1 { 1 } else { num_tiles };
    assert(n * 32 <= usize::MAX - 16) by (nonlinear_arith)
        requires
            n <= (usize::MAX - 16) as int / 32,
    ;
    IVEC2_ + IVEC2_ + n * TILE_
}

/// The bytes for every cell of the board's index rectangle.
pub fn byte_size(board: &Board) -> (r: usize)
    requires
        board.tile_index@.len() <= (usize::MAX - 2 * IVEC2_) as int / TILE_ as int,
    ensures
        r == 2 * IVEC2_ + (if board.tile_index@.len() < 1 { 1 } else { board.tile_index@.len() as int }) * TILE_,
{
    byte_size_for_n_tiles(board.tile_index.len())
}

/// The number a terrain has in the render buffer.
pub open spec fn terrain_code(t: Terrain) -> u32 {
    match t {
        Terrain::Missing => 0,
        Terrain::Empty => 1,
        Terrain::House => 2,
        Terrain::Forest => 3,
        Terrain::Wheat => 4,
        Terrain::Rail => 5,
        Terrain::River => 6,
        Terrain::Lake => 7,
        Terrain::Station => 8,
    }
}

/// The number a form has in the render buffer.
pub open spec fn form_code(f: Form) -> u32 {
    match f {
        Form::Size1 => 0,
        Form::Size2 => 1,
        Form::Bridge => 2,
        Form::Straight => 3,
        Form::Size3 => 4,
        Form::JunctionLeft => 5,
        Form::JunctionRight => 6,
        Form::ThreeWay => 7,
        Form::Size4 => 8,
        Form::FanOut => 9,
        Form::X => 10,
        Form::Size5 => 11,
        Form::Size6 => 12,
        Form::LakeSize2 => 14,
        Form::LakeSize3 => 15,
        Form::LakeSize4 => 16,
        Form::LakeSize5 => 17,
    }
}

/// The largest group index the render buffer can hold, plus one.
pub const GROUP_RANGE: usize = 524288;

/// The bits of segment `i`'s own group in its render word: the group index
/// from bit 13 and whether the group is closed at bit 12; none without a
/// group.
pub open spec fn group_bits(b: Board, ga: GroupAssignments, i: int) -> int {
    match assignment(ga.assigned_groups@, ga.rail_groups@, slot(own_group_terrain(b.segments@[i].terrain)), i) {
        None => 0,
        Some(g) => (g as int % GROUP_RANGE as int) * 8192 + if ga.groups@[g as int].open_edges@.len() == 0 {
            4096int
        } else {
            0int
        },
    }
}

/// The render word of segment `i`: terrain in bits 0-3, form in bits 4-8,
/// rotation in bits 9-11, then its group's bits.
pub open spec fn segment_word(b: Board, ga: GroupAssignments, i: int) -> u32 {
    let s = b.segments@[i];
    (terrain_code(s.terrain) + form_code(s.form) * 16 + s.rotation * 512 + group_bits(b, ga, i)) as u32
}

/// The rank of the last offered placement at cell `key`, among the first
/// `k` offered; zero where none lies there.
pub open spec fn last_rank(b: Board, es: Seq<Entry>, us: Seq<int>, key: int, k: int) -> int
    decreases k,
{
    if k <= 0 {
        0
    } else if b.key_of(es[us[k - 1]].0) == key {
        k - 1
    } else {
        last_rank(b, es, us, key, k - 1)
    }
}

/// Word `k` of cell `key` in the render buffer: up to six segment words and
/// an `Empty` end mark, then the cell's rank, then a spare word.
pub open spec fn cell_word(b: Board, ga: GroupAssignments, es: Seq<Entry>, key: int, k: int) -> u32 {
    if k == 6 {
        last_rank(b, es, usable_top(es), key, usable_top(es).len() as int) as u32
    } else if k == 7 {
        0
    } else {
        match b.tile_index@[key] {
            None => 0,
            Some((first, count)) => if k < count {
                segment_word(b, ga, first + k)
            } else if k == count {
                1
            } else {
                0
            },
        }
    }
}

/// The words of the render buffer: the index rectangle's offset and size,
/// then eight words for each of its cells.
pub fn tile_words(board: &Board, groups: &GroupAssignments, best: &BestPlacements) -> (r: Vec<u32>)
    requires
        board.wf(),
        groups.valid_for(*board),
        ranks(*board, groups.possible_placements@.to_set(), best.ranking()),
        board.tile_index@.len() <= (usize::MAX - 4) as int / 8,
    ensures
        r@.len() == 4 + 8 * board.tile_index@.len(),
        r@[0] == board.index_offset.x as u32,
        r@[1] == board.index_offset.y as u32,
        r@[2] == board.index_size.x as u32,
        r@[3] == board.index_size.y as u32,
        forall|key: int, k: int|
            0 <= key < board.tile_index@.len() && 0 <= k < 8 ==> #[trigger] r@[4 + 8 * key + k] == cell_word(
                *board,
                *groups,
                best.ranking(),
                key,
                k,
            ),
{
    let ghost b = *board;
    let ghost es = best.ranking();
    let n = board.tile_index.len();
    let mut words: Vec<u32> = Vec::new();
    words.push(board.index_offset.x as u32);
    words.push(board.index_offset.y as u32);
    words.push(board.index_size.x as u32);
    words.push(board.index_size.y as u32);
    let mut key: usize = 0;
    while key < n
        invariant
            b == *board,
            b.wf(),
            groups.valid_for(b),
            n == b.tile_index@.len(),
            n <= (usize::MAX - 4) as int / 8,
            key <= n,
            words@.len() == 4 + 8 * key,
            words@[0] == board.index_offset.x as u32,
            words@[1] == board.index_offset.y as u32,
            words@[2] == board.index_size.x as u32,
            words@[3] == board.index_size.y as u32,
            forall|j: int, k: int|
                0 <= j < key && 0 <= k < 8 && k != 6 ==> #[trigger] words@[4 + 8 * j + k] == cell_word(b, *groups, es, j, k),
            forall|j: int| 0 <= j < key ==> #[trigger] words@[4 + 8 * j + 6] == 0,
        decreases n - key,
    {
        let ghost before = words@;
        let mut k: usize = 0;
        while k < 8
            invariant
                b == *board,
                b.wf(),
                groups.valid_for(b),
                n == b.tile_index@.len(),
                key < n,
                k <= 8,
                words@.len() == 4 + 8 * key + k,
                before.len() == 4 + 8 * key,
                forall|q: int| 0 <= q < before.len() ==> #[trigger] words@[q] == before[q],
                forall|m: int| 0 <= m < k && m != 6 ==> #[trigger] words@[4 + 8 * key + m] == cell_word(b, *groups, es, key as int, m),
                k > 6 ==> words@[4 + 8 * key + 6] == 0,
            decreases 8 - k,
        {
            let w = if k >= 6 {
                0
            } else {
                match board.tile_index[key] {
                    None => 0,
                    Some((first, count)) => {
                        if k < count {
                            proof {
                                b.lemma_pos_of_key(key as int);
                                let p = b.pos_of_key(key as int);
                                assert(b.tile_at(p) == Some((first, count)));
                                assert(first + count <= b.segments@.len());
                            }
                            segment_word_of(board, groups, first + k)
                        } else if k == count {
                            1
                        } else {
                            0
                        }
                    },
                }
            };
            words.push(w);
            k += 1;
        }
        proof {
            assert forall|j: int, m: int|
                0 <= j < key + 1 && 0 <= m < 8 && m != 6 implies #[trigger] words@[4 + 8 * j + m] == cell_word(b, *groups, es, j, m) by {
                if j < key {
                    assert(4 + 8 * j + m < before.len()) by (nonlinear_arith)
                        requires
                            j < key,
                            m < 8,
                            before.len() == 4 + 8 * key,
                    ;
                    assert(words@[4 + 8 * j + m] == before[4 + 8 * j + m]);
                }
            }
            assert forall|j: int| 0 <= j < key + 1 implies #[trigger] words@[4 + 8 * j + 6] == 0 by {
                if j < key {
                    assert(4 + 8 * j + 6 < before.len()) by (nonlinear_arith)
                        requires
                            j < key,
                            before.len() == 4 + 8 * key,
                    ;
                    assert(words@[4 + 8 * j + 6] == before[4 + 8 * j + 6]);
                }
            }
        }
        key += 1;
    }
    let usable = best.iter_usable();
    let ghost us = usable_top(es);
    proof {
        lemma_usable_in_range(es, 0);
        assert(usable@.len() == us.len());
    }
    let mut rank: usize = 0;
    while rank < usable.len()
        invariant
            b == *board,
            b.wf(),
            groups.valid_for(b),
            ranks(b, groups.possible_placements@.to_set(), es),
            es == best.ranking(),
            us == usable_top(es),
            usable@.map_values(|i: usize| i as int) == us,
            n == b.tile_index@.len(),
            n <= (usize::MAX - 4) as int / 8,
            words@.len() == 4 + 8 * n,
            rank <= usable@.len(),
            usable@.len() <= 30,
            words@[0] == board.index_offset.x as u32,
            words@[1] == board.index_offset.y as u32,
            words@[2] == board.index_size.x as u32,
            words@[3] == board.index_size.y as u32,
            forall|j: int, k: int|
                0 <= j < n && 0 <= k < 8 && k != 6 ==> #[trigger] words@[4 + 8 * j + k] == cell_word(b, *groups, es, j, k),
            forall|j: int| 0 <= j < n ==> #[trigger] words@[4 + 8 * j + 6] == last_rank(b, es, us, j, rank as int) as u32,
        decreases usable@.len() - rank,
    {
        let index = usable[rank];
        proof {
            assert(us[rank as int] == index as int);
            lemma_usable_in_range(es, 0);
            assert(us.len() <= crate::best_placements::usable_from(es, 0).len());
            assert(rank < us.len());
            assert(us[rank as int] == crate::best_placements::usable_from(es, 0)[rank as int]);
        }
        let pos = best.placement(index).pos;
        proof {
            assert(es.contains(es[index as int]));
            assert(ranked_entry(b, groups.possible_placements@.to_set(), es[index as int]));
            assert(groups.possible_placements@.contains(pos));
            lemma_frontier_fits(b, pos);
        }
        let key = board.tile_key(pos).unwrap();
        let ghost before = words@;
        proof {
            assert(4 + 8 * key + 6 < 4 + 8 * n) by (nonlinear_arith)
                requires
                    key < n,
            ;
        }
        words.set(4 + 8 * key + 6, rank as u32);
        proof {
            assert forall|j: int, k: int|
                0 <= j < n && 0 <= k < 8 && k != 6 implies #[trigger] words@[4 + 8 * j + k] == cell_word(b, *groups, es, j, k) by {
                assert(4 + 8 * j + k != 4 + 8 * key + 6) by (nonlinear_arith)
                    requires
                        0 <= k < 8,
                        k != 6,
                ;
                assert(words@[4 + 8 * j + k] == before[4 + 8 * j + k]);
            }
            assert forall|j: int| 0 <= j < n implies #[trigger] words@[4 + 8 * j + 6] == last_rank(b, es, us, j, rank + 1) as u32 by {
                if j != key {
                    assert(4 + 8 * j + 6 != 4 + 8 * key + 6);
                    assert(words@[4 + 8 * j + 6] == before[4 + 8 * j + 6]);
                }
            }
        }
        rank += 1;
    }
    proof {
        assert forall|key: int, k: int|
            0 <= key < n && 0 <= k < 8 implies #[trigger] words@[4 + 8 * key + k] == cell_word(b, *groups, es, key, k) by {
            if k == 6 {
                assert(words@[4 + 8 * key + 6] == last_rank(b, es, us, key, rank as int) as u32);
            }
        }
    }
    words
}

/// The render word of segment `i`.
fn segment_word_of(board: &Board, groups: &GroupAssignments, i: usize) -> (r: u32)
    requires
        board.wf(),
        groups.valid_for(*board),
        i < board.segments@.len(),
    ensures
        r == segment_word(*board, *groups, i as int),
{
    let s = *board.segment(i);
    let terrain: u32 = match s.terrain {
        Terrain::Missing => 0,
        Terrain::Empty => 1,
        Terrain::House => 2,
        Terrain::Forest => 3,
        Terrain::Wheat => 4,
        Terrain::Rail => 5,
        Terrain::River => 6,
        Terrain::Lake => 7,
        Terrain::Station => 8,
    };
    let form: u32 = match s.form {
        Form::Size1 => 0,
        Form::Size2 => 1,
        Form::Bridge => 2,
        Form::Straight => 3,
        Form::Size3 => 4,
        Form::JunctionLeft => 5,
        Form::JunctionRight => 6,
        Form::ThreeWay => 7,
        Form::Size4 => 8,
        Form::FanOut => 9,
        Form::X => 10,
        Form::Size5 => 11,
        Form::Size6 => 12,
        Form::LakeSize2 => 14,
        Form::LakeSize3 => 15,
        Form::LakeSize4 => 16,
        Form::LakeSize5 => 17,
    };
    let group: u32 = match groups.group_of(board, i) {
        None => 0,
        Some(g) => {
            proof {
                let t = s.terrain;
                let a = assignment(groups.assigned_groups@, groups.rail_groups@, slot(own_group_terrain(t)), i as int);
                assert(a == Some(g));
                assert(0 <= slot(own_group_terrain(t)) < 2);
            }
            let closed: u32 = if groups.groups[g].is_closed() { 4096 } else { 0 };
            ((g % GROUP_RANGE) as u32) * 8192 + closed
        },
    };
    assert(s.rotation < 6);
    terrain + form * 16 + (s.rotation as u32) * 512 + group
}

} // verus!
