//! Scoring the places and rotations for the next tile, and ranking them.
use vstd::prelude::*;
use crate::data::{Terrain, compatibility};
use crate::connectivity::{reachable, is_walk};
use crate::group_assignments::{GroupAssignments, frontier};
use crate::hex::{Pos, Rotation, neighbor, opposite, neighbors_fit, neighbor_pos_of, opposite_side, adjacent};
use crate::map::Board;

verus! {

/// How placing a tile would change one group.
pub struct GroupEdgeAlteration {
    pub group_size: usize,
    pub open_edges: usize,
    pub diff: i8,
}

/// The evaluation of the next tile at one cell and rotation.
pub struct PlacementScore {
    pub pos: Pos,
    pub rotation: Rotation,
    /// Whether the empty cells around would be split into more than three
    /// runs, leaving a hole or scattered frontier.
    pub split: bool,
    /// Sides that meet a present tile's edge without matching.
    pub mismatched_edges: u8,
    /// Sides that match a present tile's edge.
    pub matching_edges: u8,
    /// Changes to groups the placement would bring; left empty.
    pub group_edge_alterations: Vec<GroupEdgeAlteration>,
}

/// The terrain the next tile, turned by `rot`, shows at side `side`.
pub open spec fn presented(b: Board, rot: int, side: int) -> Terrain {
    b.rendered_next_tile@[(side + rot) % 6]
}

/// The terrain facing side `side` of cell `pos`: the neighbour's opposite
/// edge, or `Missing` where no tile lies.
pub open spec fn facing(b: Board, pos: Pos, side: int) -> Terrain {
    b.terrain_at(neighbor(pos, side), opposite(side))
}

/// How side `side` of the next tile at `pos`, turned by `rot`, fits.
pub open spec fn side_fit(b: Board, pos: Pos, rot: int, side: int) -> Option<bool> {
    compatibility(presented(b, rot, side), facing(b, pos, side))
}

/// Whether the next tile cannot go at `pos` turned by `rot`: some side is
/// incompatible.
pub open spec fn rejected(b: Board, pos: Pos, rot: int) -> bool {
    exists|side: int| 0 <= side < 6 && #[trigger] side_fit(b, pos, rot, side) is None
}

/// The number of sides below `n` that mismatch.
pub open spec fn mismatch_count(b: Board, pos: Pos, rot: int, n: int) -> int
    decreases n,
{
    if n <= 0 {
        0
    } else {
        mismatch_count(b, pos, rot, n - 1) + if side_fit(b, pos, rot, n - 1) == Some(false) {
            1int
        } else {
            0int
        }
    }
}

/// The number of sides below `n` that match an edge of a present tile.
pub open spec fn match_count(b: Board, pos: Pos, rot: int, n: int) -> int
    decreases n,
{
    if n <= 0 {
        0
    } else {
        match_count(b, pos, rot, n - 1) + if side_fit(b, pos, rot, n - 1) == Some(true) && !(facing(
            b,
            pos,
            n - 1,
        ) is Missing) {
            1int
        } else {
            0int
        }
    }
}

/// The number of runs of sides below `n` (at least one) along which
/// "faces an empty cell" keeps its value.
pub open spec fn free_runs(b: Board, pos: Pos, n: int) -> int
    decreases n,
{
    if n <= 1 {
        1
    } else {
        free_runs(b, pos, n - 1) + if (facing(b, pos, n - 1) is Missing) != (facing(b, pos, n - 2) is Missing) {
            1int
        } else {
            0int
        }
    }
}

/// Whether `s` is what scoring the next tile at `pos` turned by `rot` gives.
pub open spec fn scores(b: Board, pos: Pos, rot: int, s: PlacementScore) -> bool {
    &&& s.pos == pos
    &&& s.rotation == rot
    &&& s.mismatched_edges == mismatch_count(b, pos, rot, 6)
    &&& s.matching_edges == match_count(b, pos, rot, 6)
    &&& s.split == (free_runs(b, pos, 6) > 3)
    &&& s.group_edge_alterations@.len() == 0
}

/// Scores the next tile at `pos` turned by `rotation`; `None` where a side
/// is incompatible.
pub fn score_of_next_at(board: &Board, pos: Pos, rotation: Rotation) -> (r: Option<PlacementScore>)
    requires
        board.wf(),
        rotation < 6,
        neighbors_fit(pos),
    ensures
        r is None <==> rejected(*board, pos, rotation as int),
        r matches Some(s) ==> scores(*board, pos, rotation as int, s),
{
    let ghost b = *board;
    let mut mismatched_edges: u8 = 0;
    let mut matching_edges: u8 = 0;
    let mut runs: u8 = 0;
    let mut last_free = false;
    let mut side: usize = 0;
    while side < 6
        invariant
            b == *board,
            b.wf(),
            rotation < 6,
            neighbors_fit(pos),
            side <= 6,
            forall|k: int| 0 <= k < side ==> !(#[trigger] side_fit(b, pos, rotation as int, k) is None),
            mismatched_edges == mismatch_count(b, pos, rotation as int, side as int),
            matching_edges == match_count(b, pos, rotation as int, side as int),
            mismatched_edges <= side,
            matching_edges <= side,
            side == 0 ==> runs == 0,
            side > 0 ==> runs == free_runs(b, pos, side as int) && runs <= side,
            side > 0 ==> last_free == (facing(b, pos, side - 1) is Missing),
        decreases 6 - side,
    {
        let mine = board.rendered_next_tile[(side + rotation) % 6];
        let nb = neighbor_pos_of(pos, side);
        let other_side = opposite_side(side);
        let other = board.terrain_at_side(nb, other_side);
        let is_free = match other {
            Terrain::Missing => true,
            _ => false,
        };
        assert(other == facing(b, pos, side as int));
        match mine.connects_and_matches(other) {
            None => {
                assert(side_fit(b, pos, rotation as int, side as int) is None);
                return None;
            },
            Some(true) => {
                if !is_free {
                    matching_edges += 1;
                }
            },
            Some(false) => {
                mismatched_edges += 1;
            },
        }
        if side == 0 || is_free != last_free {
            runs += 1;
        }
        last_free = is_free;
        side += 1;
    }
    Some(
        PlacementScore {
            pos,
            rotation,
            split: runs > 3,
            mismatched_edges,
            matching_edges,
            group_edge_alterations: Vec::new(),
        },
    )
}

/// What a score says, without its annotations.
pub type Entry = (Pos, Rotation, bool, u8, u8);

pub open spec fn entry(s: PlacementScore) -> Entry {
    (s.pos, s.rotation, s.split, s.mismatched_edges, s.matching_edges)
}

/// Whether `a` ranks below `b`: first what is not split, then fewer
/// mismatches, then more matches, then by cell.
pub open spec fn entry_lt(a: Entry, b: Entry) -> bool {
    let a1: int = if a.2 { 0 } else { 1 };
    let b1: int = if b.2 { 0 } else { 1 };
    let a2 = -(a.3 as int);
    let b2 = -(b.3 as int);
    ||| a1 < b1
    ||| a1 == b1 && a2 < b2
    ||| a1 == b1 && a2 == b2 && a.4 < b.4
    ||| a1 == b1 && a2 == b2 && a.4 == b.4 && a.0.x < b.0.x
    ||| a1 == b1 && a2 == b2 && a.4 == b.4 && a.0.x == b.0.x && a.0.y < b.0.y
}

/// Whether `a` and `b` rank equal: same cell and same counts.
pub open spec fn entry_ties(a: Entry, b: Entry) -> bool {
    a.0 == b.0 && a.2 == b.2 && a.3 == b.3 && a.4 == b.4
}

pub open spec fn sorted(s: Seq<Entry>) -> bool {
    forall|i: int, j: int| 0 <= i < j < s.len() ==> #[trigger] entry_lt(s[i], s[j]) && s[i] != s[j]
}

pub proof fn lemma_entry_order(a: Entry, b: Entry, c: Entry)
    ensures
        !entry_lt(a, a),
        entry_lt(a, b) ==> !entry_lt(b, a),
        entry_lt(a, b) && entry_lt(b, c) ==> entry_lt(a, c),
        !entry_lt(a, b) && !entry_lt(b, a) <==> entry_ties(a, b),
{
}

/// The entry scoring gives the next tile at `pos` turned by `rot`.
pub open spec fn scored_entry(b: Board, pos: Pos, rot: int) -> Entry {
    (pos, rot as usize, free_runs(b, pos, 6) > 3, mismatch_count(b, pos, rot, 6) as u8, match_count(b, pos, rot, 6) as u8)
}

/// Whether placing the next tile at `pos` turned by `rot` is allowed.
pub open spec fn allowed(b: Board, pos: Pos, rot: int) -> bool {
    0 <= rot < 6 && !rejected(b, pos, rot)
}

/// Whether `x` is a fit entry of a ranking of the allowed placements at
/// `cells`: allowed, as scoring gives it, and of lowest rotation in its tie
/// class.
pub open spec fn ranked_entry(b: Board, cells: Set<Pos>, x: Entry) -> bool {
    &&& cells.contains(x.0)
    &&& allowed(b, x.0, x.1 as int)
    &&& x == scored_entry(b, x.0, x.1 as int)
    &&& forall|r: int|
        0 <= r < x.1 && allowed(b, x.0, r) ==> !entry_ties(#[trigger] scored_entry(b, x.0, r), x)
}

/// Whether `s` holds an entry tied with the placement at `pos` turned by
/// `rot`, of no greater rotation.
pub open spec fn covered(b: Board, s: Seq<Entry>, pos: Pos, rot: int) -> bool {
    exists|x: Entry| #[trigger] s.contains(x) && entry_ties(x, scored_entry(b, pos, rot)) && x.1 <= rot
}

/// Whether `s` ranks the allowed placements at the cells `cells`: sorted,
/// one entry per tie class, each the allowed placement of lowest rotation in
/// its class.
pub open spec fn ranks(b: Board, cells: Set<Pos>, s: Seq<Entry>) -> bool {
    &&& sorted(s)
    &&& forall|x: Entry| #[trigger] s.contains(x) ==> ranked_entry(b, cells, x)
    &&& forall|p: Pos, r: int| cells.contains(p) && allowed(b, p, r) ==> #[trigger] covered(b, s, p, r)
}

/// Sorted sequences with the same elements are equal.
pub proof fn lemma_sorted_unique(a: Seq<Entry>, c: Seq<Entry>)
    requires
        sorted(a),
        sorted(c),
        forall|x: Entry| a.contains(x) <==> c.contains(x),
    ensures
        a == c,
    decreases a.len(),
{
    if a.len() == 0 {
        if c.len() > 0 {
            assert(c.contains(c[0]));
        }
        assert(a =~= c);
    } else {
        assert(a.contains(a[0]));
        assert(c.len() > 0);
        assert(c.contains(c[0]));
        let j = choose|j: int| 0 <= j < c.len() && c[j] == a[0];
        let i = choose|i: int| 0 <= i < a.len() && a[i] == c[0];
        lemma_entry_order(a[0], c[0], a[0]);
        if j > 0 {
            assert(entry_lt(c[0], c[j]));
            if i > 0 {
                assert(entry_lt(a[0], a[i]));
            }
        }
        assert(a[0] == c[0]);
        let at = a.drop_first();
        let ct = c.drop_first();
        assert(sorted(at)) by {
            assert forall|p: int, q: int| 0 <= p < q < at.len() implies #[trigger] entry_lt(at[p], at[q]) && at[p] != at[q] by {
                assert(at[p] == a[p + 1] && at[q] == a[q + 1]);
            }
        }
        assert(sorted(ct)) by {
            assert forall|p: int, q: int| 0 <= p < q < ct.len() implies #[trigger] entry_lt(ct[p], ct[q]) && ct[p] != ct[q] by {
                assert(ct[p] == c[p + 1] && ct[q] == c[q + 1]);
            }
        }
        assert forall|x: Entry| at.contains(x) <==> ct.contains(x) by {
            if at.contains(x) {
                let p = choose|p: int| 0 <= p < at.len() && at[p] == x;
                assert(a[p + 1] == x);
                assert(a.contains(x));
                let q = choose|q: int| 0 <= q < c.len() && c[q] == x;
                if q == 0 {
                    assert(entry_lt(a[0], a[p + 1]) && a[0] != a[p + 1]);
                }
                assert(ct[q - 1] == x);
            }
            if ct.contains(x) {
                let p = choose|p: int| 0 <= p < ct.len() && ct[p] == x;
                assert(c[p + 1] == x);
                assert(c.contains(x));
                let q = choose|q: int| 0 <= q < a.len() && a[q] == x;
                if q == 0 {
                    assert(entry_lt(c[0], c[p + 1]) && c[0] != c[p + 1]);
                }
                assert(at[q - 1] == x);
            }
        }
        lemma_sorted_unique(at, ct);
        assert(a =~= seq![a[0]] + at);
        assert(c =~= seq![c[0]] + ct);
    }
}

/// Ranking determinism: two rankings of the allowed placements at the same
/// cells of one board are the same sequence.
pub proof fn lemma_ranking_unique(b: Board, cells: Set<Pos>, s1: Seq<Entry>, s2: Seq<Entry>)
    requires
        ranks(b, cells, s1),
        ranks(b, cells, s2),
    ensures
        s1 == s2,
{
    assert forall|x: Entry| s1.contains(x) implies s2.contains(x) by {
        lemma_ranked_in(b, cells, s1, s2, x);
    }
    assert forall|x: Entry| s2.contains(x) implies s1.contains(x) by {
        lemma_ranked_in(b, cells, s2, s1, x);
    }
    lemma_sorted_unique(s1, s2);
}

proof fn lemma_ranked_in(b: Board, cells: Set<Pos>, s1: Seq<Entry>, s2: Seq<Entry>, x: Entry)
    requires
        ranks(b, cells, s1),
        ranks(b, cells, s2),
        s1.contains(x),
    ensures
        s2.contains(x),
{
    let p = x.0;
    let r = x.1 as int;
    assert(ranked_entry(b, cells, x));
    assert(covered(b, s2, p, r));
    let y = choose|y: Entry| #[trigger] s2.contains(y) && entry_ties(y, scored_entry(b, p, r)) && y.1 <= r;
    assert(ranked_entry(b, cells, y));
    if (y.1 as int) < r {
        assert(!entry_ties(scored_entry(b, x.0, y.1 as int), x));
    }
    assert(y == x);
}

/// Whether `a` ranks below `b`.
fn ranks_below(a: &PlacementScore, b: &PlacementScore) -> (r: bool)
    ensures
        r == entry_lt(entry(*a), entry(*b)),
{
    let a1: u8 = if a.split { 0 } else { 1 };
    let b1: u8 = if b.split { 0 } else { 1 };
    if a1 != b1 {
        return a1 < b1;
    }
    if a.mismatched_edges != b.mismatched_edges {
        return a.mismatched_edges > b.mismatched_edges;
    }
    if a.matching_edges != b.matching_edges {
        return a.matching_edges < b.matching_edges;
    }
    if a.pos.x != b.pos.x {
        return a.pos.x < b.pos.x;
    }
    a.pos.y < b.pos.y
}

/// Whether `a` and `b` rank equal.
fn ties(a: &PlacementScore, b: &PlacementScore) -> (r: bool)
    ensures
        r == entry_ties(entry(*a), entry(*b)),
{
    a.pos == b.pos && a.split == b.split && a.mismatched_edges == b.mismatched_edges
        && a.matching_edges == b.matching_edges
}

pub open spec fn entries(v: Seq<PlacementScore>) -> Seq<Entry> {
    v.map_values(|s: PlacementScore| entry(s))
}

/// Puts `score` in its place in the sorted `v`, unless an entry tied with it
/// is there already.
fn insert_ranked(v: &mut Vec<PlacementScore>, score: PlacementScore)
    requires
        sorted(entries(old(v)@)),
    ensures
        sorted(entries(final(v)@)),
        (exists|x: Entry| #[trigger] entries(old(v)@).contains(x) && entry_ties(x, entry(score)))
            ==> entries(final(v)@) == entries(old(v)@),
        !(exists|x: Entry| #[trigger] entries(old(v)@).contains(x) && entry_ties(x, entry(score)))
            ==> forall|x: Entry| #[trigger] entries(final(v)@).contains(x) <==> (entries(old(v)@).contains(x) || x == entry(score)),
{
    let ghost e = entry(score);
    let ghost es = entries(v@);
    let mut i: usize = 0;
    while i < v.len() && ranks_below(&v[i], &score)
        invariant
            i <= v@.len(),
            es == entries(v@),
            v@ == old(v)@,
            e == entry(score),
            forall|k: int| 0 <= k < i ==> entry_lt(#[trigger] es[k], e),
        decreases v@.len() - i,
    {
        i += 1;
    }
    if i < v.len() && ties(&v[i], &score) {
        proof {
            assert(es.contains(es[i as int]));
        }
        return;
    }
    proof {
        assert forall|x: Entry| #[trigger] es.contains(x) implies !entry_ties(x, e) by {
            let k = choose|k: int| 0 <= k < es.len() && es[k] == x;
            lemma_entry_order(x, e, x);
            if k >= i {
                lemma_entry_order(es[i as int], e, x);
                lemma_entry_order(e, es[i as int], x);
                if k > i {
                    assert(entry_lt(es[i as int], es[k]));
                    lemma_entry_order(e, es[i as int], es[k]);
                }
            }
        }
    }
    v.insert(i, score);
    proof {
        let ns = entries(v@);
        assert(ns =~= es.insert(i as int, e));
        assert forall|p: int, q: int| 0 <= p < q < ns.len() implies #[trigger] entry_lt(ns[p], ns[q]) && ns[p] != ns[q] by {
            if p < i && q < i {
                assert(ns[p] == es[p] && ns[q] == es[q]);
            } else if p < i && q == i {
                assert(ns[p] == es[p]);
            } else if p < i && q > i {
                assert(ns[p] == es[p] && ns[q] == es[q - 1]);
                assert(entry_lt(es[p], es[q - 1]));
            } else if p == i {
                assert(ns[q] == es[q - 1]);
                lemma_entry_order(es[i as int], e, es[i as int]);
                lemma_entry_order(e, es[i as int], es[q - 1]);
                if q - 1 > i {
                    assert(entry_lt(es[i as int], es[q - 1]));
                }
            } else {
                assert(ns[p] == es[p - 1] && ns[q] == es[q - 1]);
            }
        }
        assert forall|x: Entry| #[trigger] ns.contains(x) <==> (es.contains(x) || x == e) by {
            if ns.contains(x) {
                let k = choose|k: int| 0 <= k < ns.len() && ns[k] == x;
                if k < i {
                    assert(es[k] == x);
                } else if k > i {
                    assert(es[k - 1] == x);
                }
            }
            if es.contains(x) {
                let k = choose|k: int| 0 <= k < es.len() && es[k] == x;
                if k < i {
                    assert(ns[k] == x);
                } else {
                    assert(ns[k + 1] == x);
                }
            }
            if x == e {
                assert(ns[i as int] == x);
            }
        }
    }
}

/// A cell of the frontier has all its neighbours within `i32`.
pub proof fn lemma_frontier_fits(b: Board, p: Pos)
    requires
        b.wf(),
        frontier(b, p),
    ensures
        neighbors_fit(p),
        b.in_rect(p),
{
    let q = choose|q: Pos| reachable(b, q) && #[trigger] adjacent(q, p);
    let w = choose|w: Seq<Pos>| is_walk(b, w) && w.last() == q;
    assert(b.has_tile(w[w.len() - 1]));
    assert(b.tile_at(q) is Some);
    let r = choose|r: int| 0 <= r < 6 && neighbor(q, r) == p;
    b.lemma_neighbor_in_rect(q, r);
}

/// Whether `es` is the ranking so far, after the cells before `k` and the
/// rotations before `rot` of cell `k` of `cells`.
pub open spec fn ranked_so_far(b: Board, cells: Seq<Pos>, es: Seq<Entry>, k: int, rot: int) -> bool {
    &&& sorted(es)
    &&& forall|x: Entry|
        #[trigger] es.contains(x) ==> ranked_entry(b, cells.to_set(), x) && exists|k2: int|
            0 <= k2 <= k && k2 < cells.len() && cells[k2] == x.0 && (k2 == k ==> x.1 < rot)
    &&& forall|k2: int, r: int|
        0 <= k2 < cells.len() && ((k2 < k && 0 <= r < 6) || (k2 == k && 0 <= r < rot)) && allowed(
            b,
            cells[k2],
            r,
        ) ==> #[trigger] covered(b, es, cells[k2], r)
}

/// The allowed placements of the next tile, ranked from worst to best.
pub struct BestPlacements {
    best_placements: Vec<PlacementScore>,
}

impl BestPlacements {
    /// The ranked entries, worst first.
    pub closed spec fn ranking(&self) -> Seq<Entry> {
        entries(self.best_placements@)
    }

    /// Scores the next tile at every possible placement of `groups` in
    /// every rotation and ranks the allowed ones.
    pub fn from_board(board: &Board, groups: &GroupAssignments) -> (r: BestPlacements)
        requires
            board.wf(),
            groups.valid_for(*board),
        ensures
            ranks(*board, groups.possible_placements@.to_set(), r.ranking()),
    {
        let ghost b = *board;
        let cells = &groups.possible_placements;
        let ghost cs = cells@;
        let mut v: Vec<PlacementScore> = Vec::new();
        let mut k: usize = 0;
        proof {
            assert(entries(v@).len() == 0);
            assert forall|x: Entry| !(#[trigger] entries(v@).contains(x)) by {
            }
        }
        while k < cells.len()
            invariant
                b == *board,
                b.wf(),
                groups.valid_for(b),
                cs == cells@,
                cs == groups.possible_placements@,
                cs.no_duplicates(),
                k <= cs.len(),
                ranked_so_far(b, cs, entries(v@), k as int, 0),
            decreases cs.len() - k,
        {
            let pos = cells[k];
            proof {
                assert(cs[k as int] == pos);
                assert(cs.contains(pos));
                assert(groups.possible_placements@.contains(pos));
                lemma_frontier_fits(b, pos);
            }
            let mut rot: usize = 0;
            while rot < 6
                invariant
                    b == *board,
                    b.wf(),
                    cs == cells@,
                    cs.no_duplicates(),
                    k < cs.len(),
                    pos == cs[k as int],
                    neighbors_fit(pos),
                    rot <= 6,
                    ranked_so_far(b, cs, entries(v@), k as int, rot as int),
                decreases 6 - rot,
            {
                let ghost es = entries(v@);
                match score_of_next_at(board, pos, rot) {
                    Some(score) => {
                        let ghost e = entry(score);
                        proof {
                            assert(e == scored_entry(b, pos, rot as int));
                            assert(allowed(b, pos, rot as int));
                        }
                        let ghost tied = exists|x: Entry| #[trigger] es.contains(x) && entry_ties(x, e);
                        insert_ranked(&mut v, score);
                        proof {
                            lemma_rank_step(b, cs, es, entries(v@), k as int, rot as int, e, tied);
                        }
                    },
                    None => {
                        proof {
                            assert(!allowed(b, pos, rot as int));
                            assert forall|k2: int, r: int|
                                0 <= k2 < cs.len() && ((k2 < k && 0 <= r < 6) || (k2 == k && 0 <= r < rot + 1))
                                    && allowed(b, cs[k2], r) implies #[trigger] covered(b, es, cs[k2], r) by {
                                if k2 == k && r == rot {
                                    assert(cs[k2] == pos);
                                }
                            }
                            assert forall|x: Entry| #[trigger] es.contains(x) implies ranked_entry(b, cs.to_set(), x) && exists|k2: int|
                                0 <= k2 <= k && k2 < cs.len() && cs[k2] == x.0 && (k2 == k ==> x.1 < rot + 1) by {
                                let k2 = choose|k2: int| 0 <= k2 <= k && k2 < cs.len() && cs[k2] == x.0 && (k2 == k ==> x.1 < rot);
                            }
                        }
                    },
                }
                rot += 1;
            }
            proof {
                let es = entries(v@);
                assert forall|x: Entry| #[trigger] es.contains(x) implies ranked_entry(b, cs.to_set(), x) && exists|k2: int|
                    0 <= k2 <= k + 1 && k2 < cs.len() && cs[k2] == x.0 && (k2 == k + 1 ==> x.1 < 0) by {
                    let k2 = choose|k2: int| 0 <= k2 <= k && k2 < cs.len() && cs[k2] == x.0 && (k2 == k ==> x.1 < 6);
                }
            }
            k += 1;
        }
        proof {
            let es = entries(v@);
            assert forall|p: Pos, r: int| cs.to_set().contains(p) && allowed(b, p, r) implies #[trigger] covered(b, es, p, r) by {
                assert(cs.contains(p));
                let k2 = choose|k2: int| 0 <= k2 < cs.len() && cs[k2] == p;
            }
        }
        BestPlacements { best_placements: v }
    }
}

/// How many of the best usable placements are offered.
pub const USABLE_LIMIT: usize = 30;

/// The indices at or above `i` of entries without mismatches, highest first.
pub open spec fn usable_from(es: Seq<Entry>, i: int) -> Seq<int>
    decreases es.len() - i,
{
    if i >= es.len() || i < 0 {
        seq![]
    } else if es[i].3 == 0 {
        usable_from(es, i + 1).push(i)
    } else {
        usable_from(es, i + 1)
    }
}

/// The usable indices offered: the first `USABLE_LIMIT` of them at most.
pub open spec fn usable_top(es: Seq<Entry>) -> Seq<int> {
    usable_from(es, 0).take(
        if usable_from(es, 0).len() < USABLE_LIMIT {
            usable_from(es, 0).len() as int
        } else {
            USABLE_LIMIT as int
        },
    )
}

pub proof fn lemma_usable_in_range(es: Seq<Entry>, i: int)
    requires
        0 <= i,
    ensures
        forall|k: int| 0 <= k < usable_from(es, i).len() ==> i <= #[trigger] usable_from(es, i)[k] < es.len()
            && es[usable_from(es, i)[k]].3 == 0,
    decreases es.len() - i,
{
    if i < es.len() {
        lemma_usable_in_range(es, i + 1);
        let rest = usable_from(es, i + 1);
        if es[i].3 == 0 {
            assert forall|k: int| 0 <= k < usable_from(es, i).len() implies i <= #[trigger] usable_from(es, i)[k] < es.len()
                && es[usable_from(es, i)[k]].3 == 0 by {
                if k < rest.len() {
                    assert(usable_from(es, i)[k] == rest[k]);
                }
            }
        }
    }
}

pub proof fn lemma_usable_prefix(es: Seq<Entry>, i: int, j: int)
    requires
        0 <= i <= j <= es.len(),
    ensures
        usable_from(es, j).len() <= usable_from(es, i).len(),
        usable_from(es, i).take(usable_from(es, j).len() as int) == usable_from(es, j),
    decreases j - i,
{
    if i < j {
        lemma_usable_prefix(es, i + 1, j);
        let a = usable_from(es, i + 1);
        let c = usable_from(es, j);
        if es[i].3 == 0 {
            assert(usable_from(es, i).take(c.len() as int) =~= a.take(c.len() as int));
        }
    } else {
        assert(usable_from(es, i).take(usable_from(es, i).len() as int) =~= usable_from(es, i));
    }
}

impl BestPlacements {
    /// The number of ranked placements.
    pub fn len(&self) -> (r: usize)
        ensures
            r == self.ranking().len(),
    {
        self.best_placements.len()
    }

    /// The ranked placement at `index`, counted from the worst.
    pub fn placement(&self, index: usize) -> (r: &PlacementScore)
        requires
            index < self.ranking().len(),
        ensures
            entry(*r) == self.ranking()[index as int],
    {
        &self.best_placements[index]
    }

    /// The indices of the best placements without mismatched edges, best
    /// first, at most `USABLE_LIMIT` of them; the rank of each is its
    /// position in the result.
    pub fn iter_usable(&self) -> (r: Vec<usize>)
        ensures
            r@.map_values(|i: usize| i as int) == usable_top(self.ranking()),
    {
        let ghost es = self.ranking();
        let mut r: Vec<usize> = Vec::new();
        let mut i: usize = self.best_placements.len();
        while i > 0 && r.len() < USABLE_LIMIT
            invariant
                es == self.ranking(),
                i <= es.len(),
                r@.map_values(|k: usize| k as int) == usable_from(es, i as int),
                r@.len() <= USABLE_LIMIT,
            decreases i,
        {
            i -= 1;
            if self.best_placements[i].mismatched_edges == 0 {
                r.push(i);
                proof {
                    assert(r@.map_values(|k: usize| k as int) =~= usable_from(es, i as int + 1).push(i as int));
                }
            } else {
                proof {
                    assert(es[i as int].3 == self.best_placements@[i as int].mismatched_edges);
                }
            }
        }
        proof {
            lemma_usable_prefix(es, 0, i as int);
            let all = usable_from(es, 0);
            let got = usable_from(es, i as int);
            if i > 0 {
                assert(got.len() == USABLE_LIMIT);
            } else {
                assert(all.take(all.len() as int) =~= all);
            }
        }
        r
    }
}

/// One scored placement added by `insert_ranked` keeps the ranking so far.
proof fn lemma_rank_step(
    b: Board,
    cs: Seq<Pos>,
    es: Seq<Entry>,
    ns: Seq<Entry>,
    k: int,
    rot: int,
    e: Entry,
    tied: bool,
)
    requires
        ranked_so_far(b, cs, es, k, rot),
        cs.no_duplicates(),
        0 <= k < cs.len(),
        0 <= rot < 6,
        e == scored_entry(b, cs[k], rot),
        allowed(b, cs[k], rot),
        tied == exists|x: Entry| #[trigger] es.contains(x) && entry_ties(x, e),
        sorted(ns),
        tied ==> ns == es,
        !tied ==> forall|x: Entry| #[trigger] ns.contains(x) <==> (es.contains(x) || x == e),
    ensures
        ranked_so_far(b, cs, ns, k, rot + 1),
{
    let pos = cs[k];
    assert(cs.to_set().contains(pos));
    if tied {
        let y = choose|y: Entry| #[trigger] es.contains(y) && entry_ties(y, e);
        let k2 = choose|k2: int| 0 <= k2 <= k && k2 < cs.len() && cs[k2] == y.0 && (k2 == k ==> y.1 < rot);
        assert(y.0 == pos);
        assert(k2 == k);
        assert(covered(b, es, pos, rot));
        assert forall|k3: int, r: int|
            0 <= k3 < cs.len() && ((k3 < k && 0 <= r < 6) || (k3 == k && 0 <= r < rot + 1)) && allowed(b, cs[k3], r)
                implies #[trigger] covered(b, ns, cs[k3], r) by {
        }
        assert forall|x: Entry| #[trigger] ns.contains(x) implies ranked_entry(b, cs.to_set(), x) && exists|k3: int|
            0 <= k3 <= k && k3 < cs.len() && cs[k3] == x.0 && (k3 == k ==> x.1 < rot + 1) by {
            let k3 = choose|k3: int| 0 <= k3 <= k && k3 < cs.len() && cs[k3] == x.0 && (k3 == k ==> x.1 < rot);
        }
    } else {
        assert(ranked_entry(b, cs.to_set(), e)) by {
            assert forall|r: int| 0 <= r < e.1 && allowed(b, e.0, r) implies !entry_ties(#[trigger] scored_entry(b, e.0, r), e) by {
                assert(covered(b, es, cs[k], r));
                let y = choose|y: Entry| #[trigger] es.contains(y) && entry_ties(y, scored_entry(b, cs[k], r)) && y.1 <= r;
                if entry_ties(scored_entry(b, e.0, r), e) {
                    assert(entry_ties(y, e));
                }
            }
        }
        assert forall|x: Entry| #[trigger] ns.contains(x) implies ranked_entry(b, cs.to_set(), x) && exists|k3: int|
            0 <= k3 <= k && k3 < cs.len() && cs[k3] == x.0 && (k3 == k ==> x.1 < rot + 1) by {
            if x != e {
                assert(es.contains(x));
                let k3 = choose|k3: int| 0 <= k3 <= k && k3 < cs.len() && cs[k3] == x.0 && (k3 == k ==> x.1 < rot);
            } else {
                assert(cs[k] == x.0);
            }
        }
        assert forall|k3: int, r: int|
            0 <= k3 < cs.len() && ((k3 < k && 0 <= r < 6) || (k3 == k && 0 <= r < rot + 1)) && allowed(b, cs[k3], r)
                implies #[trigger] covered(b, ns, cs[k3], r) by {
            if k3 == k && r == rot {
                assert(ns.contains(e));
                assert(entry_ties(e, scored_entry(b, cs[k3], r)));
            } else {
                assert(covered(b, es, cs[k3], r));
                let y = choose|y: Entry| #[trigger] es.contains(y) && entry_ties(y, scored_entry(b, cs[k3], r)) && y.1 <= r;
                assert(ns.contains(y));
            }
        }
    }
}

} // verus!
