//! The 3x3 board, its Manhattan distance to the goal, the inversion-parity
//! test and the moves of the blank.

use vstd::prelude::*;
use crate::reach::{reaches, lemma_solvable_iff_even};

verus! {

/// A 3x3 sliding-puzzle board stored row by row; `0` is the blank and
/// `1..=8` are the tiles.
#[derive(Debug, Clone, Copy, Hash)]
pub struct Board {
    data: [u8; 9],
}

impl View for Board {
    type V = Seq<u8>;

    closed spec fn view(&self) -> Seq<u8> {
        self.data@
    }
}

/// Every board has exactly nine cells.
pub broadcast proof fn lemma_board_len(b: Board)
    ensures
        #[trigger] b@.len() == 9,
{
}

/// The solved position `1 2 3 / 4 5 6 / 7 8 _`.
pub open spec fn goal_cells() -> Seq<u8> {
    seq![1u8, 2, 3, 4, 5, 6, 7, 8, 0]
}

/// For each value `v`, the index that `v` occupies in the solved position.
pub open spec fn goal_table() -> Seq<usize> {
    seq![8usize, 0, 1, 2, 3, 4, 5, 6, 7]
}

/// Nine cells, each holding a value below nine.
pub open spec fn cells_below_nine(s: Seq<u8>) -> bool {
    &&& s.len() == 9
    &&& forall|i: int| 0 <= i < 9 ==> #[trigger] s[i] < 9
}

/// Nine cells holding each of `0` to `8` exactly once.
pub open spec fn is_tile_permutation(s: Seq<u8>) -> bool {
    &&& cells_below_nine(s)
    &&& forall|i: int, j: int| 0 <= i < j < 9 ==> #[trigger] s[i] != #[trigger] s[j]
}

/// Nine distinct values below nine take every value below nine.
pub proof fn lemma_permutation_has_every_value(s: Seq<u8>)
    requires
        is_tile_permutation(s),
    ensures
        forall|v: u8| v < 9 ==> #[trigger] s.contains(v),
{
    let dom = vstd::set_lib::set_int_range(0, 9);
    let f = |i: int| s[i] as int;
    let img = dom.map(f);
    vstd::set_lib::lemma_int_range(0, 9);
    assert(vstd::relations::injective_on(f, dom)) by {
        assert forall|x1: int, x2: int|
            dom.contains(x1) && dom.contains(x2) && #[trigger] f(x1) == #[trigger] f(x2) implies x1 == x2 by {
            if x1 < x2 {
                assert(s[x1] != s[x2]);
            } else if x2 < x1 {
                assert(s[x2] != s[x1]);
            }
        }
    }
    vstd::set_lib::lemma_map_size(dom, img, f);
    assert(img.subset_of(dom)) by {
        assert forall|v: int| img.contains(v) implies dom.contains(v) by {
            let i = choose|i: int| dom.contains(i) && f(i) == v;
            assert(s[i] < 9);
        }
    }
    vstd::set_lib::lemma_subset_equality(img, dom);
    assert forall|v: u8| v < 9 implies #[trigger] s.contains(v) by {
        assert(dom.contains(v as int));
        assert(img.contains(v as int));
        let i = choose|i: int| dom.contains(i) && f(i) == v as int;
        assert(s[i] == v);
    }
}

/// A position table maps each of the nine values to one of the nine cells.
pub open spec fn positions_valid(gp: Seq<usize>) -> bool {
    &&& gp.len() == 9
    &&& forall|v: int| 0 <= v < 9 ==> #[trigger] gp[v] < 9
}

pub open spec fn abs_diff(a: int, b: int) -> int {
    if a >= b { a - b } else { b - a }
}

/// Distance of the value `v` standing at cell `pos` from its target cell
/// `gp[v]`: rows apart plus columns apart; the blank counts zero.
pub open spec fn tile_distance(pos: int, v: u8, gp: Seq<usize>) -> int {
    if v == 0 {
        0
    } else {
        let target = gp[v as int] as int;
        abs_diff(pos / 3, target / 3) + abs_diff(pos % 3, target % 3)
    }
}

/// Sum of the tile distances of the first `k` cells.
pub open spec fn manhattan_upto(s: Seq<u8>, gp: Seq<usize>, k: int) -> int
    decreases k,
{
    if k <= 0 {
        0
    } else {
        manhattan_upto(s, gp, k - 1) + tile_distance(k - 1, s[k - 1], gp)
    }
}

/// The Manhattan distance of the cells `s` under the position table `gp`.
pub open spec fn manhattan(s: Seq<u8>, gp: Seq<usize>) -> int {
    manhattan_upto(s, gp, 9)
}

/// The target row of every tile is small enough for the signed 32-bit
/// arithmetic of the distance computation.
pub open spec fn rows_fit(s: Seq<u8>, gp: Seq<usize>) -> bool {
    forall|i: int| 0 <= i < 9 && s[i] != 0 ==> gp[#[trigger] s[i] as int] / 3 + 2 <= i32::MAX
}

/// Partial Manhattan sums grow with the number of cells summed.
pub proof fn lemma_manhattan_upto_monotone(s: Seq<u8>, gp: Seq<usize>, j: int, k: int)
    requires
        0 <= j <= k,
    ensures
        0 <= manhattan_upto(s, gp, j) <= manhattan_upto(s, gp, k),
    decreases k,
{
    if j < k {
        lemma_manhattan_upto_monotone(s, gp, j, k - 1);
    } else if k > 0 {
        lemma_manhattan_upto_monotone(s, gp, 0, k - 1);
    }
}

/// A valid position table keeps every target row small.
pub proof fn lemma_positions_valid_rows_fit(s: Seq<u8>, gp: Seq<usize>)
    requires
        cells_below_nine(s),
        positions_valid(gp),
    ensures
        rows_fit(s, gp),
{
    assert forall|i: int| 0 <= i < 9 && s[i] != 0 implies gp[#[trigger] s[i] as int] / 3 + 2 <= i32::MAX by {
        assert(s[i] < 9);
    }
}

/// Each cell contributes at most four, so the first `k` cells at most `4k`.
pub proof fn lemma_manhattan_upto_bound(s: Seq<u8>, gp: Seq<usize>, k: int)
    requires
        cells_below_nine(s),
        positions_valid(gp),
        0 <= k <= 9,
    ensures
        0 <= manhattan_upto(s, gp, k) <= 4 * k,
    decreases k,
{
    if k > 0 {
        lemma_manhattan_upto_bound(s, gp, k - 1);
        assert(s[k - 1] < 9);
    }
}

impl Board {
    /// The position table of the solved board `1 2 3 / 4 5 6 / 7 8 _`.
    pub const GOAL_POSITIONS: [usize; 9] = [8, 0, 1, 2, 3, 4, 5, 6, 7];

    /// A board holding the given nine cells, row by row.
    pub fn from_array(data: [u8; 9]) -> (b: Board)
        ensures
            b@ == data@,
    {
        Board { data }
    }

    /// Sum over the tiles of rows apart plus columns apart from the cell
    /// that `goal_positions` assigns them; the blank is not counted.
    pub fn manhattan_distance(&self, goal_positions: &[usize; 9]) -> (distance: u32)
        requires
            cells_below_nine(self@),
            rows_fit(self@, goal_positions@),
            manhattan(self@, goal_positions@) <= u32::MAX,
        ensures
            distance == manhattan(self@, goal_positions@),
    {
        proof {
            lemma_manhattan_upto_monotone(self.data@, goal_positions@, 0, 9);
        }
        let mut distance: u32 = 0;
        let mut i: usize = 0;
        while i < 9
            invariant
                0 <= i <= 9,
                cells_below_nine(self.data@),
                rows_fit(self.data@, goal_positions@),
                manhattan(self.data@, goal_positions@) <= u32::MAX,
                distance == manhattan_upto(self.data@, goal_positions@, i as int),
            decreases 9 - i,
        {
            proof {
                lemma_manhattan_upto_monotone(self.data@, goal_positions@, i + 1, 9);
            }
            let value = self.data[i];
            if value != 0 {
                let current_row: usize = i / 3;
                let current_col: usize = i % 3;
                let goal_idx: usize = goal_positions[value as usize];
                let goal_row: usize = goal_idx / 3;
                let goal_col: usize = goal_idx % 3;
                let dr: usize = if current_row >= goal_row {
                    current_row - goal_row
                } else {
                    goal_row - current_row
                };
                let dc: usize = if current_col >= goal_col {
                    current_col - goal_col
                } else {
                    goal_col - current_col
                };
                distance = distance + (dr + dc) as u32;
            }
            i = i + 1;
        }
        distance
    }
}

/// Two boards are equal when all nine cells agree.
impl PartialEq for Board {
    fn eq(&self, other: &Board) -> (r: bool) {
        let mut i: usize = 0;
        while i < 9
            invariant
                0 <= i <= 9,
                forall|j: int| 0 <= j < i ==> self.data@[j] == other.data@[j],
            decreases 9 - i,
        {
            if self.data[i] != other.data[i] {
                return false;
            }
            i = i + 1;
        }
        assert(self.data@ =~= other.data@);
        true
    }
}

impl vstd::std_specs::cmp::PartialEqSpecImpl for Board {
    open spec fn obeys_eq_spec() -> bool {
        true
    }

    open spec fn eq_spec(&self, other: &Board) -> bool {
        self@ == other@
    }
}

impl Eq for Board {}

// ---------------------------------------------------------------------------
// Keys: the cells read as a base-9 number
// ---------------------------------------------------------------------------

/// The cells read as a number in base 9, the first cell being the lowest digit.
pub open spec fn board_key(s: Seq<u8>) -> int
    decreases s.len(),
{
    if s.len() == 0 {
        0
    } else {
        s[0] + 9 * board_key(s.drop_first())
    }
}

pub open spec fn pow9(n: nat) -> int
    decreases n,
{
    if n == 0 {
        1
    } else {
        9 * pow9((n - 1) as nat)
    }
}

/// Number of distinct keys of boards whose cells are all below nine.
pub open spec fn key_space() -> int {
    387420489
}

pub proof fn lemma_key_bound(s: Seq<u8>)
    requires
        forall|i: int| 0 <= i < s.len() ==> #[trigger] s[i] < 9,
    ensures
        0 <= board_key(s) < pow9(s.len()),
    decreases s.len(),
{
    if s.len() > 0 {
        let t = s.drop_first();
        assert forall|i: int| 0 <= i < t.len() implies #[trigger] t[i] < 9 by {
            assert(t[i] == s[i + 1]);
        }
        lemma_key_bound(t);
        assert(s[0] < 9);
    }
}

/// Boards with cells below nine have keys below `9^9`.
pub proof fn lemma_board_key_in_space(s: Seq<u8>)
    requires
        cells_below_nine(s),
    ensures
        0 <= board_key(s) < key_space(),
{
    lemma_key_bound(s);
    lemma_pow9_nine();
}

/// The key determines the cells.
pub proof fn lemma_key_injective(s: Seq<u8>, t: Seq<u8>)
    requires
        s.len() == t.len(),
        forall|i: int| 0 <= i < s.len() ==> #[trigger] s[i] < 9,
        forall|i: int| 0 <= i < t.len() ==> #[trigger] t[i] < 9,
        board_key(s) == board_key(t),
    ensures
        s == t,
    decreases s.len(),
{
    if s.len() > 0 {
        let s1 = s.drop_first();
        let t1 = t.drop_first();
        assert forall|i: int| 0 <= i < s1.len() implies #[trigger] s1[i] < 9 by {
            assert(s1[i] == s[i + 1]);
        }
        assert forall|i: int| 0 <= i < t1.len() implies #[trigger] t1[i] < 9 by {
            assert(t1[i] == t[i + 1]);
        }
        lemma_key_bound(s1);
        lemma_key_bound(t1);
        assert(s[0] < 9 && t[0] < 9);
        assert(s[0] == t[0]);
        lemma_key_injective(s1, t1);
        assert(s =~= t) by {
            assert forall|i: int| 0 <= i < s.len() implies s[i] == t[i] by {
                if i > 0 {
                    assert(s[i] == s1[i - 1]);
                    assert(t[i] == t1[i - 1]);
                }
            }
        }
    }
}

// ---------------------------------------------------------------------------
// Moves of the blank
// ---------------------------------------------------------------------------

/// `e` is the first cell holding the blank.
pub open spec fn is_first_blank(s: Seq<u8>, e: int) -> bool {
    &&& 0 <= e < s.len()
    &&& s[e] == 0
    &&& forall|j: int| 0 <= j < e ==> #[trigger] s[j] != 0
}

/// The cells next to `e` on a 3x3 grid, in the order up, down, left, right.
pub open spec fn neighbours(e: int) -> Seq<int> {
    let row = e / 3;
    let col = e % 3;
    (if row > 0 { seq![e - 3] } else { Seq::<int>::empty() })
        + (if row < 2 { seq![e + 3] } else { Seq::<int>::empty() })
        + (if col > 0 { seq![e - 1] } else { Seq::<int>::empty() })
        + (if col < 2 { seq![e + 1] } else { Seq::<int>::empty() })
}

/// The cells `s` with the contents of cells `e` and `q` exchanged.
pub open spec fn slide(s: Seq<u8>, e: int, q: int) -> Seq<u8> {
    s.update(e, s[q]).update(q, s[e])
}

/// Sliding tile `t` into the blank turns `s` into `s2`: the tile stands
/// next to the first blank and trades places with it.
pub open spec fn step_to(s: Seq<u8>, t: u8, s2: Seq<u8>) -> bool {
    exists|e: int, q: int|
        #![trigger slide(s, e, q)]
        is_first_blank(s, e) && neighbours(e).contains(q) && s[q] == t && s2 == slide(s, e, q)
}

/// Playing the tiles `moves` one after another leads from `s` to `target`.
pub open spec fn leads_to(s: Seq<u8>, moves: Seq<u8>, target: Seq<u8>) -> bool
    decreases moves.len(),
{
    if moves.len() == 0 {
        s == target
    } else {
        exists|s2: Seq<u8>|
            #[trigger] step_to(s, moves[0], s2) && leads_to(s2, moves.drop_first(), target)
    }
}

/// The neighbours of a cell lie on the board, differ from it, and number
/// at most four.
pub proof fn lemma_neighbours_on_board(e: int)
    requires
        0 <= e < 9,
    ensures
        neighbours(e).len() <= 4,
        forall|q: int| #[trigger] neighbours(e).contains(q) ==> 0 <= q < 9 && q != e,
{
    let row = e / 3;
    let col = e % 3;
    let up = if row > 0 { seq![e - 3] } else { Seq::<int>::empty() };
    let down = if row < 2 { seq![e + 3] } else { Seq::<int>::empty() };
    let left = if col > 0 { seq![e - 1] } else { Seq::<int>::empty() };
    let right = if col < 2 { seq![e + 1] } else { Seq::<int>::empty() };
    assert(neighbours(e) == up + down + left + right);
    assert forall|q: int| #[trigger] neighbours(e).contains(q) implies 0 <= q < 9 && q != e by {
        let i = choose|i: int| 0 <= i < neighbours(e).len() && neighbours(e)[i] == q;
        let n = neighbours(e);
        let a = up.len();
        let b = a + down.len();
        let c = b + left.len();
        if i < a {
            assert(n[i] == up[i]);
        } else if i < b {
            assert(n[i] == down[i - a]);
        } else if i < c {
            assert(n[i] == left[i - b]);
        } else {
            assert(n[i] == right[i - c]);
        }
    }
}

/// Sliding a neighbour into the blank keeps the cells below nine and a
/// blank on the board; sliding a second blank changes nothing.
pub proof fn lemma_slide_cells(s: Seq<u8>, e: int, q: int)
    requires
        cells_below_nine(s),
        0 <= e < 9,
        0 <= q < 9,
        s[e] == 0,
    ensures
        cells_below_nine(slide(s, e, q)),
        slide(s, e, q)[q] == 0,
        slide(s, e, q).contains(0),
        e != q ==> slide(s, e, q)[e] == s[q],
        s[q] == 0 ==> slide(s, e, q) == s,
{
    let r = slide(s, e, q);
    assert forall|i: int| 0 <= i < 9 implies #[trigger] r[i] < 9 by {
        if i == q {
        } else if i == e {
            assert(s[q] < 9);
        } else {
            assert(s[i] < 9);
        }
    }
    assert(r[q] == 0);
    if s[q] == 0 {
        assert(r =~= s);
    }
}

/// A path to `mid` followed by one more move is a path to where that move leads.
pub proof fn lemma_leads_to_push(s: Seq<u8>, moves: Seq<u8>, mid: Seq<u8>, t: u8, target: Seq<u8>)
    requires
        leads_to(s, moves, mid),
        step_to(mid, t, target),
    ensures
        leads_to(s, moves.push(t), target),
    decreases moves.len(),
{
    if moves.len() == 0 {
        assert(s == mid);
        assert(moves.push(t).drop_first() =~= Seq::<u8>::empty());
        assert(leads_to(target, moves.push(t).drop_first(), target));
        assert(step_to(s, moves.push(t)[0], target));
    } else {
        let s2 = choose|s2: Seq<u8>|
            #[trigger] step_to(s, moves[0], s2) && leads_to(s2, moves.drop_first(), mid);
        lemma_leads_to_push(s2, moves.drop_first(), mid, t, target);
        assert(moves.push(t).drop_first() =~= moves.drop_first().push(t));
        assert(moves.push(t)[0] == moves[0]);
        assert(step_to(s, moves.push(t)[0], s2));
    }
}

/// Changing two cells changes the partial Manhattan sums only by the
/// change in those two cells' distances.
proof fn lemma_manhattan_two_cells(
    s: Seq<u8>,
    s2: Seq<u8>,
    gp: Seq<usize>,
    e: int,
    q: int,
    k: int,
)
    requires
        s.len() == 9,
        s2.len() == 9,
        0 <= e < 9,
        0 <= q < 9,
        e != q,
        0 <= k <= 9,
        forall|p: int| 0 <= p < 9 && p != e && p != q ==> #[trigger] s2[p] == s[p],
    ensures
        manhattan_upto(s2, gp, k) - manhattan_upto(s, gp, k) == (if e < k {
            tile_distance(e, s2[e], gp) - tile_distance(e, s[e], gp)
        } else {
            0
        }) + (if q < k {
            tile_distance(q, s2[q], gp) - tile_distance(q, s[q], gp)
        } else {
            0
        }),
    decreases k,
{
    if k > 0 {
        lemma_manhattan_two_cells(s, s2, gp, e, q, k - 1);
    }
}

/// A value's distance from a fixed target cell changes by at most one
/// between neighbouring cells.
proof fn lemma_neighbour_distance(e: int, q: int, target: int)
    requires
        0 <= e < 9,
        neighbours(e).contains(q),
        0 <= target < 9,
    ensures
        abs_diff(
            abs_diff(e / 3, target / 3) + abs_diff(e % 3, target % 3),
            abs_diff(q / 3, target / 3) + abs_diff(q % 3, target % 3),
        ) == 1,
{
    lemma_neighbours_on_board(e);
    let row = e / 3;
    let col = e % 3;
    let up = if row > 0 { seq![e - 3] } else { Seq::<int>::empty() };
    let down = if row < 2 { seq![e + 3] } else { Seq::<int>::empty() };
    let left = if col > 0 { seq![e - 1] } else { Seq::<int>::empty() };
    let right = if col < 2 { seq![e + 1] } else { Seq::<int>::empty() };
    assert(neighbours(e) == up + down + left + right);
    let i = choose|i: int| 0 <= i < neighbours(e).len() && neighbours(e)[i] == q;
    let n = neighbours(e);
    let a = up.len();
    let b = a + down.len();
    let c = b + left.len();
    if i < a {
        assert(n[i] == up[i]);
        assert(q == e - 3 && row > 0);
        assert(q / 3 == row - 1 && q % 3 == col);
    } else if i < b {
        assert(n[i] == down[i - a]);
        assert(q == e + 3 && row < 2);
        assert(q / 3 == row + 1 && q % 3 == col);
    } else if i < c {
        assert(n[i] == left[i - b]);
        assert(q == e - 1 && col > 0);
        assert(q / 3 == row && q % 3 == col - 1);
    } else {
        assert(n[i] == right[i - c]);
        assert(q == e + 1 && col < 2);
        assert(q / 3 == row && q % 3 == col + 1);
    }
}

/// One move changes the Manhattan distance by at most one, and by exactly
/// one when the moved tile is not a blank.
pub proof fn lemma_move_changes_distance_by_at_most_one(
    s: Seq<u8>,
    t: u8,
    s2: Seq<u8>,
    gp: Seq<usize>,
)
    requires
        cells_below_nine(s),
        positions_valid(gp),
        step_to(s, t, s2),
    ensures
        cells_below_nine(s2),
        abs_diff(manhattan(s2, gp), manhattan(s, gp)) <= 1,
        t != 0 ==> abs_diff(manhattan(s2, gp), manhattan(s, gp)) == 1,
{
    let (e, q) = choose|e: int, q: int|
        #![trigger slide(s, e, q)]
        is_first_blank(s, e) && neighbours(e).contains(q) && s[q] == t && s2 == slide(s, e, q);
    lemma_neighbours_on_board(e);
    lemma_slide_cells(s, e, q);
    lemma_manhattan_two_cells(s, s2, gp, e, q, 9);
    if t != 0 {
        assert(s[q] < 9);
        lemma_neighbour_distance(e, q, gp[t as int] as int);
    }
}

/// The Manhattan distance never exceeds the number of moves needed: a
/// sequence of moves from `s` to `target` is at least as long as the
/// difference of their distances.
pub proof fn lemma_manhattan_admissible(s: Seq<u8>, moves: Seq<u8>, target: Seq<u8>, gp: Seq<usize>)
    requires
        cells_below_nine(s),
        positions_valid(gp),
        leads_to(s, moves, target),
    ensures
        manhattan(s, gp) <= manhattan(target, gp) + moves.len(),
    decreases moves.len(),
{
    if moves.len() > 0 {
        let s2 = choose|s2: Seq<u8>|
            #[trigger] step_to(s, moves[0], s2) && leads_to(s2, moves.drop_first(), target);
        lemma_move_changes_distance_by_at_most_one(s, moves[0], s2, gp);
        lemma_manhattan_admissible(s2, moves.drop_first(), target, gp);
    }
}

/// The solved board is at distance zero from the goal table.
pub proof fn lemma_goal_distance_zero()
    ensures
        manhattan(goal_cells(), goal_table()) == 0,
{
    reveal_with_fuel(manhattan_upto, 10);
}

/// Changing one cell changes the partial Manhattan sums only by the change
/// in that cell's distance.
proof fn lemma_manhattan_one_cell(s: Seq<u8>, s2: Seq<u8>, gp: Seq<usize>, p: int, k: int)
    requires
        s.len() == 9,
        s2.len() == 9,
        0 <= p < 9,
        0 <= k <= 9,
        forall|c: int| 0 <= c < 9 && c != p ==> #[trigger] s2[c] == s[c],
    ensures
        manhattan_upto(s2, gp, k) - manhattan_upto(s, gp, k) == (if p < k {
            tile_distance(p, s2[p], gp) - tile_distance(p, s[p], gp)
        } else {
            0
        }),
    decreases k,
{
    if k > 0 {
        lemma_manhattan_one_cell(s, s2, gp, p, k - 1);
    }
}

/// A tile `v` standing in cell `p` adds to the Manhattan distance exactly
/// the rows plus the columns between `p` and its target cell `gp[v]`,
/// compared with the same board holding the blank in `p`.
pub proof fn lemma_tile_adds_its_grid_distance(s: Seq<u8>, gp: Seq<usize>, p: int, v: u8)
    requires
        s.len() == 9,
        gp.len() == 9,
        0 <= p < 9,
        0 < v < 9,
    ensures
        manhattan(s.update(p, v), gp) == manhattan(s.update(p, 0u8), gp) + (if p / 3 >= gp[v as int]
            / 3 {
            p / 3 - gp[v as int] / 3
        } else {
            gp[v as int] / 3 - p / 3
        }) + (if p % 3 >= gp[v as int] % 3 {
            p % 3 - gp[v as int] % 3
        } else {
            gp[v as int] % 3 - p % 3
        }),
{
    let a = s.update(p, 0u8);
    let b = s.update(p, v);
    lemma_manhattan_one_cell(a, b, gp, p, 9);
}

/// Partial Manhattan sums vanish exactly when every tile counted so far
/// stands on its target cell.
proof fn lemma_manhattan_upto_zero(s: Seq<u8>, gp: Seq<usize>, k: int)
    requires
        cells_below_nine(s),
        positions_valid(gp),
        0 <= k <= 9,
    ensures
        manhattan_upto(s, gp, k) >= 0,
        manhattan_upto(s, gp, k) == 0 <==> forall|c: int|
            0 <= c < k && #[trigger] s[c] != 0 ==> gp[s[c] as int] == c,
    decreases k,
{
    if k > 0 {
        lemma_manhattan_upto_zero(s, gp, k - 1);
        let c = k - 1;
        if s[c] != 0 {
            let t = gp[s[c] as int] as int;
            assert(0 <= t < 9);
            if tile_distance(c, s[c], gp) == 0 {
                assert(t / 3 == c / 3 && t % 3 == c % 3);
                assert(t == c);
            }
        }
    }
}

/// The Manhattan distance is zero exactly when every tile stands on the
/// cell the table gives it.
pub proof fn lemma_manhattan_zero_iff_placed(s: Seq<u8>, gp: Seq<usize>)
    requires
        cells_below_nine(s),
        positions_valid(gp),
    ensures
        manhattan(s, gp) == 0 <==> forall|c: int|
            0 <= c < 9 && #[trigger] s[c] != 0 ==> gp[s[c] as int] == c,
{
    lemma_manhattan_upto_zero(s, gp, 9);
}

/// The cells next to `empty_pos`, in the order up, down, left, right.
pub fn get_valid_moves(empty_pos: usize) -> (moves: Vec<usize>)
    requires
        empty_pos < usize::MAX,
    ensures
        moves@.map_values(|m: usize| m as int) == neighbours(empty_pos as int),
{
    let mut moves: Vec<usize> = Vec::new();
    let row = empty_pos / 3;
    let col = empty_pos % 3;
    let ghost e = empty_pos as int;
    let ghost up = if row > 0 { seq![e - 3] } else { Seq::<int>::empty() };
    let ghost down = if row < 2 { seq![e + 3] } else { Seq::<int>::empty() };
    let ghost left = if col > 0 { seq![e - 1] } else { Seq::<int>::empty() };

    if row > 0 {
        moves.push(empty_pos - 3);
    }
    assert(moves@.map_values(|m: usize| m as int) =~= up);
    if row < 2 {
        moves.push(empty_pos + 3);
    }
    assert(moves@.map_values(|m: usize| m as int) =~= up + down);
    if col > 0 {
        moves.push(empty_pos - 1);
    }
    assert(moves@.map_values(|m: usize| m as int) =~= up + down + left);
    if col < 2 {
        moves.push(empty_pos + 1);
    }
    assert(moves@.map_values(|m: usize| m as int) =~= neighbours(e));
    moves
}

impl Board {
    /// The key of the board: its cells read as a base-9 number.
    pub fn key(&self) -> (k: u32)
        requires
            cells_below_nine(self@),
        ensures
            k == board_key(self@),
    {
        let ghost s = self.data@;
        let mut k: u32 = 0;
        let mut i: usize = 9;
        assert(s.subrange(9, 9) =~= Seq::<u8>::empty());
        while i > 0
            invariant
                0 <= i <= 9,
                s == self.data@,
                cells_below_nine(s),
                k == board_key(s.subrange(i as int, 9)),
                k < pow9((9 - i) as nat),
                pow9((9 - i) as nat) <= 387420489,
            decreases i,
        {
            let ghost tail = s.subrange(i as int, 9);
            let ghost longer = s.subrange(i - 1, 9);
            assert(longer.drop_first() =~= tail);
            assert(pow9((9 - i + 1) as nat) == 9 * pow9((9 - i) as nat));
            proof { lemma_pow9_nine(); }
            assert(pow9((9 - i + 1) as nat) <= 387420489) by {
                lemma_pow9_monotone((9 - i + 1) as nat, 9);
            }
            k = k * 9 + self.data[i - 1] as u32;
            i = i - 1;
        }
        assert(s.subrange(0, 9) =~= s);
        k
    }

    /// The key of the board, or `None` when some cell is nine or more.
    pub fn checked_key(&self) -> (k: Option<u32>)
        ensures
            k == (if cells_below_nine(self@) {
                Some(board_key(self@) as u32)
            } else {
                None::<u32>
            }),
    {
        let mut i: usize = 0;
        while i < 9
            invariant
                0 <= i <= 9,
                forall|j: int| 0 <= j < i ==> #[trigger] self.data@[j] < 9,
            decreases 9 - i,
        {
            if self.data[i] >= 9 {
                return None;
            }
            i = i + 1;
        }
        Some(self.key())
    }

    /// The first cell holding the blank.
    pub fn blank_position(&self) -> (e: usize)
        requires
            self@.contains(0),
        ensures
            is_first_blank(self@, e as int),
    {
        let mut i: usize = 0;
        while i < 9
            invariant
                0 <= i <= 9,
                self.data@.contains(0),
                forall|j: int| 0 <= j < i ==> #[trigger] self.data@[j] != 0,
            decreases 9 - i,
        {
            if self.data[i] == 0 {
                return i;
            }
            i = i + 1;
        }
        assert(false);
        0
    }

    /// The value in cell `i`.
    pub fn tile(&self, i: usize) -> (v: u8)
        requires
            i < 9,
        ensures
            v == self@[i as int],
    {
        self.data[i]
    }

    /// The board with the contents of cells `i` and `j` exchanged.
    pub fn swapped(&self, i: usize, j: usize) -> (b: Board)
        requires
            i < 9,
            j < 9,
        ensures
            b@ == slide(self@, i as int, j as int),
    {
        let mut data = self.data;
        let a = data[i];
        let c = data[j];
        data[i] = c;
        data[j] = a;
        assert(data@ =~= slide(self.data@, i as int, j as int));
        Board { data }
    }
}

// ---------------------------------------------------------------------------
// Inversion parity
// ---------------------------------------------------------------------------

/// The tiles of `s` in order, the blanks left out.
pub open spec fn nonzero_tiles(s: Seq<u8>) -> Seq<u8>
    decreases s.len(),
{
    if s.len() == 0 {
        s
    } else {
        let rest = nonzero_tiles(s.drop_last());
        if s.last() != 0 {
            rest.push(s.last())
        } else {
            rest
        }
    }
}

/// How many entries of `r` are smaller than `x`.
pub open spec fn count_smaller(x: u8, r: Seq<u8>) -> nat
    decreases r.len(),
{
    if r.len() == 0 {
        0
    } else {
        count_smaller(x, r.drop_last()) + (if r.last() < x { 1nat } else { 0nat })
    }
}

/// Number of pairs `i < j` with `s[i] > s[j]`.
pub open spec fn inversions(s: Seq<u8>) -> nat
    decreases s.len(),
{
    if s.len() == 0 {
        0
    } else {
        count_smaller(s[0], s.drop_first()) + inversions(s.drop_first())
    }
}

/// The tiles, read row by row without the blank, have an even number of
/// inversions.
pub open spec fn even_inversions(s: Seq<u8>) -> bool {
    inversions(nonzero_tiles(s)) % 2 == 0
}

// ---------------------------------------------------------------------------
// Moves keep the inversion parity of a permutation
// ---------------------------------------------------------------------------

proof fn lemma_count_smaller_concat(x: u8, a: Seq<u8>, b: Seq<u8>)
    ensures
        count_smaller(x, a + b) == count_smaller(x, a) + count_smaller(x, b),
    decreases b.len(),
{
    if b.len() > 0 {
        assert((a + b).drop_last() =~= a + b.drop_last());
        lemma_count_smaller_concat(x, a, b.drop_last());
    } else {
        assert(a + b =~= a);
    }
}

/// Pairs with the first entry in `a` and the second in `b` that are out of order.
pub open spec fn cross_inversions(a: Seq<u8>, b: Seq<u8>) -> nat
    decreases a.len(),
{
    if a.len() == 0 {
        0
    } else {
        count_smaller(a[0], b) + cross_inversions(a.drop_first(), b)
    }
}

proof fn lemma_inversions_concat(a: Seq<u8>, b: Seq<u8>)
    ensures
        inversions(a + b) == inversions(a) + inversions(b) + cross_inversions(a, b),
    decreases a.len(),
{
    if a.len() == 0 {
        assert(a + b =~= b);
    } else {
        assert((a + b).drop_first() =~= a.drop_first() + b);
        assert((a + b)[0] == a[0]);
        lemma_count_smaller_concat(a[0], a.drop_first(), b);
        lemma_inversions_concat(a.drop_first(), b);
    }
}

proof fn lemma_cross_concat_right(x: Seq<u8>, m: Seq<u8>, y: Seq<u8>)
    ensures
        cross_inversions(x, m + y) == cross_inversions(x, m) + cross_inversions(x, y),
    decreases x.len(),
{
    if x.len() > 0 {
        lemma_count_smaller_concat(x[0], m, y);
        lemma_cross_concat_right(x.drop_first(), m, y);
    }
}

proof fn lemma_count_smaller_rotate(z: u8, a: u8, b: u8, t: u8)
    ensures
        count_smaller(z, seq![a, b, t]) == count_smaller(z, seq![t, a, b]),
{
    reveal_with_fuel(count_smaller, 4);
    assert(seq![a, b, t].drop_last() =~= seq![a, b]);
    assert(seq![a, b].drop_last() =~= seq![a]);
    assert(seq![a].drop_last() =~= Seq::<u8>::empty());
    assert(seq![t, a, b].drop_last() =~= seq![t, a]);
    assert(seq![t, a].drop_last() =~= seq![t]);
    assert(seq![t].drop_last() =~= Seq::<u8>::empty());
}

proof fn lemma_cross_rotate_right(x: Seq<u8>, a: u8, b: u8, t: u8)
    ensures
        cross_inversions(x, seq![a, b, t]) == cross_inversions(x, seq![t, a, b]),
    decreases x.len(),
{
    if x.len() > 0 {
        lemma_count_smaller_rotate(x[0], a, b, t);
        lemma_cross_rotate_right(x.drop_first(), a, b, t);
    }
}

proof fn lemma_cross_three(a: u8, b: u8, t: u8, y: Seq<u8>)
    ensures
        cross_inversions(seq![a, b, t], y) == count_smaller(a, y) + count_smaller(b, y)
            + count_smaller(t, y),
        cross_inversions(seq![t, a, b], y) == count_smaller(a, y) + count_smaller(b, y)
            + count_smaller(t, y),
{
    reveal_with_fuel(cross_inversions, 4);
    assert(seq![a, b, t].drop_first() =~= seq![b, t]);
    assert(seq![b, t].drop_first() =~= seq![t]);
    assert(seq![t].drop_first() =~= Seq::<u8>::empty());
    assert(seq![t, a, b].drop_first() =~= seq![a, b]);
    assert(seq![a, b].drop_first() =~= seq![b]);
    assert(seq![b].drop_first() =~= Seq::<u8>::empty());
}

proof fn lemma_inversions_three(a: u8, b: u8, t: u8)
    requires
        a != t,
        b != t,
    ensures
        (inversions(seq![a, b, t]) + inversions(seq![t, a, b])) % 2 == 0,
{
    reveal_with_fuel(inversions, 4);
    reveal_with_fuel(count_smaller, 4);
    assert(seq![a, b, t].drop_first() =~= seq![b, t]);
    assert(seq![b, t].drop_first() =~= seq![t]);
    assert(seq![t].drop_first() =~= Seq::<u8>::empty());
    assert(seq![t, a, b].drop_first() =~= seq![a, b]);
    assert(seq![a, b].drop_first() =~= seq![b]);
    assert(seq![b].drop_first() =~= Seq::<u8>::empty());
    assert(seq![b, t].drop_last() =~= seq![b]);
    assert(seq![b].drop_last() =~= Seq::<u8>::empty());
    assert(seq![t].drop_last() =~= Seq::<u8>::empty());
    assert(seq![a, b].drop_last() =~= seq![a]);
    assert(seq![a].drop_last() =~= Seq::<u8>::empty());
}

/// Moving one entry past two others keeps the parity of the inversions.
proof fn lemma_jump_two_parity(x: Seq<u8>, a: u8, b: u8, t: u8, y: Seq<u8>)
    requires
        a != t,
        b != t,
    ensures
        inversions(x + seq![a, b, t] + y) % 2 == inversions(x + seq![t, a, b] + y) % 2,
{
    let m1 = seq![a, b, t];
    let m2 = seq![t, a, b];
    assert(x + m1 + y =~= x + (m1 + y));
    assert(x + m2 + y =~= x + (m2 + y));
    lemma_inversions_concat(x, m1 + y);
    lemma_inversions_concat(x, m2 + y);
    lemma_inversions_concat(m1, y);
    lemma_inversions_concat(m2, y);
    lemma_cross_concat_right(x, m1, y);
    lemma_cross_concat_right(x, m2, y);
    lemma_cross_rotate_right(x, a, b, t);
    lemma_cross_three(a, b, t, y);
    lemma_inversions_three(a, b, t);
}

proof fn lemma_nonzero_tiles_concat(a: Seq<u8>, b: Seq<u8>)
    ensures
        nonzero_tiles(a + b) == nonzero_tiles(a) + nonzero_tiles(b),
    decreases b.len(),
{
    if b.len() == 0 {
        assert(a + b =~= a);
        assert(nonzero_tiles(a) + nonzero_tiles(b) =~= nonzero_tiles(a));
    } else {
        assert((a + b).drop_last() =~= a + b.drop_last());
        lemma_nonzero_tiles_concat(a, b.drop_last());
        if b.last() != 0 {
            assert(nonzero_tiles(a) + nonzero_tiles(b.drop_last()).push(b.last()) =~= (
            nonzero_tiles(a) + nonzero_tiles(b.drop_last())).push(b.last()));
        }
    }
}

proof fn lemma_nonzero_tiles_all_nonzero(a: Seq<u8>)
    requires
        forall|i: int| 0 <= i < a.len() ==> #[trigger] a[i] != 0,
    ensures
        nonzero_tiles(a) == a,
    decreases a.len(),
{
    if a.len() > 0 {
        lemma_nonzero_tiles_all_nonzero(a.drop_last());
        assert(a.drop_last().push(a.last()) =~= a);
    }
}

/// For a permutation with its blank at `e`, the tiles are the cells before
/// and after `e`.
proof fn lemma_nonzero_tiles_of_permutation(s: Seq<u8>, e: int)
    requires
        is_tile_permutation(s),
        0 <= e < 9,
        s[e] == 0,
    ensures
        nonzero_tiles(s) == s.take(e) + s.skip(e + 1),
        forall|i: int| 0 <= i < 9 && i != e ==> #[trigger] s[i] != 0,
{
    assert forall|i: int| 0 <= i < 9 && i != e implies #[trigger] s[i] != 0 by {
        if i < e {
            assert(s[i] != s[e]);
        } else {
            assert(s[e] != s[i]);
        }
    }
    assert(s =~= s.take(e) + seq![0u8] + s.skip(e + 1));
    lemma_nonzero_tiles_concat(s.take(e) + seq![0u8], s.skip(e + 1));
    lemma_nonzero_tiles_concat(s.take(e), seq![0u8]);
    assert(seq![0u8].drop_last() =~= Seq::<u8>::empty());
    assert(nonzero_tiles(Seq::<u8>::empty()) =~= Seq::<u8>::empty());
    assert(nonzero_tiles(seq![0u8]) =~= Seq::<u8>::empty());
    lemma_nonzero_tiles_all_nonzero(s.take(e));
    lemma_nonzero_tiles_all_nonzero(s.skip(e + 1));
    assert(s.take(e) + Seq::<u8>::empty() =~= s.take(e));
}

/// A move keeps a permutation a permutation and keeps the parity of its
/// inversions.
#[verifier::rlimit(30)]
pub proof fn lemma_move_keeps_parity(s: Seq<u8>, t: u8, s2: Seq<u8>)
    requires
        is_tile_permutation(s),
        step_to(s, t, s2),
    ensures
        is_tile_permutation(s2),
        inversions(nonzero_tiles(s2)) % 2 == inversions(nonzero_tiles(s)) % 2,
{
    let (e, q) = choose|e: int, q: int|
        #![trigger slide(s, e, q)]
        is_first_blank(s, e) && neighbours(e).contains(q) && s[q] == t && s2 == slide(s, e, q);
    lemma_neighbours_on_board(e);
    lemma_slide_cells(s, e, q);
    assert(is_tile_permutation(s2)) by {
        assert forall|i: int, j: int| 0 <= i < j < 9 implies #[trigger] s2[i] != #[trigger] s2[j] by {
            let ii = if i == e { q } else if i == q { e } else { i };
            let jj = if j == e { q } else if j == q { e } else { j };
            assert(s2[i] == s[ii] && s2[j] == s[jj]);
            if ii < jj {
                assert(s[ii] != s[jj]);
            } else {
                assert(s[jj] != s[ii]);
            }
        }
    }
    lemma_nonzero_tiles_of_permutation(s, e);
    lemma_nonzero_tiles_of_permutation(s2, q);
    let n1 = nonzero_tiles(s);
    let n2 = nonzero_tiles(s2);
    if q == e + 1 || q == e - 1 {
        assert(n1 =~= n2);
    } else if q == e + 3 {
        let x = s.take(e);
        let y = s.skip(e + 4);
        assert(n1 =~= x + seq![s[e + 1], s[e + 2], s[e + 3]] + y);
        assert(n2 =~= x + seq![s[e + 3], s[e + 1], s[e + 2]] + y);
        assert(s[e + 1] != s[e + 3]);
        assert(s[e + 2] != s[e + 3]);
        lemma_jump_two_parity(x, s[e + 1], s[e + 2], s[e + 3], y);
    } else {
        assert(q == e - 3) by {
            let row = e / 3;
            let col = e % 3;
            let up = if row > 0 { seq![e - 3] } else { Seq::<int>::empty() };
            let down = if row < 2 { seq![e + 3] } else { Seq::<int>::empty() };
            let left = if col > 0 { seq![e - 1] } else { Seq::<int>::empty() };
            let right = if col < 2 { seq![e + 1] } else { Seq::<int>::empty() };
            assert(neighbours(e) == up + down + left + right);
            let i = choose|i: int| 0 <= i < neighbours(e).len() && neighbours(e)[i] == q;
            let n = neighbours(e);
            let a = up.len();
            let b = a + down.len();
            let c = b + left.len();
            if i < a {
                assert(n[i] == up[i]);
            } else if i < b {
                assert(n[i] == down[i - a]);
            } else if i < c {
                assert(n[i] == left[i - b]);
            } else {
                assert(n[i] == right[i - c]);
            }
        }
        let x = s.take(e - 3);
        let y = s.skip(e + 1);
        assert(n1 =~= x + seq![s[e - 3], s[e - 2], s[e - 1]] + y);
        assert(n2 =~= x + seq![s[e - 2], s[e - 1], s[e - 3]] + y);
        assert(s[e - 2] != s[e - 3]);
        assert(s[e - 1] != s[e - 3]);
        lemma_jump_two_parity(x, s[e - 2], s[e - 1], s[e - 3], y);
    }
}

/// Moves from a permutation never change the parity of its inversions.
pub proof fn lemma_parity_invariant(s: Seq<u8>, moves: Seq<u8>, target: Seq<u8>)
    requires
        is_tile_permutation(s),
        leads_to(s, moves, target),
    ensures
        inversions(nonzero_tiles(target)) % 2 == inversions(nonzero_tiles(s)) % 2,
    decreases moves.len(),
{
    if moves.len() > 0 {
        let s2 = choose|s2: Seq<u8>|
            #[trigger] step_to(s, moves[0], s2) && leads_to(s2, moves.drop_first(), target);
        lemma_move_keeps_parity(s, moves[0], s2);
        lemma_parity_invariant(s2, moves.drop_first(), target);
    }
}

/// The solved board has no inversions.
pub proof fn lemma_goal_even()
    ensures
        even_inversions(goal_cells()),
{
    let g = goal_cells();
    assert(is_tile_permutation(g));
    lemma_nonzero_tiles_of_permutation(g, 8);
    let tiles = seq![1u8, 2, 3, 4, 5, 6, 7, 8];
    assert(nonzero_tiles(g) =~= tiles);
    assert forall|k: int| 0 <= k <= 8 implies inversions(#[trigger] tiles.skip(k)) == 0 by {
        lemma_sorted_no_inversions(tiles.skip(k));
    }
    assert(tiles.skip(0) =~= tiles);
}

/// An increasing sequence has no inversions.
proof fn lemma_sorted_no_inversions(s: Seq<u8>)
    requires
        forall|i: int, j: int| 0 <= i < j < s.len() ==> s[i] < s[j],
    ensures
        inversions(s) == 0,
    decreases s.len(),
{
    if s.len() > 0 {
        lemma_sorted_no_inversions(s.drop_first());
        lemma_no_smaller(s[0], s.drop_first());
    }
}

proof fn lemma_no_smaller(x: u8, r: Seq<u8>)
    requires
        forall|i: int| 0 <= i < r.len() ==> x < #[trigger] r[i],
    ensures
        count_smaller(x, r) == 0,
    decreases r.len(),
{
    if r.len() > 0 {
        lemma_no_smaller(x, r.drop_last());
    }
}

/// A permutation with an odd number of inversions cannot reach the solved
/// board: no sequence of moves leads there.
pub proof fn lemma_odd_parity_unsolvable(s: Seq<u8>)
    requires
        is_tile_permutation(s),
        !even_inversions(s),
    ensures
        forall|moves: Seq<u8>| !#[trigger] leads_to(s, moves, goal_cells()),
{
    lemma_goal_even();
    assert forall|moves: Seq<u8>| !#[trigger] leads_to(s, moves, goal_cells()) by {
        if leads_to(s, moves, goal_cells()) {
            lemma_parity_invariant(s, moves, goal_cells());
        }
    }
}

// ---------------------------------------------------------------------------
// Exchanging two tiles flips the parity
// ---------------------------------------------------------------------------

/// Entries of `s` at different places differ.
spec fn all_distinct(s: Seq<u8>) -> bool {
    forall|a: int, b: int| 0 <= a < b < s.len() ==> #[trigger] s[a] != #[trigger] s[b]
}

proof fn lemma_count_smaller_pair(z: u8, a: u8, b: u8)
    ensures
        count_smaller(z, seq![a, b]) == count_smaller(z, seq![b, a]),
{
    reveal_with_fuel(count_smaller, 3);
    assert(seq![a, b].drop_last() =~= seq![a]);
    assert(seq![b, a].drop_last() =~= seq![b]);
    assert(seq![a].drop_last() =~= Seq::<u8>::empty());
    assert(seq![b].drop_last() =~= Seq::<u8>::empty());
}

proof fn lemma_cross_pair_right(x: Seq<u8>, a: u8, b: u8)
    ensures
        cross_inversions(x, seq![a, b]) == cross_inversions(x, seq![b, a]),
    decreases x.len(),
{
    if x.len() > 0 {
        lemma_count_smaller_pair(x[0], a, b);
        lemma_cross_pair_right(x.drop_first(), a, b);
    }
}

proof fn lemma_cross_pair_left(a: u8, b: u8, y: Seq<u8>)
    ensures
        cross_inversions(seq![a, b], y) == cross_inversions(seq![b, a], y),
{
    reveal_with_fuel(cross_inversions, 3);
    assert(seq![a, b].drop_first() =~= seq![b]);
    assert(seq![b, a].drop_first() =~= seq![a]);
    assert(seq![a].drop_first() =~= Seq::<u8>::empty());
    assert(seq![b].drop_first() =~= Seq::<u8>::empty());
}

proof fn lemma_inversions_pair(a: u8, b: u8)
    requires
        a != b,
    ensures
        inversions(seq![a, b]) + inversions(seq![b, a]) == 1,
{
    reveal_with_fuel(inversions, 3);
    reveal_with_fuel(count_smaller, 2);
    assert(seq![a, b].drop_first() =~= seq![b]);
    assert(seq![b, a].drop_first() =~= seq![a]);
    assert(seq![a].drop_first() =~= Seq::<u8>::empty());
    assert(seq![b].drop_first() =~= Seq::<u8>::empty());
    assert(seq![a].drop_last() =~= Seq::<u8>::empty());
    assert(seq![b].drop_last() =~= Seq::<u8>::empty());
}

/// Exchanging two neighbouring, different entries changes the number of
/// inversions by one.
proof fn lemma_adjacent_exchange_parity(x: Seq<u8>, i: int)
    requires
        0 <= i,
        i + 1 < x.len(),
        x[i] != x[i + 1],
    ensures
        inversions(slide(x, i, i + 1)) % 2 != inversions(x) % 2,
{
    let p = x.take(i);
    let q = x.skip(i + 2);
    let a = x[i];
    let b = x[i + 1];
    let m1 = seq![a, b];
    let m2 = seq![b, a];
    assert(x =~= p + (m1 + q));
    assert(slide(x, i, i + 1) =~= p + (m2 + q));
    lemma_inversions_concat(p, m1 + q);
    lemma_inversions_concat(p, m2 + q);
    lemma_inversions_concat(m1, q);
    lemma_inversions_concat(m2, q);
    lemma_cross_concat_right(p, m1, q);
    lemma_cross_concat_right(p, m2, q);
    lemma_cross_pair_right(p, a, b);
    lemma_cross_pair_left(a, b, q);
    lemma_inversions_pair(a, b);
}

proof fn lemma_exchange_keeps_distinct(x: Seq<u8>, i: int, j: int)
    requires
        all_distinct(x),
        0 <= i < x.len(),
        0 <= j < x.len(),
    ensures
        all_distinct(slide(x, i, j)),
{
    let t = slide(x, i, j);
    assert forall|a: int, b: int| 0 <= a < b < t.len() implies #[trigger] t[a] != #[trigger] t[b] by {
        let aa = if a == i { j } else if a == j { i } else { a };
        let bb = if b == i { j } else if b == j { i } else { b };
        assert(t[a] == x[aa] && t[b] == x[bb]);
        if aa < bb {
            assert(x[aa] != x[bb]);
        } else {
            assert(x[bb] != x[aa]);
        }
    }
}

/// Exchanging two entries of a sequence of different values flips the
/// parity of its inversions.
proof fn lemma_exchange_parity(x: Seq<u8>, i: int, j: int)
    requires
        all_distinct(x),
        0 <= i < j < x.len(),
    ensures
        inversions(slide(x, i, j)) % 2 != inversions(x) % 2,
    decreases j - i,
{
    assert(x[i] != x[j]);
    if j == i + 1 {
        lemma_adjacent_exchange_parity(x, i);
    } else {
        let y = slide(x, i, i + 1);
        assert(x[i] != x[i + 1]);
        lemma_adjacent_exchange_parity(x, i);
        lemma_exchange_keeps_distinct(x, i, i + 1);
        lemma_exchange_parity(y, i + 1, j);
        let z = slide(y, i + 1, j);
        assert(z[i] == x[i + 1] && z[i + 1] == x[j]);
        assert(x[i + 1] != x[j]);
        lemma_adjacent_exchange_parity(z, i);
        assert(slide(z, i, i + 1) =~= slide(x, i, j));
    }
}

/// Exchanging two tiles of a permutation keeps it a permutation and flips
/// the parity of its inversions: exactly one of the two boards is solvable.
pub proof fn lemma_exchange_flips_parity(s: Seq<u8>, i: int, j: int)
    requires
        is_tile_permutation(s),
        0 <= i < 9,
        0 <= j < 9,
        i != j,
        s[i] != 0,
        s[j] != 0,
    ensures
        is_tile_permutation(slide(s, i, j)),
        even_inversions(slide(s, i, j)) != even_inversions(s),
{
    if j < i {
        assert(slide(s, i, j) =~= slide(s, j, i));
        lemma_exchange_tiles_ordered(s, j, i);
    } else {
        lemma_exchange_tiles_ordered(s, i, j);
    }
}

proof fn lemma_exchange_tiles_ordered(s: Seq<u8>, i: int, j: int)
    requires
        is_tile_permutation(s),
        0 <= i < j < 9,
        s[i] != 0,
        s[j] != 0,
    ensures
        is_tile_permutation(slide(s, i, j)),
        even_inversions(slide(s, i, j)) != even_inversions(s),
{
    let t = slide(s, i, j);
    assert(all_distinct(s));
    lemma_exchange_keeps_distinct(s, i, j);
    assert(is_tile_permutation(t)) by {
        assert forall|k: int| 0 <= k < 9 implies #[trigger] t[k] < 9 by {
            assert(s[k] < 9 && s[i] < 9 && s[j] < 9);
        }
    }
    lemma_permutation_has_every_value(s);
    assert(s.contains(0u8));
    let e = choose|e: int| 0 <= e < s.len() && s[e] == 0u8;
    assert(e != i && e != j);
    assert(t[e] == 0);
    lemma_nonzero_tiles_of_permutation(s, e);
    lemma_nonzero_tiles_of_permutation(t, e);
    let n = s.take(e) + s.skip(e + 1);
    let ii = if i < e { i } else { i - 1 };
    let jj = if j < e { j } else { j - 1 };
    assert(n.len() == 8);
    assert forall|k: int| 0 <= k < 8 implies #[trigger] n[k] == s[if k < e { k } else { k + 1 }] by {}
    assert(all_distinct(n)) by {
        assert forall|a: int, b: int| 0 <= a < b < n.len() implies #[trigger] n[a] != #[trigger] n[b] by {
            let aa = if a < e { a } else { a + 1 };
            let bb = if b < e { b } else { b + 1 };
            assert(n[a] == s[aa] && n[b] == s[bb]);
            assert(s[aa] != s[bb]);
        }
    }
    assert(n[ii] == s[i] && n[jj] == s[j]);
    assert(t.take(e) + t.skip(e + 1) =~= slide(n, ii, jj)) by {
        let nt = t.take(e) + t.skip(e + 1);
        assert forall|k: int| 0 <= k < 8 implies #[trigger] nt[k] == slide(n, ii, jj)[k] by {
            let kk = if k < e { k } else { k + 1 };
            assert(nt[k] == t[kk]);
        }
    }
    lemma_exchange_parity(n, ii, jj);
}

/// Whether the board has an even number of inversions among its tiles,
/// the condition under which an 8-puzzle position can reach the goal.
pub fn is_solvable(board: Board) -> (solvable: bool)
    ensures
        solvable == even_inversions(board@),
        is_tile_permutation(board@) ==> (solvable <==> reaches(board@, goal_cells())),
{
    proof {
        if is_tile_permutation(board@) {
            lemma_solvable_iff_even(board@);
        }
    }
    let mut count: u32 = 0;
    let mut values: Vec<u8> = Vec::new();
    let ghost cells = board.data@;
    let mut k: usize = 0;
    assert(cells.take(0) =~= Seq::<u8>::empty());
    while k < 9
        invariant
            0 <= k <= 9,
            cells == board.data@,
            values@ == nonzero_tiles(cells.take(k as int)),
            values.len() <= k,
        decreases 9 - k,
    {
        assert(cells.take(k + 1).drop_last() =~= cells.take(k as int));
        if board.data[k] != 0 {
            values.push(board.data[k]);
        }
        k = k + 1;
    }
    assert(cells.take(9) =~= cells);
    let n = values.len();
    let ghost v = values@;
    let mut i: usize = 0;
    assert(v.skip(0) =~= v);
    while i < n
        invariant
            n == values.len(),
            v == values@,
            n <= 9,
            0 <= i <= n,
            count + inversions(v.skip(i as int)) == inversions(v),
            count <= 9 * i,
        decreases n - i,
    {
        let ghost before = count;
        let mut j: usize = i + 1;
        assert(v.subrange(i + 1, i + 1) =~= Seq::<u8>::empty());
        while j < n
            invariant
                n == values.len(),
                v == values@,
                n <= 9,
                i < n,
                i + 1 <= j <= n,
                count == before + count_smaller(v[i as int], v.subrange(i + 1, j as int)),
                count <= 9 * i + (j - i - 1),
            decreases n - j,
        {
            assert(v.subrange(i + 1, j + 1).drop_last() =~= v.subrange(i + 1, j as int));
            if values[i] > values[j] {
                count = count + 1;
            }
            j = j + 1;
        }
        assert(v.skip(i as int).drop_first() =~= v.skip(i + 1));
        assert(v.subrange(i + 1, n as int) =~= v.skip(i + 1));
        i = i + 1;
    }
    assert(v.skip(n as int) =~= Seq::<u8>::empty());
    count % 2 == 0
}

proof fn lemma_pow9_nine()
    ensures
        pow9(9) == 387420489,
{
    reveal_with_fuel(pow9, 10);
}

proof fn lemma_pow9_monotone(a: nat, b: nat)
    requires
        a <= b,
    ensures
        pow9(a) <= pow9(b),
    decreases b - a,
{
    if a < b {
        lemma_pow9_monotone(a, (b - 1) as nat);
        lemma_pow9_positive((b - 1) as nat);
    }
}

proof fn lemma_pow9_positive(n: nat)
    ensures
        pow9(n) >= 1,
    decreases n,
{
    if n > 0 {
        lemma_pow9_positive((n - 1) as nat);
    }
}

} // verus!
