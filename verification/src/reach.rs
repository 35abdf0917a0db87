//! Which positions can be played to the solved board. Walking the blank
//! along a path of neighbouring cells is a sequence of moves; six such
//! walks rotate three consecutive cells, and those rotations sort the tiles
//! of every position whose inversions are even.

use vstd::prelude::*;
use crate::board::{
    even_inversions, goal_cells, is_first_blank, is_tile_permutation, leads_to,
    lemma_exchange_flips_parity, lemma_goal_even, lemma_move_keeps_parity, lemma_odd_parity_unsolvable,
    lemma_parity_invariant, lemma_permutation_has_every_value, neighbours, slide, step_to,
};

verus! {

/// Some sequence of moves leads from `s` to `t`.
pub open spec fn reaches(s: Seq<u8>, t: Seq<u8>) -> bool {
    exists|moves: Seq<u8>| #[trigger] leads_to(s, moves, t)
}

/// `q` is a cell next to cell `e`.
spec fn adjacent(e: int, q: int) -> bool {
    &&& 0 <= e < 9
    &&& 0 <= q < 9
    &&& (q == e - 3 || q == e + 3 || (q == e - 1 && e % 3 != 0) || (q == e + 1 && e % 3 != 2))
}

/// The board after the blank, standing at `e`, walks the cells
/// `path[k]`, `path[k + 1]`, ... in turn.
spec fn walk(s: Seq<u8>, e: int, path: Seq<int>, k: int) -> Seq<u8>
    decreases path.len() - k,
{
    if k < 0 || k >= path.len() {
        s
    } else {
        walk(slide(s, e, path[k]), path[k], path, k + 1)
    }
}

/// Each cell of `path` from index `k` on is next to the one before it,
/// the first next to `e`.
spec fn walk_ok(e: int, path: Seq<int>, k: int) -> bool
    decreases path.len() - k,
{
    if k < 0 || k >= path.len() {
        true
    } else {
        adjacent(e, path[k]) && walk_ok(path[k], path, k + 1)
    }
}

proof fn lemma_adjacent_neighbour(e: int, q: int)
    requires
        adjacent(e, q),
    ensures
        neighbours(e).contains(q),
{
    let row = e / 3;
    let col = e % 3;
    let up = if row > 0 { seq![e - 3] } else { Seq::<int>::empty() };
    let down = if row < 2 { seq![e + 3] } else { Seq::<int>::empty() };
    let left = if col > 0 { seq![e - 1] } else { Seq::<int>::empty() };
    let right = if col < 2 { seq![e + 1] } else { Seq::<int>::empty() };
    let n = neighbours(e);
    assert(n == up + down + left + right);
    if q == e - 3 {
        assert(n[0] == q);
    } else if q == e + 3 {
        assert(n[up.len() as int] == q);
    } else if q == e - 1 {
        assert(n[(up.len() + down.len()) as int] == q);
    } else {
        assert(n[(up.len() + down.len() + left.len()) as int] == q);
    }
}

/// Moves `m1` then `m2` chain a path to `mid` and a path from it.
proof fn lemma_leads_to_concat(s: Seq<u8>, m1: Seq<u8>, mid: Seq<u8>, m2: Seq<u8>, t: Seq<u8>)
    requires
        leads_to(s, m1, mid),
        leads_to(mid, m2, t),
    ensures
        leads_to(s, m1 + m2, t),
    decreases m1.len(),
{
    if m1.len() == 0 {
        assert(m1 + m2 =~= m2);
    } else {
        let s2 = choose|s2: Seq<u8>|
            #[trigger] step_to(s, m1[0], s2) && leads_to(s2, m1.drop_first(), mid);
        lemma_leads_to_concat(s2, m1.drop_first(), mid, m2, t);
        assert((m1 + m2).drop_first() =~= m1.drop_first() + m2);
        assert((m1 + m2)[0] == m1[0]);
        assert(step_to(s, (m1 + m2)[0], s2));
    }
}

proof fn lemma_reaches_trans(s: Seq<u8>, mid: Seq<u8>, t: Seq<u8>)
    requires
        reaches(s, mid),
        reaches(mid, t),
    ensures
        reaches(s, t),
{
    let m1 = choose|m: Seq<u8>| #[trigger] leads_to(s, m, mid);
    let m2 = choose|m: Seq<u8>| #[trigger] leads_to(mid, m, t);
    lemma_leads_to_concat(s, m1, mid, m2, t);
}

proof fn lemma_reaches_self(s: Seq<u8>)
    ensures
        reaches(s, s),
{
    assert(leads_to(s, Seq::<u8>::empty(), s));
}

/// Sliding a tile next to the blank of a permutation is one move.
proof fn lemma_slide_reaches(s: Seq<u8>, e: int, q: int)
    requires
        is_tile_permutation(s),
        s[e] == 0,
        adjacent(e, q),
    ensures
        reaches(s, slide(s, e, q)),
        is_tile_permutation(slide(s, e, q)),
        slide(s, e, q)[q] == 0,
{
    assert forall|j: int| 0 <= j < e implies #[trigger] s[j] != 0 by {
        assert(s[j] != s[e]);
    }
    assert(is_first_blank(s, e));
    lemma_adjacent_neighbour(e, q);
    let t = slide(s, e, q);
    let m = seq![s[q]];
    assert(step_to(s, m[0], t));
    assert(m.drop_first() =~= Seq::<u8>::empty());
    assert(leads_to(t, m.drop_first(), t));
    assert(leads_to(s, m, t));
    lemma_move_keeps_parity(s, s[q], t);
}

/// A walk of the blank along neighbouring cells is a sequence of moves.
proof fn lemma_walk(s: Seq<u8>, e: int, path: Seq<int>, k: int)
    requires
        is_tile_permutation(s),
        0 <= e < 9,
        s[e] == 0,
        0 <= k <= path.len(),
        walk_ok(e, path, k),
    ensures
        reaches(s, walk(s, e, path, k)),
        is_tile_permutation(walk(s, e, path, k)),
    decreases path.len() - k,
{
    if k < path.len() {
        let q = path[k];
        lemma_slide_reaches(s, e, q);
        let s1 = slide(s, e, q);
        lemma_walk(s1, q, path, k + 1);
        lemma_reaches_trans(s, s1, walk(s1, q, path, k + 1));
    } else {
        lemma_reaches_self(s);
    }
}

/// The cells `s` with the entries at `i`, `i + 1`, `i + 2` rotated one
/// place to the right.
spec fn rotated(s: Seq<u8>, i: int) -> Seq<u8> {
    s.update(i, s[i + 2]).update(i + 1, s[i]).update(i + 2, s[i + 1])
}

/// With the blank in the last cell, the entries at `i`, `i + 1`, `i + 2`
/// can be rotated one place to the right, all other cells kept: each
/// rotation is a walk of the blank that ends where it began.
proof fn lemma_rotate(s: Seq<u8>, i: int)
    requires
        is_tile_permutation(s),
        s[8] == 0,
        0 <= i <= 5,
    ensures
        reaches(s, rotated(s, i)),
        is_tile_permutation(rotated(s, i)),
{
    if i == 0 {
        let path = seq![5int, 2, 1, 4, 5, 8, 7, 6, 3, 4, 1, 0, 3, 6, 7, 8];
        assert(walk_ok(8, path, 0)) by {
            reveal_with_fuel(walk_ok, 17);
        }
        lemma_walk(s, 8, path, 0);
        assert(walk(s, 8, path, 0) =~= rotated(s, 0)) by {
            reveal_with_fuel(walk, 17);
        }
    } else if i == 1 {
        let path = seq![5int, 2, 1, 4, 3, 0, 1, 4, 5, 2, 1, 0, 3, 4, 1, 2, 5, 8];
        assert(walk_ok(8, path, 0)) by {
            reveal_with_fuel(walk_ok, 19);
        }
        lemma_walk(s, 8, path, 0);
        assert(walk(s, 8, path, 0) =~= rotated(s, 1)) by {
            reveal_with_fuel(walk, 19);
        }
    } else if i == 2 {
        let path = seq![5int, 4, 3, 0, 1, 2, 5, 4, 1, 0, 3, 4, 5, 8];
        assert(walk_ok(8, path, 0)) by {
            reveal_with_fuel(walk_ok, 15);
        }
        lemma_walk(s, 8, path, 0);
        assert(walk(s, 8, path, 0) =~= rotated(s, 2)) by {
            reveal_with_fuel(walk, 15);
        }
    } else if i == 3 {
        let path = seq![5int, 4, 3, 6, 7, 8, 5, 4, 7, 6, 3, 4, 5, 8];
        assert(walk_ok(8, path, 0)) by {
            reveal_with_fuel(walk_ok, 15);
        }
        lemma_walk(s, 8, path, 0);
        assert(walk(s, 8, path, 0) =~= rotated(s, 3)) by {
            reveal_with_fuel(walk, 15);
        }
    } else if i == 4 {
        let path = seq![5int, 4, 7, 6, 3, 4, 7, 8, 5, 4, 3, 6, 7, 4, 5, 8];
        assert(walk_ok(8, path, 0)) by {
            reveal_with_fuel(walk_ok, 17);
        }
        lemma_walk(s, 8, path, 0);
        assert(walk(s, 8, path, 0) =~= rotated(s, 4)) by {
            reveal_with_fuel(walk, 17);
        }
    } else {
        let path = seq![7int, 6, 3, 4, 5, 8, 7, 4, 3, 6, 7, 8];
        assert(walk_ok(8, path, 0)) by {
            reveal_with_fuel(walk_ok, 13);
        }
        lemma_walk(s, 8, path, 0);
        assert(walk(s, 8, path, 0) =~= rotated(s, 5)) by {
            reveal_with_fuel(walk, 13);
        }
    }
}

/// Cells `0 .. k` hold the tiles `1 .. k` in order.
spec fn placed(s: Seq<u8>, k: int) -> bool {
    forall|i: int| 0 <= i < k ==> #[trigger] s[i] == i + 1
}

/// Brings tile `k + 1`, standing in cell `j`, to cell `k`, two cells at a
/// time, without touching the cells before `k`.
proof fn lemma_bring_tile(s: Seq<u8>, k: int, j: int) -> (t: Seq<u8>)
    requires
        is_tile_permutation(s),
        s[8] == 0,
        0 <= k <= 5,
        placed(s, k),
        k <= j <= 7,
        s[j] == k + 1,
    ensures
        reaches(s, t),
        is_tile_permutation(t),
        t[8] == 0,
        placed(t, k + 1),
    decreases j,
{
    if j == k {
        lemma_reaches_self(s);
        s
    } else if j == k + 1 {
        lemma_rotate(s, k);
        let t1 = rotated(s, k);
        lemma_rotate(t1, k);
        let t2 = rotated(t1, k);
        lemma_reaches_trans(s, t1, t2);
        assert(t2[k] == s[k + 1]);
        t2
    } else {
        lemma_rotate(s, j - 2);
        let t1 = rotated(s, j - 2);
        assert(t1[j - 2] == s[j]);
        let t = lemma_bring_tile(t1, k, j - 2);
        lemma_reaches_trans(s, t1, t);
        t
    }
}

/// With the blank in the last cell, the tiles `1 .. 6` can be put in the
/// first six cells.
proof fn lemma_place_tiles(s: Seq<u8>, k: int) -> (t: Seq<u8>)
    requires
        is_tile_permutation(s),
        s[8] == 0,
        0 <= k <= 6,
        placed(s, k),
    ensures
        reaches(s, t),
        is_tile_permutation(t),
        t[8] == 0,
        placed(t, 6),
    decreases 6 - k,
{
    if k == 6 {
        lemma_reaches_self(s);
        s
    } else {
        lemma_permutation_has_every_value(s);
        let v = (k + 1) as u8;
        assert(s.contains(v));
        let j = choose|j: int| 0 <= j < s.len() && s[j] == v;
        if j < k {
            assert(s[j] == j + 1);
        }
        let t1 = lemma_bring_tile(s, k, j);
        let t = lemma_place_tiles(t1, k + 1);
        lemma_reaches_trans(s, t1, t);
        t
    }
}

/// The blank can be walked right and down to the last cell.
proof fn lemma_blank_to_corner(s: Seq<u8>, e: int) -> (t: Seq<u8>)
    requires
        is_tile_permutation(s),
        0 <= e < 9,
        s[e] == 0,
    ensures
        reaches(s, t),
        is_tile_permutation(t),
        t[8] == 0,
    decreases 8 - e,
{
    if e == 8 {
        lemma_reaches_self(s);
        s
    } else {
        let q = if e % 3 != 2 { e + 1 } else { e + 3 };
        lemma_slide_reaches(s, e, q);
        let s1 = slide(s, e, q);
        let t = lemma_blank_to_corner(s1, q);
        lemma_reaches_trans(s, s1, t);
        t
    }
}

/// Every position holding each of `0` to `8` once whose tiles have an even
/// number of inversions can be played to the solved board.
pub proof fn lemma_even_parity_solvable(s: Seq<u8>)
    requires
        is_tile_permutation(s),
        even_inversions(s),
    ensures
        reaches(s, goal_cells()),
{
    lemma_permutation_has_every_value(s);
    assert(s.contains(0u8));
    let e = choose|e: int| 0 <= e < s.len() && s[e] == 0u8;
    let c = lemma_blank_to_corner(s, e);
    let t = lemma_place_tiles(c, 0);
    lemma_reaches_trans(s, c, t);
    let m = choose|m: Seq<u8>| #[trigger] leads_to(s, m, t);
    lemma_parity_invariant(s, m, t);
    assert(t[0] == 1 && t[1] == 2 && t[2] == 3 && t[3] == 4 && t[4] == 5 && t[5] == 6);
    assert(t[6] < 9 && t[7] < 9);
    assert(t[6] != t[0] && t[6] != t[1] && t[6] != t[2] && t[6] != t[3] && t[6] != t[4]
        && t[6] != t[5] && t[6] != t[7] && t[6] != t[8]);
    assert(t[7] != t[0] && t[7] != t[1] && t[7] != t[2] && t[7] != t[3] && t[7] != t[4]
        && t[7] != t[5] && t[7] != t[8]);
    if t[6] == 7 {
        assert(t =~= goal_cells());
    } else {
        assert(t =~= slide(goal_cells(), 6, 7));
        assert(is_tile_permutation(goal_cells()));
        lemma_goal_even();
        lemma_exchange_flips_parity(goal_cells(), 6, 7);
    }
}

/// A position holding each of `0` to `8` once can be played to the solved
/// board exactly when its tiles have an even number of inversions.
pub proof fn lemma_solvable_iff_even(s: Seq<u8>)
    requires
        is_tile_permutation(s),
    ensures
        reaches(s, goal_cells()) <==> even_inversions(s),
{
    if even_inversions(s) {
        lemma_even_parity_solvable(s);
    } else {
        lemma_odd_parity_unsolvable(s);
    }
}

} // verus!
