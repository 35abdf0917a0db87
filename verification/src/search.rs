//! A* search over board positions: search nodes, the open and closed sets,
//! path reconstruction, and the solver built on them.

use std::cmp::Ordering;
use std::collections::HashMap;
use vstd::prelude::*;
use vstd::std_specs::cmp::PartialOrdSpecImpl;

use crate::board::{
    board_key, cells_below_nine, even_inversions, get_valid_moves, goal_cells, goal_table,
    is_first_blank, is_tile_permutation, key_space, leads_to, lemma_board_key_in_space,
    lemma_board_len, lemma_goal_distance_zero, lemma_goal_even, lemma_key_injective,
    lemma_leads_to_push, lemma_manhattan_admissible, lemma_manhattan_upto_bound,
    lemma_neighbours_on_board, lemma_odd_parity_unsolvable, lemma_positions_valid_rows_fit,
    lemma_slide_cells, manhattan, neighbours, slide, step_to, Board,
};
use crate::heap::{heap_pop, heap_push, is_heap, lemma_root_first};
use crate::reach::lemma_even_parity_solvable;

verus! {

broadcast use vstd::std_specs::hash::group_hash_axioms, lemma_board_len;

/// A search node: a board with the cost of the path that reached it (`g`),
/// its heuristic estimate (`h`), their sum (`f`), the index of its parent in
/// the node store, and the tile moved to reach it (`0` for the start).
#[derive(Debug, Clone, Copy, PartialEq, Eq)]
pub struct AStarNode {
    board: Board,
    g_cost: u32,
    h_cost: u32,
    f_cost: u32,
    parent_index: Option<u32>,
    move_number: u8,
}

impl AStarNode {
    /// The cells of the node's board.
    pub closed spec fn cells(self) -> Seq<u8> {
        self.board@
    }

    pub closed spec fn g(self) -> u32 {
        self.g_cost
    }

    pub closed spec fn h(self) -> u32 {
        self.h_cost
    }

    pub closed spec fn f(self) -> u32 {
        self.f_cost
    }

    pub closed spec fn parent(self) -> Option<u32> {
        self.parent_index
    }

    pub closed spec fn moved_tile(self) -> u8 {
        self.move_number
    }

    /// A node with the given parts; `f` is `g + h`.
    pub fn new(
        board: Board,
        g_cost: u32,
        h_cost: u32,
        parent_index: Option<u32>,
        move_number: u8,
    ) -> (node: AStarNode)
        requires
            g_cost + h_cost <= u32::MAX,
        ensures
            node.cells() == board@,
            node.g() == g_cost,
            node.h() == h_cost,
            node.f() == g_cost + h_cost,
            node.parent() == parent_index,
            node.moved_tile() == move_number,
    {
        AStarNode { board, g_cost, h_cost, f_cost: g_cost + h_cost, parent_index, move_number }
    }

    /// Priority order of the open set, reversed so that a larger node is
    /// expanded first: lower `f` wins, and on equal `f` lower `h` wins.
    pub fn priority_cmp(&self, other: &AStarNode) -> (order: Ordering)
        ensures
            (order == Ordering::Greater) == precedes(*self, *other),
            (order == Ordering::Less) == precedes(*other, *self),
            (order == Ordering::Equal) == (self.f() == other.f() && self.h() == other.h()),
    {
        if other.f_cost < self.f_cost {
            Ordering::Less
        } else if other.f_cost > self.f_cost {
            Ordering::Greater
        } else if other.h_cost < self.h_cost {
            Ordering::Less
        } else if other.h_cost > self.h_cost {
            Ordering::Greater
        } else {
            Ordering::Equal
        }
    }
}

/// Nodes compare by priority, reversed so that the node expanded first is
/// the greatest: lower `f` is greater, and on equal `f` lower `h` is greater.
impl PartialOrd for AStarNode {
    fn partial_cmp(&self, other: &AStarNode) -> (order: Option<Ordering>) {
        Some(self.priority_cmp(other))
    }
}

impl PartialOrdSpecImpl for AStarNode {
    open spec fn obeys_partial_cmp_spec() -> bool {
        true
    }

    open spec fn partial_cmp_spec(&self, other: &AStarNode) -> Option<Ordering> {
        if precedes(*self, *other) {
            Some(Ordering::Greater)
        } else if precedes(*other, *self) {
            Some(Ordering::Less)
        } else {
            Some(Ordering::Equal)
        }
    }
}

/// `a` is expanded before `b`: lower `f`, or equal `f` and lower `h`.
pub open spec fn precedes(a: AStarNode, b: AStarNode) -> bool {
    a.f() < b.f() || (a.f() == b.f() && a.h() < b.h())
}

/// The key under which a node's board is filed.
pub open spec fn node_key(n: AStarNode) -> u32 {
    board_key(n.cells()) as u32
}

/// `i` is the first index of `store` whose node holds the cells `b`.
pub open spec fn is_first_with_cells(store: Seq<AStarNode>, b: Seq<u8>, i: int) -> bool {
    &&& 0 <= i < store.len()
    &&& store[i].cells() == b
    &&& forall|j: int| 0 <= j < i ==> #[trigger] store[j].cells() != b
}

/// A* solver state: the open set (a binary heap on `f`, then `h`), the
/// closed set keyed by board, every node ever created (parents are indices
/// into it), the best known cost of each board, and the goal position table.
pub struct AStar {
    open_list: Vec<AStarNode>,
    closed_list: HashMap<u32, AStarNode>,
    node_store: Vec<AStarNode>,
    g_scores: HashMap<u32, u32>,
    goal_positions: [usize; 9],
}

impl AStar {
    pub closed spec fn open_nodes(&self) -> Seq<AStarNode> {
        self.open_list@
    }

    pub closed spec fn closed_nodes(&self) -> Map<u32, AStarNode> {
        self.closed_list@
    }

    pub closed spec fn stored_nodes(&self) -> Seq<AStarNode> {
        self.node_store@
    }

    pub closed spec fn best_costs(&self) -> Map<u32, u32> {
        self.g_scores@
    }

    pub closed spec fn positions(&self) -> Seq<usize> {
        self.goal_positions@
    }

    /// The cells the search started from.
    pub open spec fn start_cells(&self) -> Seq<u8> {
        self.stored_nodes()[0].cells()
    }

    /// Well-formedness: the standard goal table, a start node first in the
    /// store, cells below nine everywhere, the open set in heap order, every
    /// stored node after its parent, and closed entries filed under their own
    /// key and linked to the search tree.
    #[verifier::opaque]
    pub open spec fn wf(&self) -> bool {
        &&& self.positions() == goal_table()
        &&& self.stored_nodes().len() >= 1
        &&& self.stored_nodes()[0].parent() is None
        &&& forall|i: int|
            0 <= i < self.stored_nodes().len() ==> cells_below_nine(
                #[trigger] self.stored_nodes()[i].cells(),
            )
        &&& forall|i: int|
            0 <= i < self.open_nodes().len() ==> cells_below_nine(
                #[trigger] self.open_nodes()[i].cells(),
            )
        &&& is_heap(self.open_nodes())
        &&& forall|i: int|
            0 <= i < self.stored_nodes().len() && (#[trigger] self.stored_nodes()[i]).parent() is Some
                ==> self.stored_nodes()[i].parent()->0 < i
        &&& forall|k: u32| #[trigger]
            self.closed_nodes().contains_key(k) ==> {
                let n = self.closed_nodes()[k];
                &&& cells_below_nine(n.cells())
                &&& node_key(n) == k
                &&& linked(self.stored_nodes(), self.closed_nodes(), n)
            }
    }

    /// The tiles recorded along the parent chain of the closed board `b`,
    /// oldest first, following at most `fuel` links.
    pub open spec fn moves_back(&self, b: Seq<u8>, fuel: nat) -> Seq<u8>
        decreases fuel,
    {
        if fuel == 0 || !cells_below_nine(b) || !self.closed_nodes().contains_key(
            board_key(b) as u32,
        ) {
            Seq::empty()
        } else {
            let n = self.closed_nodes()[board_key(b) as u32];
            let prefix = match n.parent() {
                Some(p) => if p < self.stored_nodes().len() {
                    self.moves_back(self.stored_nodes()[p as int].cells(), (fuel - 1) as nat)
                } else {
                    Seq::empty()
                },
                None => Seq::empty(),
            };
            if n.moved_tile() != 0 {
                prefix.push(n.moved_tile())
            } else {
                prefix
            }
        }
    }

    /// The tiles along the parent chain of `b`, from the start to `b`; empty
    /// when `b` is not closed.
    #[verifier::opaque]
    pub open spec fn path_back(&self, b: Seq<u8>) -> Seq<u8> {
        if cells_below_nine(b) && self.closed_nodes().contains_key(board_key(b) as u32) {
            self.moves_back(b, (self.closed_nodes()[board_key(b) as u32].g() + 1) as nat)
        } else {
            Seq::empty()
        }
    }

    /// One link of the parent chain of a closed board `b`.
    pub proof fn lemma_path_back_step(&self, b: Seq<u8>)
        requires
            self.wf(),
            cells_below_nine(b),
            self.closed_nodes().contains_key(board_key(b) as u32),
        ensures
            ({
                let n = self.closed_nodes()[board_key(b) as u32];
                let last = if n.moved_tile() != 0 {
                    seq![n.moved_tile()]
                } else {
                    Seq::<u8>::empty()
                };
                match n.parent() {
                    None => n.moved_tile() == 0 && self.path_back(b) == last,
                    Some(p) => {
                        let pb = self.stored_nodes()[p as int].cells();
                        &&& p < self.stored_nodes().len()
                        &&& cells_below_nine(pb)
                        &&& self.closed_nodes().contains_key(board_key(pb) as u32)
                        &&& self.closed_nodes()[board_key(pb) as u32].g() < n.g()
                        &&& self.path_back(b) == self.path_back(pb) + last
                    },
                }
            }),
    {
        reveal(AStar::wf);
        reveal(AStar::path_back);
        let n = self.closed_nodes()[board_key(b) as u32];
        match n.parent() {
            None => {
                assert(self.path_back(b) =~= (if n.moved_tile() != 0 {
                    seq![n.moved_tile()]
                } else {
                    Seq::<u8>::empty()
                }));
            },
            Some(p) => {
                let pb = self.stored_nodes()[p as int].cells();
                assert(cells_below_nine(pb));
                assert(self.path_back(b) =~= self.path_back(pb) + (if n.moved_tile() != 0 {
                    seq![n.moved_tile()]
                } else {
                    Seq::<u8>::empty()
                }));
            },
        }
    }

    /// The parent chain of a closed board is a sequence of moves that leads
    /// from the start to that board.
    pub proof fn lemma_path_back_leads_to(&self, b: Seq<u8>)
        requires
            self.wf(),
            cells_below_nine(b),
            self.closed_nodes().contains_key(board_key(b) as u32),
        ensures
            leads_to(self.start_cells(), self.path_back(b), b),
        decreases self.closed_nodes()[board_key(b) as u32].g(),
    {
        reveal(AStar::wf);
        reveal(AStar::path_back);
        let k = board_key(b) as u32;
        let n = self.closed_nodes()[k];
        lemma_board_key_in_space(b);
        lemma_board_key_in_space(n.cells());
        lemma_key_injective(n.cells(), b);
        match n.parent() {
            None => {
                assert(self.path_back(b) =~= Seq::<u8>::empty());
            },
            Some(p) => {
                let pn = self.stored_nodes()[p as int];
                let pb = pn.cells();
                assert(cells_below_nine(pb));
                self.lemma_path_back_leads_to(pb);
                lemma_leads_to_push(self.start_cells(), self.path_back(pb), pb, n.moved_tile(), b);
            },
        }
    }

    /// The parent chain of a closed board has as many moves as the board's cost.
    pub proof fn lemma_path_back_len(&self, b: Seq<u8>)
        requires
            self.wf(),
            cells_below_nine(b),
            self.closed_nodes().contains_key(board_key(b) as u32),
        ensures
            self.path_back(b).len() == self.closed_nodes()[board_key(b) as u32].g(),
        decreases self.closed_nodes()[board_key(b) as u32].g(),
    {
        self.lemma_path_back_step(b);
        reveal(AStar::wf);
        let n = self.closed_nodes()[board_key(b) as u32];
        assert(linked(self.stored_nodes(), self.closed_nodes(), n));
        if let Some(p) = n.parent() {
            let pb = self.stored_nodes()[p as int].cells();
            self.lemma_path_back_len(pb);
        }
    }

    /// Every stored node with a parent stands after it in the store, so
    /// parent chains end.
    pub proof fn lemma_parent_precedes(&self, i: int)
        requires
            self.wf(),
            0 <= i < self.stored_nodes().len(),
            self.stored_nodes()[i].parent() is Some,
        ensures
            self.stored_nodes()[i].parent()->0 < i,
    {
        reveal(AStar::wf);
    }

    /// The goal position table `1 2 3 / 4 5 6 / 7 8 _`.
    fn default_goal_positions() -> (gp: [usize; 9])
        ensures
            gp@ == goal_table(),
    {
        let gp: [usize; 9] = [8, 0, 1, 2, 3, 4, 5, 6, 7];
        assert(gp@ =~= goal_table());
        gp
    }

    /// A solver whose open set and store hold the start node alone, with
    /// cost zero and the Manhattan distance as estimate.
    pub fn new(start: Board) -> (astar: AStar)
        requires
            cells_below_nine(start@),
        ensures
            astar.wf(),
            astar.stored_nodes().len() == 1,
            astar.open_nodes() == astar.stored_nodes(),
            astar.start_cells() == start@,
            astar.stored_nodes()[0].g() == 0,
            astar.stored_nodes()[0].h() == manhattan(start@, goal_table()),
            astar.stored_nodes()[0].f() == manhattan(start@, goal_table()),
            astar.stored_nodes()[0].parent() is None,
            astar.stored_nodes()[0].moved_tile() == 0,
            astar.closed_nodes() == Map::<u32, AStarNode>::empty(),
            astar.best_costs() == Map::<u32, u32>::empty().insert(board_key(start@) as u32, 0u32),
    {
        reveal(AStar::wf);
        let mut open_list: Vec<AStarNode> = Vec::new();
        let closed_list: HashMap<u32, AStarNode> = HashMap::new();
        let mut node_store: Vec<AStarNode> = Vec::new();
        let mut g_scores: HashMap<u32, u32> = HashMap::new();
        let goal_positions = Self::default_goal_positions();

        proof {
            lemma_manhattan_upto_bound(start@, goal_positions@, 9);
            lemma_positions_valid_rows_fit(start@, goal_positions@);
        }
        let h_cost = start.manhattan_distance(&goal_positions);
        let start_node = AStarNode::new(start, 0, h_cost, None, 0);
        open_list.push(start_node);
        node_store.push(start_node);
        g_scores.insert(start.key(), 0);

        let astar = AStar { open_list, closed_list, node_store, g_scores, goal_positions };
        assert(astar.closed_nodes() =~= Map::<u32, AStarNode>::empty());
        assert(is_heap(astar.open_nodes()));
        astar
    }

    /// Records a node for `board` reached at cost `g_cost` from the first
    /// stored node holding `parent_board`, by moving tile `move_number`: the
    /// node goes to the store and the open set, and `g_cost` becomes the best
    /// known cost of `board`.
    pub fn add_node(&mut self, board: Board, g_cost: u32, parent_board: Board, move_number: u8)
        requires
            old(self).wf(),
            cells_below_nine(board@),
            exists|i: int|
                0 <= i < old(self).stored_nodes().len() && #[trigger] old(
                    self,
                ).stored_nodes()[i].cells() == parent_board@,
            old(self).stored_nodes().len() <= u32::MAX + 1,
            g_cost + manhattan(board@, goal_table()) <= u32::MAX,
        ensures
            final(self).wf(),
            final(self).stored_nodes().len() == old(self).stored_nodes().len() + 1,
            final(self).stored_nodes().drop_last() == old(self).stored_nodes(),
            final(self).open_nodes().to_multiset() == old(self).open_nodes().push(
                final(self).stored_nodes().last(),
            ).to_multiset(),
            final(self).stored_nodes().last().cells() == board@,
            final(self).stored_nodes().last().g() == g_cost,
            final(self).stored_nodes().last().h() == manhattan(board@, goal_table()),
            final(self).stored_nodes().last().f() == g_cost + manhattan(board@, goal_table()),
            final(self).stored_nodes().last().moved_tile() == move_number,
            final(self).stored_nodes().last().parent() matches Some(p) && is_first_with_cells(
                old(self).stored_nodes(),
                parent_board@,
                p as int,
            ),
            final(self).best_costs() == old(self).best_costs().insert(
                board_key(board@) as u32,
                g_cost,
            ),
            final(self).closed_nodes() == old(self).closed_nodes(),
            final(self).positions() == old(self).positions(),
    {
        reveal(AStar::wf);
        proof {
            lemma_manhattan_upto_bound(board@, goal_table(), 9);
            lemma_positions_valid_rows_fit(board@, goal_table());
        }
        let h_cost = board.manhattan_distance(&self.goal_positions);

        let mut idx: usize = 0;
        let n = self.node_store.len();
        while idx < n
            invariant
                n == self.node_store@.len(),
                0 <= idx <= n,
                self.node_store@ == old(self).node_store@,
                exists|i: int|
                    idx <= i < n && #[trigger] self.node_store@[i].cells() == parent_board@,
                forall|j: int| 0 <= j < idx ==> #[trigger] self.node_store@[j].cells() != parent_board@,
            ensures
                idx < n,
                self.node_store@[idx as int].cells() == parent_board@,
                forall|j: int| 0 <= j < idx ==> #[trigger] self.node_store@[j].cells() != parent_board@,
            decreases n - idx,
        {
            if self.node_store[idx].board == parent_board {
                break;
            }
            idx = idx + 1;
        }
        let actual_parent_idx = idx as u32;

        let new_node = AStarNode::new(board, g_cost, h_cost, Some(actual_parent_idx), move_number);

        self.node_store.push(new_node);
        self.g_scores.insert(board.key(), g_cost);
        heap_push(&mut self.open_list, new_node);
        proof {
            assert(self.node_store@.drop_last() =~= old(self).node_store@);
            let s = self.stored_nodes();
            assert forall|k: u32| #[trigger] self.closed_nodes().contains_key(k) implies {
                let n = self.closed_nodes()[k];
                &&& cells_below_nine(n.cells())
                &&& node_key(n) == k
                &&& linked(self.stored_nodes(), self.closed_nodes(), n)
            } by {
                let n = self.closed_nodes()[k];
                assert(linked(old(self).stored_nodes(), old(self).closed_nodes(), n));
                if let Some(p) = n.parent() {
                    assert(s[p as int] == old(self).stored_nodes()[p as int]);
                }
            }
            assert(s[0] == old(self).stored_nodes()[0]);
            assert forall|i: int| 0 <= i < s.len() implies cells_below_nine(#[trigger] s[i].cells()) by {
                if i < s.len() - 1 {
                    assert(s[i] == old(self).stored_nodes()[i]);
                }
            }
            assert forall|i: int| 0 <= i < s.len() && (#[trigger] s[i]).parent() is Some implies s[i].parent()->0 < i by {
                if i < s.len() - 1 {
                    assert(s[i] == old(self).stored_nodes()[i]);
                }
            }
            let o = old(self).open_nodes().push(new_node);
            assert forall|i: int| 0 <= i < o.len() implies cells_below_nine(#[trigger] o[i].cells()) by {
                if i < o.len() - 1 {
                    assert(o[i] == old(self).open_nodes()[i]);
                }
            }
            lemma_open_rearranged(
                o,
                self.open_nodes(),
                self.stored_nodes(),
                self.closed_nodes(),
                self.best_costs(),
            );
        }
    }

    /// Takes from the open set the node expanded next, one with the lowest
    /// `f`, ties broken by the lowest `h`; `None` when the set is empty.
    pub fn find_lowest_f_cost(&mut self) -> (popped: Option<AStarNode>)
        requires
            old(self).wf(),
        ensures
            old(self).open_nodes().len() == 0 ==> popped is None && final(self).open_nodes()
                == old(self).open_nodes(),
            old(self).open_nodes().len() > 0 ==> {
                &&& is_lowest(old(self).open_nodes(), 0)
                &&& popped == Some(old(self).open_nodes()[0])
                &&& final(self).open_nodes().to_multiset() == old(
                    self,
                ).open_nodes().remove(0).to_multiset()
                &&& final(self).open_nodes().len() == old(self).open_nodes().len() - 1
            },
            final(self).closed_nodes() == old(self).closed_nodes(),
            final(self).stored_nodes() == old(self).stored_nodes(),
            final(self).best_costs() == old(self).best_costs(),
            final(self).positions() == old(self).positions(),
            final(self).wf(),
    {
        reveal(AStar::wf);
        if self.open_list.len() == 0 {
            return None;
        }
        proof {
            lemma_root_first(self.open_list@);
        }
        let node = heap_pop(&mut self.open_list);
        proof {
            let oo = old(self).open_nodes();
            let r = oo.remove(0);
            assert forall|i: int| 0 <= i < r.len() implies cells_below_nine(#[trigger] r[i].cells()) by {
                assert(r[i] == oo[i + 1]);
            }
            lemma_open_rearranged(
                r,
                self.open_nodes(),
                self.stored_nodes(),
                self.closed_nodes(),
                self.best_costs(),
            );
        }
        Some(node)
    }

    /// The tiles moved along the parent chain of `goal`, from the start to
    /// `goal`; empty when `goal` is not closed.
    pub fn reconstruct_path(&self, goal: Board) -> (path: Vec<u8>)
        requires
            self.wf(),
        ensures
            path@ == self.path_back(goal@),
            cells_below_nine(goal@) && self.closed_nodes().contains_key(board_key(goal@) as u32)
                ==> leads_to(self.start_cells(), path@, goal@),
    {
        let mut path: Vec<u8> = Vec::new();
        if goal.checked_key().is_none() {
            proof {
                reveal(AStar::path_back);
            }
            return path;
        }
        let mut current = goal;
        loop
            invariant
                self.wf(),
                cells_below_nine(current@),
                self.path_back(goal@) == self.path_back(current@) + path@.reverse(),
            ensures
                self.path_back(goal@) == path@.reverse(),
            decreases (if self.closed_nodes().contains_key(board_key(current@) as u32) {
                self.closed_nodes()[board_key(current@) as u32].g() + 1
            } else {
                0
            }),
        {
            let ghost old_path = path@;
            let ghost cur = current@;
            match self.closed_list.get(&current.key()) {
                None => {
                    proof {
                        reveal(AStar::path_back);
                    }
                    assert(self.path_back(cur) =~= Seq::<u8>::empty());
                    break ;
                },
                Some(node) => {
                    proof {
                        self.lemma_path_back_step(cur);
                    }
                    let mv = node.move_number;
                    let par = node.parent_index;
                    if mv != 0 {
                        path.push(mv);
                    }
                    match par {
                        Some(p) => {
                            current = self.node_store[p as usize].board;
                            proof {
                                assert(path@.reverse() =~= (if mv != 0 {
                                    seq![mv]
                                } else {
                                    Seq::<u8>::empty()
                                }) + old_path.reverse());
                            }
                        },
                        None => {
                            proof {
                                assert(path@.reverse() =~= (if mv != 0 {
                                    seq![mv]
                                } else {
                                    Seq::<u8>::empty()
                                }) + old_path.reverse());
                            }
                            break ;
                        },
                    }
                },
            }
        }
        let result = reversed(&path);
        proof {
            reveal(AStar::path_back);
            assert(path@.reverse().reverse() =~= path@);
            if cells_below_nine(goal@) && self.closed_nodes().contains_key(board_key(goal@) as u32) {
                self.lemma_path_back_leads_to(goal@);
            }
        }
        result
    }
}

/// Whether `a` comes out of the open set before `b`.
pub(crate) fn expanded_before(a: &AStarNode, b: &AStarNode) -> (r: bool)
    ensures
        r == precedes(*a, *b),
{
    match a.priority_cmp(b) {
        Ordering::Greater => true,
        _ => false,
    }
}

/// A node `n` hangs off the search tree recorded in `store` and `closed`:
/// the start node has no parent and cost zero; any other node's parent is a
/// stored node whose board is closed with cost one less, and `n` is that
/// board with the moved tile slid into the blank.
pub open spec fn linked(store: Seq<AStarNode>, closed: Map<u32, AStarNode>, n: AStarNode) -> bool {
    match n.parent() {
        None => n.cells() == store[0].cells() && n.g() == 0 && n.moved_tile() == 0,
        Some(p) => {
            let pn = store[p as int];
            &&& p < store.len()
            &&& closed.contains_key(node_key(pn))
            &&& closed[node_key(pn)].g() + 1 == n.g()
            &&& step_to(pn.cells(), n.moved_tile(), n.cells())
            &&& n.moved_tile() != 0
        },
    }
}

/// No node of `open` precedes the node at `i`.
pub open spec fn is_lowest(open: Seq<AStarNode>, i: int) -> bool {
    &&& 0 <= i < open.len()
    &&& forall|k: int| 0 <= k < open.len() ==> !precedes(#[trigger] open[k], open[i])
}

/// The entries of `v` in reverse order.
fn reversed(v: &Vec<u8>) -> (r: Vec<u8>)
    ensures
        r@ == v@.reverse(),
{
    let n = v.len();
    let mut r: Vec<u8> = Vec::new();
    let mut i: usize = 0;
    while i < n
        invariant
            n == v@.len(),
            0 <= i <= n,
            r@ =~= Seq::new(i as nat, |k: int| v@[n - 1 - k]),
        decreases n - i,
    {
        r.push(v[n - 1 - i]);
        i = i + 1;
    }
    r
}

// ---------------------------------------------------------------------------
// What the search keeps true between iterations
// ---------------------------------------------------------------------------

/// An open node `n`: it holds a blank, hangs off the search tree, carries
/// the Manhattan estimate, costs no less than the best known cost of its
/// board, is the live entry of its board only while that board is not
/// closed, has a copy of its board in the store, and costs at most the
/// number of closed boards.
pub open spec fn open_node_fits(
    store: Seq<AStarNode>,
    closed: Map<u32, AStarNode>,
    costs: Map<u32, u32>,
    n: AStarNode,
) -> bool {
    &&& n.cells().contains(0)
    &&& cells_below_nine(n.cells())
    &&& linked(store, closed, n)
    &&& n.h() == manhattan(n.cells(), goal_table())
    &&& n.f() == n.g() + n.h()
    &&& costs.contains_key(node_key(n))
    &&& costs[node_key(n)] <= n.g()
    &&& (n.g() == costs[node_key(n)] ==> !closed.contains_key(node_key(n)))
    &&& exists|j: int| 0 <= j < store.len() && #[trigger] store[j].cells() == n.cells()
    &&& n.g() <= closed.len()
}

/// Every open node fits, and two open nodes of one board differ in cost.
pub open spec fn open_ok(
    open: Seq<AStarNode>,
    store: Seq<AStarNode>,
    closed: Map<u32, AStarNode>,
    costs: Map<u32, u32>,
) -> bool {
    &&& forall|i: int| 0 <= i < open.len() ==> open_node_fits(store, closed, costs, #[trigger] open[i])
    &&& forall|i: int, j: int|
        0 <= i < open.len() && 0 <= j < open.len() && i != j && node_key(#[trigger] open[i])
            == node_key(#[trigger] open[j]) ==> open[i].g() != open[j].g()
}

/// Each board with a known cost that is not closed has an open node at
/// exactly that cost.
pub open spec fn costs_covered(
    open: Seq<AStarNode>,
    closed: Map<u32, AStarNode>,
    costs: Map<u32, u32>,
) -> bool {
    forall|k: u32| #[trigger]
        costs.contains_key(k) && !closed.contains_key(k) ==> exists|i: int|
            0 <= i < open.len() && node_key(#[trigger] open[i]) == k && open[i].g() == costs[k]
}

/// Closed nodes cost less than the number of closed boards, hold a blank,
/// and their cost is the best known cost of their board.
pub open spec fn closed_ok(closed: Map<u32, AStarNode>, costs: Map<u32, u32>) -> bool {
    &&& closed.dom().finite()
    &&& forall|k: u32| #[trigger]
        closed.contains_key(k) ==> {
            &&& closed[k].g() < closed.len()
            &&& closed[k].cells().contains(0)
            &&& costs.contains_key(k)
            &&& costs[k] == closed[k].g()
        }
}

/// No sequence of moves reaches a closed board from the start in fewer
/// moves than the board's cost.
pub open spec fn closed_shortest(closed: Map<u32, AStarNode>, start: Seq<u8>) -> bool {
    forall|k: u32, moves: Seq<u8>|
        #![trigger closed.contains_key(k), leads_to(start, moves, closed[k].cells())]
        closed.contains_key(k) && leads_to(start, moves, closed[k].cells()) ==> closed[k].g()
            <= moves.len()
}

/// Every board one move away from `b` has a known cost of at most `bound`.
pub open spec fn neighbours_within(costs: Map<u32, u32>, b: Seq<u8>, bound: int) -> bool {
    forall|e: int, q: int|
        #![trigger slide(b, e, q)]
        is_first_blank(b, e) && neighbours(e).contains(q) ==> {
            &&& costs.contains_key(board_key(slide(b, e, q)) as u32)
            &&& costs[board_key(slide(b, e, q)) as u32] <= bound
        }
}

/// Every closed board other than `except` has been expanded: its
/// neighbours cost at most one more than it.
pub open spec fn expanded_except(
    closed: Map<u32, AStarNode>,
    costs: Map<u32, u32>,
    except: Option<u32>,
) -> bool {
    forall|k: u32| #[trigger]
        closed.contains_key(k) && except != Some(k) ==> neighbours_within(
            costs,
            closed[k].cells(),
            closed[k].g() + 1,
        )
}

/// Facts of the search that hold apart from the expansion in progress.
pub open spec fn search_core(a: AStar, start: Seq<u8>) -> bool {
    &&& a.wf()
    &&& open_ok(a.open_nodes(), a.stored_nodes(), a.closed_nodes(), a.best_costs())
    &&& costs_covered(a.open_nodes(), a.closed_nodes(), a.best_costs())
    &&& closed_ok(a.closed_nodes(), a.best_costs())
    &&& closed_shortest(a.closed_nodes(), start)
    &&& a.start_cells() == start
    &&& cells_below_nine(start)
    &&& a.best_costs().contains_key(board_key(start) as u32)
    &&& a.best_costs()[board_key(start) as u32] == 0
    &&& !a.closed_nodes().contains_key(board_key(goal_cells()) as u32)
    &&& a.closed_nodes().len() <= key_space()
}

/// The state between two iterations of the search loop.
#[verifier::opaque]
pub open spec fn search_invariant(a: AStar, start: Seq<u8>) -> bool {
    &&& search_core(a, start)
    &&& expanded_except(a.closed_nodes(), a.best_costs(), None)
    &&& a.stored_nodes().len() <= 1 + 4 * a.closed_nodes().len()
}

/// The state while the closed node `c` is being expanded.
#[verifier::opaque]
pub open spec fn expanding(a: AStar, start: Seq<u8>, c: AStarNode) -> bool {
    &&& search_core(a, start)
    &&& expanded_except(a.closed_nodes(), a.best_costs(), Some(node_key(c)))
    &&& a.closed_nodes().contains_key(node_key(c))
    &&& a.closed_nodes()[node_key(c)] == c
    &&& cells_below_nine(c.cells())
    &&& c.cells().contains(0)
    &&& exists|j: int|
        0 <= j < a.stored_nodes().len() && #[trigger] a.stored_nodes()[j].cells() == c.cells()
}

impl AStar {
    /// The closed boards number at most `9^9`.
    proof fn lemma_closed_count(&self)
        requires
            self.wf(),
        ensures
            self.closed_nodes().dom().finite(),
            self.closed_nodes().len() <= key_space(),
    {
        reveal(AStar::wf);
        let d = self.closed_nodes().dom();
        let r = Set::<u32>::range(0u32, 387420489u32);
        assert(d.subset_of(r)) by {
            assert forall|k: u32| d.contains(k) implies r.contains(k) by {
                assert(self.closed_nodes().contains_key(k));
                lemma_board_key_in_space(self.closed_nodes()[k].cells());
            }
        }
        vstd::set_lib::range_set_properties::<u32>(0u32, 387420489u32);
        vstd::set_lib::lemma_len_subset(d, r);
    }

    /// A closed board is the board of its closed node.
    proof fn lemma_closed_cells(&self, b: Seq<u8>)
        requires
            self.wf(),
            cells_below_nine(b),
            self.closed_nodes().contains_key(board_key(b) as u32),
        ensures
            self.closed_nodes()[board_key(b) as u32].cells() == b,
    {
        reveal(AStar::wf);
        lemma_same_key(self.closed_nodes()[board_key(b) as u32].cells(), b);
    }
}

/// Two boards with cells below nine and equal keys are equal.
proof fn lemma_same_key(s: Seq<u8>, t: Seq<u8>)
    requires
        cells_below_nine(s),
        cells_below_nine(t),
        board_key(s) as u32 == board_key(t) as u32,
    ensures
        s == t,
{
    lemma_board_key_in_space(s);
    lemma_board_key_in_space(t);
    lemma_key_injective(s, t);
}

/// The state right after `AStar::new` satisfies the search invariant.
proof fn lemma_start(a: AStar, start: Seq<u8>)
    requires
        a.wf(),
        cells_below_nine(start),
        start.contains(0),
        start != goal_cells(),
        a.stored_nodes().len() == 1,
        a.open_nodes() == a.stored_nodes(),
        a.start_cells() == start,
        a.stored_nodes()[0].g() == 0,
        a.stored_nodes()[0].h() == manhattan(start, goal_table()),
        a.stored_nodes()[0].f() == manhattan(start, goal_table()),
        a.stored_nodes()[0].parent() is None,
        a.stored_nodes()[0].moved_tile() == 0,
        a.closed_nodes() == Map::<u32, AStarNode>::empty(),
        a.best_costs() == Map::<u32, u32>::empty().insert(board_key(start) as u32, 0u32),
    ensures
        search_invariant(a, start),
{
    reveal(search_invariant);
    let n = a.open_nodes()[0];
    assert(a.stored_nodes()[0].cells() == n.cells());
    assert(open_node_fits(a.stored_nodes(), a.closed_nodes(), a.best_costs(), n));
    assert(a.closed_nodes().dom() =~= Set::<u32>::empty());
    assert(costs_covered(a.open_nodes(), a.closed_nodes(), a.best_costs())) by {
        assert forall|k: u32| #[trigger]
            a.best_costs().contains_key(k) && !a.closed_nodes().contains_key(k) implies exists|i: int|
                0 <= i < a.open_nodes().len() && node_key(#[trigger] a.open_nodes()[i]) == k
                    && a.open_nodes()[i].g() == a.best_costs()[k] by {
            assert(node_key(a.open_nodes()[0]) == k);
        }
    }
}

/// Each entry of a rearrangement of `o1` stands somewhere in `o1`.
proof fn lemma_rearranged_entry(o1: Seq<AStarNode>, o2: Seq<AStarNode>, j: int) -> (i: int)
    requires
        o1.to_multiset() == o2.to_multiset(),
        0 <= j < o2.len(),
    ensures
        0 <= i < o1.len(),
        o1[i] == o2[j],
{
    broadcast use vstd::seq_lib::group_to_multiset_ensures;

    assert(o2.contains(o2[j]));
    assert(o1.to_multiset().count(o2[j]) > 0);
    choose|i: int| 0 <= i < o1.len() && o1[i] == o2[j]
}

/// A value standing at two places of a sequence stands at two places of
/// any rearrangement of it.
proof fn lemma_rearranged_twice(o1: Seq<AStarNode>, o2: Seq<AStarNode>, x: int, y: int) -> (ij: (
    int,
    int,
))
    requires
        o1.to_multiset() == o2.to_multiset(),
        0 <= x < o2.len(),
        0 <= y < o2.len(),
        x != y,
        o2[x] == o2[y],
    ensures
        0 <= ij.0 < o1.len(),
        0 <= ij.1 < o1.len(),
        ij.0 != ij.1,
        o1[ij.0] == o2[x],
        o1[ij.1] == o2[x],
{
    broadcast use vstd::seq_lib::group_to_multiset_ensures, vstd::multiset::group_multiset_axioms;

    let v = o2[x];
    let y2 = if y < x { y } else { y - 1 };
    assert(o2.remove(x)[y2] == v);
    assert(o2.remove(x).contains(v));
    assert(o2.remove(x).to_multiset().count(v) > 0);
    assert(o2.remove(x).to_multiset() == o2.to_multiset().remove(v));
    assert(o2.to_multiset().count(v) >= 2);
    let i = lemma_rearranged_entry(o1, o2, x);
    assert(o1.remove(i).to_multiset().count(v) >= 1);
    assert(o1.remove(i).contains(v));
    let j2 = choose|j: int| 0 <= j < o1.remove(i).len() && o1.remove(i)[j] == v;
    let j = if j2 < i { j2 } else { j2 + 1 };
    assert(o1[j] == o1.remove(i)[j2]);
    (i, j)
}

/// Whatever the search states of the open set holds of any rearrangement
/// of it.
proof fn lemma_open_rearranged(
    o1: Seq<AStarNode>,
    o2: Seq<AStarNode>,
    s: Seq<AStarNode>,
    c: Map<u32, AStarNode>,
    g: Map<u32, u32>,
)
    requires
        o1.to_multiset() == o2.to_multiset(),
    ensures
        o1.len() == o2.len(),
        open_ok(o1, s, c, g) ==> open_ok(o2, s, c, g),
        costs_covered(o1, c, g) ==> costs_covered(o2, c, g),
        (forall|i: int| 0 <= i < o1.len() ==> cells_below_nine(#[trigger] o1[i].cells())) ==> (
        forall|i: int| 0 <= i < o2.len() ==> cells_below_nine(#[trigger] o2[i].cells())),
{
    broadcast use vstd::seq_lib::group_to_multiset_ensures;

    vstd::seq_lib::to_multiset_len(o1);
    vstd::seq_lib::to_multiset_len(o2);
    if forall|i: int| 0 <= i < o1.len() ==> cells_below_nine(#[trigger] o1[i].cells()) {
        assert forall|j: int| 0 <= j < o2.len() implies cells_below_nine(#[trigger] o2[j].cells()) by {
            let i = lemma_rearranged_entry(o1, o2, j);
        }
    }
    if open_ok(o1, s, c, g) {
        assert forall|j: int| 0 <= j < o2.len() implies open_node_fits(s, c, g, #[trigger] o2[j]) by {
            let i = lemma_rearranged_entry(o1, o2, j);
        }
        assert forall|x: int, y: int|
            0 <= x < o2.len() && 0 <= y < o2.len() && x != y && node_key(#[trigger] o2[x])
                == node_key(#[trigger] o2[y]) implies o2[x].g() != o2[y].g() by {
            if o2[x] == o2[y] {
                let (i, j) = lemma_rearranged_twice(o1, o2, x, y);
                assert(node_key(o1[i]) == node_key(o1[j]));
            } else {
                let i = lemma_rearranged_entry(o1, o2, x);
                let j = lemma_rearranged_entry(o1, o2, y);
                assert(node_key(o1[i]) == node_key(o1[j]));
            }
        }
    }
    if costs_covered(o1, c, g) {
        assert forall|k: u32| #[trigger] g.contains_key(k) && !c.contains_key(k) implies exists|j: int|
            0 <= j < o2.len() && node_key(#[trigger] o2[j]) == k && o2[j].g() == g[k] by {
            let w = choose|w: int| 0 <= w < o1.len() && node_key(#[trigger] o1[w]) == k && o1[w].g() == g[k];
            let j = lemma_rearranged_entry(o2, o1, w);
            assert(node_key(o2[j]) == k);
        }
    }
}

/// Removing a node from the open set keeps the other open nodes fitting.
proof fn lemma_open_remove(
    open: Seq<AStarNode>,
    store: Seq<AStarNode>,
    closed: Map<u32, AStarNode>,
    costs: Map<u32, u32>,
    i: int,
)
    requires
        open_ok(open, store, closed, costs),
        0 <= i < open.len(),
    ensures
        open_ok(open.remove(i), store, closed, costs),
        forall|j: int|
            0 <= j < open.remove(i).len() ==> #[trigger] open.remove(i)[j] == open[if j < i {
                j
            } else {
                j + 1
            }],
{
    let o1 = open.remove(i);
    assert forall|j: int| 0 <= j < o1.len() implies #[trigger] o1[j] == open[if j < i {
        j
    } else {
        j + 1
    }] by {}
    assert forall|j: int| 0 <= j < o1.len() implies open_node_fits(store, closed, costs, #[trigger] o1[j]) by {
        let jj = if j < i { j } else { j + 1 };
        assert(o1[j] == open[jj]);
    }
    assert forall|x: int, y: int|
        0 <= x < o1.len() && 0 <= y < o1.len() && x != y && node_key(#[trigger] o1[x]) == node_key(
            #[trigger] o1[y],
        ) implies o1[x].g() != o1[y].g() by {
        let xx = if x < i { x } else { x + 1 };
        let yy = if y < i { y } else { y + 1 };
        assert(o1[x] == open[xx] && o1[y] == open[yy]);
    }
}

/// Removing a stale open node keeps the known costs covered.
proof fn lemma_stale_covered(o0: Seq<AStarNode>, c: Map<u32, AStarNode>, g: Map<u32, u32>, i: int)
    requires
        costs_covered(o0, c, g),
        0 <= i < o0.len(),
        g[node_key(o0[i])] < o0[i].g(),
    ensures
        costs_covered(o0.remove(i), c, g),
{
    let o1 = o0.remove(i);
    assert forall|k: u32| #[trigger] g.contains_key(k) && !c.contains_key(k) implies exists|j: int|
        0 <= j < o1.len() && node_key(#[trigger] o1[j]) == k && o1[j].g() == g[k] by {
        let w = choose|w: int| 0 <= w < o0.len() && node_key(#[trigger] o0[w]) == k && o0[w].g() == g[k];
        assert(w != i);
        let j = if w < i { w } else { w - 1 };
        assert(o1[j] == o0[w]);
    }
}

/// Dropping a stale open node (one costlier than its board's best) keeps
/// the invariant.
proof fn lemma_drop_stale(a0: AStar, a1: AStar, start: Seq<u8>, i: int)
    requires
        search_invariant(a0, start),
        0 <= i < a0.open_nodes().len(),
        a0.best_costs()[node_key(a0.open_nodes()[i])] < a0.open_nodes()[i].g(),
        a1.wf(),
        a1.open_nodes().to_multiset() == a0.open_nodes().remove(i).to_multiset(),
        a1.closed_nodes() == a0.closed_nodes(),
        a1.stored_nodes() == a0.stored_nodes(),
        a1.best_costs() == a0.best_costs(),
        a1.positions() == a0.positions(),
    ensures
        search_invariant(a1, start),
{
    reveal(search_invariant);
    lemma_open_remove(a0.open_nodes(), a0.stored_nodes(), a0.closed_nodes(), a0.best_costs(), i);
    lemma_stale_covered(a0.open_nodes(), a0.closed_nodes(), a0.best_costs(), i);
    lemma_open_rearranged(
        a0.open_nodes().remove(i),
        a1.open_nodes(),
        a1.stored_nodes(),
        a1.closed_nodes(),
        a1.best_costs(),
    );
    assert(a1.start_cells() == a0.start_cells());
}

/// A well-formed solver keeps its open set in heap order.
proof fn lemma_wf_heap(a: AStar)
    requires
        a.wf(),
    ensures
        is_heap(a.open_nodes()),
{
    reveal(AStar::wf);
}

/// What the loop reads off the invariant about the open node at `i`.
proof fn lemma_open_node_facts(a: AStar, start: Seq<u8>, i: int)
    requires
        search_invariant(a, start),
        0 <= i < a.open_nodes().len(),
    ensures
        a.wf(),
        cells_below_nine(a.open_nodes()[i].cells()),
        a.best_costs().contains_key(node_key(a.open_nodes()[i])),
        a.best_costs()[node_key(a.open_nodes()[i])] <= a.open_nodes()[i].g(),
        a.closed_nodes().len() <= key_space(),
        a.start_cells() == start,
{
    reveal(search_invariant);
    assert(open_node_fits(a.stored_nodes(), a.closed_nodes(), a.best_costs(), a.open_nodes()[i]));
}

/// The invariant speaks only of the parts of the state.
proof fn lemma_invariant_same_parts(a0: AStar, a1: AStar, start: Seq<u8>)
    requires
        search_invariant(a0, start),
        a1.open_nodes() == a0.open_nodes(),
        a1.closed_nodes() == a0.closed_nodes(),
        a1.stored_nodes() == a0.stored_nodes(),
        a1.best_costs() == a0.best_costs(),
        a1.positions() == a0.positions(),
    ensures
        search_invariant(a1, start),
{
    reveal(AStar::wf);
    reveal(search_invariant);
}

/// What the loop reads off the invariant.
proof fn lemma_invariant_facts(a: AStar, start: Seq<u8>)
    requires
        search_invariant(a, start),
    ensures
        a.wf(),
        a.closed_nodes().len() <= key_space(),
{
    reveal(search_invariant);
}

/// What the expansion reads off its invariant.
proof fn lemma_expanding_facts(a: AStar, start: Seq<u8>, c: AStarNode)
    requires
        expanding(a, start, c),
    ensures
        a.wf(),
        cells_below_nine(c.cells()),
        c.cells().contains(0),
        1 <= a.closed_nodes().len() <= key_space(),
        c.g() < a.closed_nodes().len(),
        a.closed_nodes().contains_key(node_key(c)),
        a.closed_nodes()[node_key(c)] == c,
        closed_ok(a.closed_nodes(), a.best_costs()),
        closed_shortest(a.closed_nodes(), start),
        a.start_cells() == start,
        exists|j: int|
            0 <= j < a.stored_nodes().len() && #[trigger] a.stored_nodes()[j].cells() == c.cells(),
{
    reveal(expanding);
    let cl = a.closed_nodes();
    assert(cl.dom().contains(node_key(c)));
    assert(cl.dom().len() >= 1) by {
        if cl.dom().len() == 0 {
            assert(cl.dom() =~= Set::<u32>::empty());
        }
    }
}

/// A node linked to a tree stays linked when the store grows at its end and
/// the closed set gains new boards.
proof fn lemma_linked_grow(
    s0: Seq<AStarNode>,
    c0: Map<u32, AStarNode>,
    s1: Seq<AStarNode>,
    c1: Map<u32, AStarNode>,
    n: AStarNode,
)
    requires
        linked(s0, c0, n),
        s0.len() >= 1,
        s0.len() <= s1.len(),
        forall|j: int| 0 <= j < s0.len() ==> #[trigger] s1[j] == s0[j],
        forall|k: u32| #[trigger] c0.contains_key(k) ==> c1.contains_key(k) && c1[k] == c0[k],
    ensures
        linked(s1, c1, n),
{
    assert(s1[0] == s0[0]);
    if let Some(p) = n.parent() {
        assert(s1[p as int] == s0[p as int]);
    }
}

// ---------------------------------------------------------------------------
// Why the node taken from the open set has the shortest cost
// ---------------------------------------------------------------------------

/// The open node that covers a board `s2` not yet closed, reached from the
/// start in `len` moves, costs with its estimate at most `len` plus the
/// estimate at `target` plus the moves from `s2` to `target`.
proof fn lemma_frontier_open(
    o: Seq<AStarNode>,
    s: Seq<AStarNode>,
    cl: Map<u32, AStarNode>,
    g: Map<u32, u32>,
    s2: Seq<u8>,
    len: int,
    rest: Seq<u8>,
    target: Seq<u8>,
)
    requires
        open_ok(o, s, cl, g),
        costs_covered(o, cl, g),
        cells_below_nine(s2),
        g.contains_key(board_key(s2) as u32),
        g[board_key(s2) as u32] <= len,
        !cl.contains_key(board_key(s2) as u32),
        leads_to(s2, rest, target),
    ensures
        exists|m: int|
            0 <= m < o.len() && #[trigger] o[m].f() <= len + rest.len() + manhattan(
                target,
                goal_table(),
            ),
{
    let k2 = board_key(s2) as u32;
    let w = choose|w: int| 0 <= w < o.len() && node_key(#[trigger] o[w]) == k2 && o[w].g() == g[k2];
    assert(open_node_fits(s, cl, g, o[w]));
    lemma_same_key(o[w].cells(), s2);
    lemma_manhattan_admissible(s2, rest, target, goal_table());
    assert(o[w].f() <= len + rest.len() + manhattan(target, goal_table()));
}

/// Following moves from a closed board `x` (reached from the start by
/// `pre`) towards a board `target` that is not closed, one meets a board on
/// the open set whose node costs, with its estimate, at most the length of
/// the whole route plus the estimate at `target`.
proof fn lemma_frontier(
    o: Seq<AStarNode>,
    s: Seq<AStarNode>,
    cl: Map<u32, AStarNode>,
    g: Map<u32, u32>,
    start: Seq<u8>,
    pre: Seq<u8>,
    x: Seq<u8>,
    moves: Seq<u8>,
    target: Seq<u8>,
)
    requires
        forall|k: u32| #[trigger]
            cl.contains_key(k) ==> cells_below_nine(cl[k].cells()) && node_key(cl[k]) == k,
        open_ok(o, s, cl, g),
        costs_covered(o, cl, g),
        closed_shortest(cl, start),
        expanded_except(cl, g, None),
        cells_below_nine(x),
        cl.contains_key(board_key(x) as u32),
        leads_to(start, pre, x),
        leads_to(x, moves, target),
        !cl.contains_key(board_key(target) as u32),
    ensures
        exists|m: int|
            0 <= m < o.len() && #[trigger] o[m].f() <= pre.len() + moves.len() + manhattan(
                target,
                goal_table(),
            ),
    decreases moves.len(),
{
    let kx = board_key(x) as u32;
    lemma_same_key(cl[kx].cells(), x);
    if moves.len() == 0 {
        assert(x == target);
    } else {
        let s2 = choose|s2: Seq<u8>|
            #[trigger] step_to(x, moves[0], s2) && leads_to(s2, moves.drop_first(), target);
        let (e, q) = choose|e: int, q: int|
            #![trigger slide(x, e, q)]
            is_first_blank(x, e) && neighbours(e).contains(q) && x[q] == moves[0] && s2 == slide(x, e, q);
        lemma_neighbours_on_board(e);
        lemma_slide_cells(x, e, q);
        assert(cl[kx].g() <= pre.len());
        assert(neighbours_within(g, x, cl[kx].g() + 1));
        let k2 = board_key(s2) as u32;
        assert(g.contains_key(k2) && g[k2] <= pre.len() + 1);
        lemma_leads_to_push(start, pre, x, moves[0], s2);
        if cl.contains_key(k2) {
            lemma_frontier(o, s, cl, g, start, pre.push(moves[0]), s2, moves.drop_first(), target);
        } else {
            lemma_frontier_open(o, s, cl, g, s2, pre.len() + 1int, moves.drop_first(), target);
        }
    }
}

/// A live open node that no open node precedes costs no more than any
/// sequence of moves from the start to its board.
proof fn lemma_lowest_shortest(
    o: Seq<AStarNode>,
    s: Seq<AStarNode>,
    cl: Map<u32, AStarNode>,
    g: Map<u32, u32>,
    start: Seq<u8>,
    i: int,
)
    requires
        forall|k: u32| #[trigger]
            cl.contains_key(k) ==> cells_below_nine(cl[k].cells()) && node_key(cl[k]) == k,
        open_ok(o, s, cl, g),
        costs_covered(o, cl, g),
        closed_shortest(cl, start),
        expanded_except(cl, g, None),
        cells_below_nine(start),
        g.contains_key(board_key(start) as u32),
        g[board_key(start) as u32] == 0,
        is_lowest(o, i),
        g[node_key(o[i])] == o[i].g(),
    ensures
        forall|moves: Seq<u8>| #[trigger] leads_to(start, moves, o[i].cells()) ==> o[i].g() <= moves.len(),
{
    let n = o[i];
    assert(open_node_fits(s, cl, g, n));
    assert forall|moves: Seq<u8>| #[trigger] leads_to(start, moves, n.cells()) implies n.g() <= moves.len() by {
        let ks = board_key(start) as u32;
        let h_n = manhattan(n.cells(), goal_table());
        let m = if cl.contains_key(ks) {
            assert(leads_to(start, Seq::<u8>::empty(), start));
            lemma_frontier(o, s, cl, g, start, Seq::<u8>::empty(), start, moves, n.cells());
            choose|m: int| 0 <= m < o.len() && #[trigger] o[m].f() <= 0 + moves.len() + h_n
        } else {
            let w = choose|w: int| 0 <= w < o.len() && node_key(#[trigger] o[w]) == ks && o[w].g() == g[ks];
            assert(open_node_fits(s, cl, g, o[w]));
            lemma_same_key(o[w].cells(), start);
            lemma_manhattan_admissible(start, moves, n.cells(), goal_table());
            w
        };
        assert(0 <= m < o.len() && o[m].f() <= moves.len() + h_n);
        assert(!precedes(o[m], n));
    }
}

/// The live open node taken first from the open set of the search state
/// `a` costs no more than any sequence of moves from the start to its board.
proof fn lemma_popped_shortest(a: AStar, start: Seq<u8>, i: int)
    requires
        search_invariant(a, start),
        is_lowest(a.open_nodes(), i),
        a.best_costs()[node_key(a.open_nodes()[i])] == a.open_nodes()[i].g(),
    ensures
        forall|moves: Seq<u8>|
            #[trigger] leads_to(start, moves, a.open_nodes()[i].cells()) ==> a.open_nodes()[i].g()
                <= moves.len(),
{
    reveal(search_invariant);
    reveal(AStar::wf);
    lemma_lowest_shortest(
        a.open_nodes(),
        a.stored_nodes(),
        a.closed_nodes(),
        a.best_costs(),
        start,
        i,
    );
}

// ---------------------------------------------------------------------------
// Closing a node
// ---------------------------------------------------------------------------

/// Closing the live open node at index `i` keeps the open set fitting.
proof fn lemma_close_open(
    o0: Seq<AStarNode>,
    s0: Seq<AStarNode>,
    c0: Map<u32, AStarNode>,
    g: Map<u32, u32>,
    i: int,
)
    requires
        open_ok(o0, s0, c0, g),
        0 <= i < o0.len(),
        !c0.contains_key(node_key(o0[i])),
        g[node_key(o0[i])] == o0[i].g(),
        s0.len() >= 1,
        c0.dom().finite(),
    ensures
        open_ok(o0.remove(i), s0, c0.insert(node_key(o0[i]), o0[i]), g),
{
    let c = o0[i];
    let ck = node_key(c);
    let c1 = c0.insert(ck, c);
    let o1 = o0.remove(i);
    assert(c1.dom() == c0.dom().insert(ck));
    assert(c1.len() == c0.len() + 1);
    assert forall|k: u32| #[trigger] c0.contains_key(k) implies c1.contains_key(k) && c1[k] == c0[k] by {}
    lemma_open_remove(o0, s0, c0, g, i);
    assert forall|j: int| 0 <= j < o1.len() implies open_node_fits(s0, c1, g, #[trigger] o1[j]) by {
        let jj = if j < i { j } else { j + 1 };
        let m = o1[j];
        assert(m == o0[jj]);
        assert(open_node_fits(s0, c0, g, m));
        lemma_linked_grow(s0, c0, s0, c1, m);
        if node_key(m) == ck {
            assert(m.g() != c.g());
        }
    }
}

/// Closing the live open node at index `i` keeps the known costs covered.
proof fn lemma_close_covered(o0: Seq<AStarNode>, c0: Map<u32, AStarNode>, g: Map<u32, u32>, i: int)
    requires
        costs_covered(o0, c0, g),
        0 <= i < o0.len(),
    ensures
        costs_covered(o0.remove(i), c0.insert(node_key(o0[i]), o0[i]), g),
{
    let ck = node_key(o0[i]);
    let c1 = c0.insert(ck, o0[i]);
    let o1 = o0.remove(i);
    assert forall|k: u32| #[trigger] g.contains_key(k) && !c1.contains_key(k) implies exists|j: int|
        0 <= j < o1.len() && node_key(#[trigger] o1[j]) == k && o1[j].g() == g[k] by {
        let w = choose|w: int| 0 <= w < o0.len() && node_key(#[trigger] o0[w]) == k && o0[w].g() == g[k];
        assert(w != i);
        let j = if w < i { w } else { w - 1 };
        assert(o1[j] == o0[w]);
    }
}

/// Closing a new board whose node fits keeps the closed set in order.
proof fn lemma_close_closed(
    s0: Seq<AStarNode>,
    c0: Map<u32, AStarNode>,
    g: Map<u32, u32>,
    c: AStarNode,
)
    requires
        closed_ok(c0, g),
        open_node_fits(s0, c0, g, c),
        g[node_key(c)] == c.g(),
        s0.len() >= 1,
        forall|k: u32| #[trigger]
            c0.contains_key(k) ==> {
                let n = c0[k];
                &&& cells_below_nine(n.cells())
                &&& node_key(n) == k
                &&& linked(s0, c0, n)
            },
    ensures
        closed_ok(c0.insert(node_key(c), c), g),
        c0.insert(node_key(c), c).len() == c0.len() + 1,
        forall|k: u32| #[trigger]
            c0.insert(node_key(c), c).contains_key(k) ==> {
                let n = c0.insert(node_key(c), c)[k];
                &&& cells_below_nine(n.cells())
                &&& node_key(n) == k
                &&& linked(s0, c0.insert(node_key(c), c), n)
            },
{
    let ck = node_key(c);
    let c1 = c0.insert(ck, c);
    assert(!c0.contains_key(ck));
    assert(c1.dom() == c0.dom().insert(ck));
    assert(c1.len() == c0.len() + 1);
    assert forall|k: u32| #[trigger] c0.contains_key(k) implies c1.contains_key(k) && c1[k] == c0[k] by {}
    assert forall|k: u32| #[trigger] c1.contains_key(k) implies {
        let n = c1[k];
        &&& cells_below_nine(n.cells())
        &&& node_key(n) == k
        &&& linked(s0, c1, n)
    } by {
        if k == ck {
            lemma_linked_grow(s0, c0, s0, c1, c);
        } else {
            lemma_linked_grow(s0, c0, s0, c1, c0[k]);
        }
    }
    assert forall|k: u32| #[trigger] c1.contains_key(k) implies {
        &&& c1[k].g() < c1.len()
        &&& c1[k].cells().contains(0)
        &&& g.contains_key(k)
        &&& g[k] == c1[k].g()
    } by {
        if k != ck {
            assert(c0.contains_key(k));
        }
    }
}

/// Closing the live open node at index `i` keeps the state well formed.
proof fn lemma_close_wf(a0: AStar, a1: AStar, i: int)
    requires
        a0.wf(),
        closed_ok(a0.closed_nodes(), a0.best_costs()),
        0 <= i < a0.open_nodes().len(),
        open_node_fits(a0.stored_nodes(), a0.closed_nodes(), a0.best_costs(), a0.open_nodes()[i]),
        a0.best_costs()[node_key(a0.open_nodes()[i])] == a0.open_nodes()[i].g(),
        a1.open_nodes().to_multiset() == a0.open_nodes().remove(i).to_multiset(),
        is_heap(a1.open_nodes()),
        a1.closed_nodes() == a0.closed_nodes().insert(
            node_key(a0.open_nodes()[i]),
            a0.open_nodes()[i],
        ),
        a1.stored_nodes() == a0.stored_nodes(),
        a1.best_costs() == a0.best_costs(),
        a1.positions() == a0.positions(),
    ensures
        a1.wf(),
        closed_ok(a1.closed_nodes(), a1.best_costs()),
        a1.closed_nodes().len() == a0.closed_nodes().len() + 1,
        a1.closed_nodes().len() <= key_space(),
{
    reveal(AStar::wf);
    let o0 = a0.open_nodes();
    let o1 = a1.open_nodes();
    let c = o0[i];
    lemma_close_closed(a0.stored_nodes(), a0.closed_nodes(), a0.best_costs(), c);
    let r = o0.remove(i);
    assert forall|j: int| 0 <= j < r.len() implies cells_below_nine(#[trigger] r[j].cells()) by {
        let jj = if j < i { j } else { j + 1 };
        assert(r[j] == o0[jj]);
    }
    lemma_open_rearranged(r, o1, a1.stored_nodes(), a1.closed_nodes(), a1.best_costs());
    assert(a1.wf());
    a1.lemma_closed_count();
}

/// A closed set stays shortest when a node that is shortest joins it.
proof fn lemma_close_shortest(c0: Map<u32, AStarNode>, start: Seq<u8>, c: AStarNode)
    requires
        closed_shortest(c0, start),
        !c0.contains_key(node_key(c)),
        forall|moves: Seq<u8>| #[trigger] leads_to(start, moves, c.cells()) ==> c.g() <= moves.len(),
    ensures
        closed_shortest(c0.insert(node_key(c), c), start),
{
    let c1 = c0.insert(node_key(c), c);
    assert forall|k: u32, moves: Seq<u8>|
        #![trigger c1.contains_key(k), leads_to(start, moves, c1[k].cells())]
        c1.contains_key(k) && leads_to(start, moves, c1[k].cells()) implies c1[k].g() <= moves.len() by {
        if k != node_key(c) {
            assert(c0.contains_key(k));
        }
    }
}

/// Closing the live open node `c` (at index `i`) keeps every invariant but
/// the expansion of `c` itself.
proof fn lemma_close(a0: AStar, a1: AStar, start: Seq<u8>, i: int)
    requires
        search_invariant(a0, start),
        is_lowest(a0.open_nodes(), i),
        a0.best_costs()[node_key(a0.open_nodes()[i])] == a0.open_nodes()[i].g(),
        a1.open_nodes().to_multiset() == a0.open_nodes().remove(i).to_multiset(),
        is_heap(a1.open_nodes()),
        a1.closed_nodes() == a0.closed_nodes().insert(
            node_key(a0.open_nodes()[i]),
            a0.open_nodes()[i],
        ),
        a1.stored_nodes() == a0.stored_nodes(),
        a1.best_costs() == a0.best_costs(),
        a1.positions() == a0.positions(),
    ensures
        a1.wf(),
        a1.start_cells() == start,
        closed_shortest(a1.closed_nodes(), start),
        !a0.closed_nodes().contains_key(node_key(a0.open_nodes()[i])),
        a1.closed_nodes().len() == a0.closed_nodes().len() + 1,
        a1.stored_nodes().len() <= 1 + 4 * (a1.closed_nodes().len() - 1),
        a0.open_nodes()[i].cells() != goal_cells() ==> expanding(a1, start, a0.open_nodes()[i]),
{
    lemma_popped_shortest(a0, start, i);
    reveal(search_invariant);
    let o0 = a0.open_nodes();
    let s0 = a0.stored_nodes();
    let c0 = a0.closed_nodes();
    let c1 = a1.closed_nodes();
    let g = a0.best_costs();
    let c = o0[i];
    let ck = node_key(c);
    assert(open_node_fits(s0, c0, g, c));
    lemma_close_wf(a0, a1, i);
    lemma_close_open(o0, s0, c0, g, i);
    lemma_close_covered(o0, c0, g, i);
    lemma_open_rearranged(o0.remove(i), a1.open_nodes(), s0, c1, g);
    lemma_close_shortest(c0, start, c);
    if c.cells() != goal_cells() {
        reveal(expanding);
        let gk = board_key(goal_cells()) as u32;
        assert(cells_below_nine(goal_cells()));
        if ck == gk {
            lemma_same_key(c.cells(), goal_cells());
        }
        assert(!c1.contains_key(gk));
        assert(expanded_except(c1, g, Some(ck))) by {
            assert forall|k: u32| #[trigger] c1.contains_key(k) && Some(ck) != Some(k) implies neighbours_within(g, c1[k].cells(), c1[k].g() + 1) by {
                assert(c0.contains_key(k));
            }
        }
        assert(search_core(a1, start));
    }
}

// ---------------------------------------------------------------------------
// Expanding a node
// ---------------------------------------------------------------------------

/// Lowering or adding one best cost keeps a neighbourhood bound.
proof fn lemma_within_lowered(g0: Map<u32, u32>, g1: Map<u32, u32>, b: Seq<u8>, bound: int)
    requires
        neighbours_within(g0, b, bound),
        forall|k: u32| #[trigger] g0.contains_key(k) ==> g1.contains_key(k) && g1[k] <= g0[k],
    ensures
        neighbours_within(g1, b, bound),
{
    assert forall|e: int, q: int| is_first_blank(b, e) && neighbours(e).contains(q) implies {
        &&& g1.contains_key(board_key(#[trigger] slide(b, e, q)) as u32)
        &&& g1[board_key(slide(b, e, q)) as u32] <= bound
    } by {
        assert(g0.contains_key(board_key(slide(b, e, q)) as u32));
    }
}

/// Recording a better path to a neighbour `nb` of the node `c` under
/// expansion keeps the expansion invariant.
proof fn lemma_add(
    a0: AStar,
    a1: AStar,
    start: Seq<u8>,
    c: AStarNode,
    e: int,
    q: int,
    nb: Seq<u8>,
    g_new: u32,
    mv: u8,
)
    requires
        expanding(a0, start, c),
        is_first_blank(c.cells(), e),
        neighbours(e).contains(q),
        nb == slide(c.cells(), e, q),
        !a0.closed_nodes().contains_key(board_key(nb) as u32),
        a0.best_costs().contains_key(board_key(nb) as u32) ==> g_new < a0.best_costs()[board_key(
            nb,
        ) as u32],
        g_new == c.g() + 1,
        mv == c.cells()[q],
        a1.wf(),
        a1.stored_nodes().len() == a0.stored_nodes().len() + 1,
        a1.stored_nodes().drop_last() == a0.stored_nodes(),
        a1.open_nodes().to_multiset() == a0.open_nodes().push(a1.stored_nodes().last()).to_multiset(),
        a1.stored_nodes().last().cells() == nb,
        a1.stored_nodes().last().g() == g_new,
        a1.stored_nodes().last().h() == manhattan(nb, goal_table()),
        a1.stored_nodes().last().f() == g_new + manhattan(nb, goal_table()),
        a1.stored_nodes().last().moved_tile() == mv,
        a1.stored_nodes().last().parent() matches Some(p) && is_first_with_cells(
            a0.stored_nodes(),
            c.cells(),
            p as int,
        ),
        a1.best_costs() == a0.best_costs().insert(board_key(nb) as u32, g_new),
        a1.closed_nodes() == a0.closed_nodes(),
        a1.positions() == a0.positions(),
    ensures
        expanding(a1, start, c),
        a1.best_costs().contains_key(board_key(nb) as u32),
        a1.best_costs()[board_key(nb) as u32] == g_new,
        forall|k: u32| #[trigger]
            a0.best_costs().contains_key(k) ==> a1.best_costs().contains_key(k)
                && a1.best_costs()[k] <= a0.best_costs()[k],
{
    reveal(expanding);
    let o0 = a0.open_nodes();
    let s0 = a0.stored_nodes();
    let s1 = a1.stored_nodes();
    let cl = a0.closed_nodes();
    let g0 = a0.best_costs();
    let g1 = a1.best_costs();
    let kn = board_key(nb) as u32;
    let ck = node_key(c);
    let cb = c.cells();
    let n = s1.last();
    let o1 = o0.push(n);
    assert forall|j: int| 0 <= j < s0.len() implies #[trigger] s1[j] == s0[j] by {
        assert(s1.drop_last()[j] == s1[j]);
    }
    assert forall|k: u32| #[trigger] g0.contains_key(k) implies g1.contains_key(k) && g1[k] <= g0[k] by {}
    lemma_neighbours_on_board(e);
    lemma_slide_cells(cb, e, q);
    // the new node
    let p = n.parent()->0;
    assert(s0[p as int].cells() == cb);
    assert(node_key(s0[p as int]) == ck);
    assert(mv != 0) by {
        if mv == 0 {
            assert(nb == cb);
        }
    }
    assert(step_to(cb, mv, nb)) by {
        assert(is_first_blank(cb, e) && neighbours(e).contains(q) && cb[q] == mv && nb == slide(cb, e, q));
    }
    assert(linked(s1, cl, n)) by {
        assert(s1[p as int] == s0[p as int]);
    }
    assert(s1[s1.len() - 1].cells() == n.cells());
    assert(open_node_fits(s1, cl, g1, n));
    // the old open nodes
    assert forall|j: int| 0 <= j < o1.len() implies open_node_fits(s1, cl, g1, #[trigger] o1[j]) by {
        if j < o0.len() {
            let m = o1[j];
            assert(m == o0[j]);
            assert(open_node_fits(s0, cl, g0, m));
            lemma_linked_grow(s0, cl, s1, cl, m);
            let w = choose|w: int| 0 <= w < s0.len() && #[trigger] s0[w].cells() == m.cells();
            assert(s1[w].cells() == m.cells());
        } else {
            assert(o1[j] == n);
        }
    }
    assert forall|x: int, y: int|
        0 <= x < o1.len() && 0 <= y < o1.len() && x != y && node_key(#[trigger] o1[x]) == node_key(
            #[trigger] o1[y],
        ) implies o1[x].g() != o1[y].g() by {
        if x < o0.len() && y < o0.len() {
            assert(o1[x] == o0[x] && o1[y] == o0[y]);
        } else if x < o0.len() {
            assert(o1[x] == o0[x]);
            assert(open_node_fits(s0, cl, g0, o0[x]));
        } else {
            assert(o1[y] == o0[y]);
            assert(open_node_fits(s0, cl, g0, o0[y]));
        }
    }
    assert(open_ok(o1, s1, cl, g1));
    assert forall|k: u32| #[trigger] g1.contains_key(k) && !cl.contains_key(k) implies exists|j: int|
        0 <= j < o1.len() && node_key(#[trigger] o1[j]) == k && o1[j].g() == g1[k] by {
        if k == kn {
            assert(o1[o1.len() - 1] == n);
        } else {
            let w = choose|w: int| 0 <= w < o0.len() && node_key(#[trigger] o0[w]) == k && o0[w].g() == g0[k];
            assert(o1[w] == o0[w]);
        }
    }
    assert(closed_ok(cl, g1)) by {
        assert forall|k: u32| #[trigger] cl.contains_key(k) implies {
            &&& cl[k].g() < cl.len()
            &&& cl[k].cells().contains(0)
            &&& g1.contains_key(k)
            &&& g1[k] == cl[k].g()
        } by {
            assert(k != kn);
        }
    }
    assert(a1.start_cells() == start) by {
        assert(s1[0] == s0[0]);
    }
    assert(g1[board_key(start) as u32] == 0);
    assert(expanded_except(cl, g1, Some(ck))) by {
        assert forall|k: u32| #[trigger] cl.contains_key(k) && Some(ck) != Some(k) implies neighbours_within(g1, cl[k].cells(), cl[k].g() + 1) by {
            lemma_within_lowered(g0, g1, cl[k].cells(), cl[k].g() + 1);
        }
    }
    lemma_open_rearranged(o1, a1.open_nodes(), s1, cl, g1);
    assert(search_core(a1, start));
    let w = choose|w: int| 0 <= w < s0.len() && #[trigger] s0[w].cells() == cb;
    assert(s1[w].cells() == cb);
}

/// A closed neighbour of the node `c` under expansion costs at most one
/// more than `c`.
proof fn lemma_closed_neighbour(a: AStar, start: Seq<u8>, c: AStarNode, e: int, q: int)
    requires
        expanding(a, start, c),
        is_first_blank(c.cells(), e),
        neighbours(e).contains(q),
        a.closed_nodes().contains_key(board_key(slide(c.cells(), e, q)) as u32),
    ensures
        a.best_costs().contains_key(board_key(slide(c.cells(), e, q)) as u32),
        a.best_costs()[board_key(slide(c.cells(), e, q)) as u32] <= c.g() + 1,
{
    lemma_expanding_facts(a, start, c);
    let cb = c.cells();
    let nb = slide(cb, e, q);
    let kn = board_key(nb) as u32;
    let cl = a.closed_nodes();
    lemma_neighbours_on_board(e);
    lemma_slide_cells(cb, e, q);
    a.lemma_closed_cells(cb);
    a.lemma_closed_cells(nb);
    a.lemma_path_back_leads_to(cb);
    a.lemma_path_back_len(cb);
    assert(step_to(cb, cb[q], nb)) by {
        assert(is_first_blank(cb, e) && neighbours(e).contains(q) && cb[q] == cb[q] && nb == slide(cb, e, q));
    }
    lemma_leads_to_push(start, a.path_back(cb), cb, cb[q], nb);
    let route = a.path_back(cb).push(cb[q]);
    assert(leads_to(start, route, cl[kn].cells()));
    assert(cl[kn].g() <= route.len());
}

/// Once every neighbour of the node under expansion has a known cost of at
/// most one more, the search invariant holds again (up to the size of the
/// store).
proof fn lemma_expanded(a: AStar, start: Seq<u8>, c: AStarNode, e: int, moves: Seq<int>)
    requires
        expanding(a, start, c),
        is_first_blank(c.cells(), e),
        moves == neighbours(e),
        forall|t: int|
            0 <= t < moves.len() ==> {
                &&& a.best_costs().contains_key(
                    board_key(slide(c.cells(), e, #[trigger] moves[t])) as u32,
                )
                &&& a.best_costs()[board_key(slide(c.cells(), e, moves[t])) as u32] <= c.g() + 1
            },
    ensures
        search_core(a, start),
        expanded_except(a.closed_nodes(), a.best_costs(), None),
{
    reveal(expanding);
    let g = a.best_costs();
    let cb = c.cells();
    assert(neighbours_within(g, cb, c.g() + 1)) by {
        assert forall|e2: int, q: int| is_first_blank(cb, e2) && neighbours(e2).contains(q) implies {
            &&& g.contains_key(board_key(#[trigger] slide(cb, e2, q)) as u32)
            &&& g[board_key(slide(cb, e2, q)) as u32] <= c.g() + 1
        } by {
            assert(e2 == e);
            let t = choose|t: int| 0 <= t < moves.len() && moves[t] == q;
            assert(g.contains_key(board_key(slide(cb, e, moves[t])) as u32));
        }
    }
}

/// When every known board is closed and every closed board is expanded,
/// moves from a closed board only reach closed boards.
proof fn lemma_reach_closed(
    closed: Map<u32, AStarNode>,
    costs: Map<u32, u32>,
    s: Seq<u8>,
    moves: Seq<u8>,
    t: Seq<u8>,
)
    requires
        forall|k: u32| #[trigger]
            closed.contains_key(k) ==> cells_below_nine(closed[k].cells()) && node_key(closed[k])
                == k,
        expanded_except(closed, costs, None),
        forall|k: u32| #[trigger] costs.contains_key(k) ==> closed.contains_key(k),
        cells_below_nine(s),
        closed.contains_key(board_key(s) as u32),
        leads_to(s, moves, t),
    ensures
        cells_below_nine(t),
        closed.contains_key(board_key(t) as u32),
    decreases moves.len(),
{
    if moves.len() > 0 {
        let s2 = choose|s2: Seq<u8>|
            #[trigger] step_to(s, moves[0], s2) && leads_to(s2, moves.drop_first(), t);
        let (e, q) = choose|e: int, q: int|
            #![trigger slide(s, e, q)]
            is_first_blank(s, e) && neighbours(e).contains(q) && s[q] == moves[0] && s2 == slide(s, e, q);
        let k = board_key(s) as u32;
        lemma_same_key(closed[k].cells(), s);
        assert(neighbours_within(costs, s, closed[k].g() + 1));
        lemma_neighbours_on_board(e);
        lemma_slide_cells(s, e, q);
        lemma_reach_closed(closed, costs, s2, moves.drop_first(), t);
    }
}

/// With the open set empty, no sequence of moves leads from the start to
/// the goal.
proof fn lemma_exhausted(a: AStar, start: Seq<u8>)
    requires
        search_invariant(a, start),
        a.open_nodes().len() == 0,
    ensures
        forall|moves: Seq<u8>| !#[trigger] leads_to(start, moves, goal_cells()),
{
    reveal(AStar::wf);
    reveal(search_invariant);
    let c = a.closed_nodes();
    let g = a.best_costs();
    assert forall|k: u32| #[trigger] g.contains_key(k) implies c.contains_key(k) by {
        if !c.contains_key(k) {
            let w = choose|w: int|
                0 <= w < a.open_nodes().len() && node_key(#[trigger] a.open_nodes()[w]) == k
                    && a.open_nodes()[w].g() == g[k];
        }
    }
    assert forall|moves: Seq<u8>| !#[trigger] leads_to(start, moves, goal_cells()) by {
        if leads_to(start, moves, goal_cells()) {
            lemma_reach_closed(c, g, start, moves, goal_cells());
        }
    }
}

// ---------------------------------------------------------------------------
// The solver
// ---------------------------------------------------------------------------

/// Expands the just-closed node `current_node`: every board one move away
/// that is not closed and is reached more cheaply than before is recorded.
fn expand_node(astar: &mut AStar, current_node: AStarNode, Ghost(start): Ghost<Seq<u8>>)
    requires
        expanding(*old(astar), start, current_node),
        old(astar).stored_nodes().len() <= 1 + 4 * (old(astar).closed_nodes().len() - 1),
    ensures
        search_invariant(*final(astar), start),
        final(astar).closed_nodes() == old(astar).closed_nodes(),
{
    proof {
        lemma_expanding_facts(*astar, start, current_node);
    }
    let ghost closed_count = astar.closed_nodes().len();
    let ghost cb = current_node.cells();
    let empty_pos = current_node.board.blank_position();
    let moves = get_valid_moves(empty_pos);
    let ghost e = empty_pos as int;
    let ghost mv_ints = moves@.map_values(|m: usize| m as int);
    proof {
        lemma_neighbours_on_board(e);
        assert(moves@.len() == mv_ints.len());
    }
    let mut j: usize = 0;
    while j < moves.len()
        invariant
            expanding(*astar, start, current_node),
            astar.closed_nodes() == old(astar).closed_nodes(),
            cb == current_node.cells(),
            cells_below_nine(cb),
            is_first_blank(cb, e),
            e == empty_pos,
            0 <= e < 9,
            mv_ints == moves@.map_values(|m: usize| m as int),
            mv_ints == neighbours(e),
            moves@.len() <= 4,
            forall|q: int| #[trigger] neighbours(e).contains(q) ==> 0 <= q < 9 && q != e,
            0 <= j <= moves@.len(),
            forall|t: int|
                0 <= t < j ==> {
                    &&& astar.best_costs().contains_key(
                        board_key(slide(cb, e, #[trigger] mv_ints[t])) as u32,
                    )
                    &&& astar.best_costs()[board_key(slide(cb, e, mv_ints[t])) as u32]
                        <= current_node.g() + 1
                },
            astar.closed_nodes().len() == closed_count,
            1 <= closed_count <= key_space(),
            current_node.g() < closed_count,
            astar.stored_nodes().len() <= 1 + 4 * (closed_count - 1) + j,
        decreases moves@.len() - j,
    {
        let num_pos = moves[j];
        let ghost q = num_pos as int;
        proof {
            assert(mv_ints[j as int] == q);
            assert(neighbours(e).contains(q));
            lemma_slide_cells(cb, e, q);
            lemma_expanding_facts(*astar, start, current_node);
        }
        let next = current_node.board.swapped(empty_pos, num_pos);
        let nk = next.key();
        if !astar.closed_list.contains_key(&nk) {
            let g_cost = current_node.g_cost + 1;
            let better = match astar.g_scores.get(&nk) {
                Some(g) => g_cost < *g,
                None => true,
            };
            if better {
                let move_number = next.tile(empty_pos);
                let ghost b0 = *astar;
                proof {
                    lemma_manhattan_upto_bound(next@, goal_table(), 9);
                }
                astar.add_node(next, g_cost, current_node.board, move_number);
                proof {
                    lemma_add(b0, *astar, start, current_node, e, q, next@, g_cost, move_number);
                }
            }
        } else {
            proof {
                lemma_closed_neighbour(*astar, start, current_node, e, q);
            }
        }
        j = j + 1;
    }
    proof {
        lemma_expanded(*astar, start, current_node, e, mv_ints);
        reveal(search_invariant);
    }
}

/// Solves the puzzle from `start` by A* search with the Manhattan distance
/// as estimate. Returns the tiles to slide into the blank, in order, or
/// `None` when no sequence of moves reaches `1 2 3 / 4 5 6 / 7 8 _`.
pub fn solve_astar(start: Board) -> (result: Option<Vec<u8>>)
    requires
        cells_below_nine(start@),
        start@.contains(0),
    ensures
        match result {
            Some(path) => leads_to(start@, path@, goal_cells()),
            None => forall|moves: Seq<u8>| !#[trigger] leads_to(start@, moves, goal_cells()),
        },
        start@ == goal_cells() ==> (result matches Some(path) && path@.len() == 0),
        result matches Some(path) ==> forall|moves: Seq<u8>|
            #[trigger] leads_to(start@, moves, goal_cells()) ==> path@.len() <= moves.len(),
        result matches Some(path) ==> manhattan(start@, goal_table()) <= path@.len(),
        is_tile_permutation(start@) ==> (result is Some <==> even_inversions(start@)),
{
    let goal: Board = Board::from_array([1, 2, 3, 4, 5, 6, 7, 8, 0]);
    proof {
        assert(goal@ =~= goal_cells());
    }
    if start == goal {
        let path: Vec<u8> = Vec::new();
        proof {
            lemma_goal_distance_zero();
            lemma_goal_even();
        }
        return Some(path);
    }
    let mut astar = AStar::new(start);
    proof {
        lemma_start(astar, start@);
    }
    loop
        invariant
            search_invariant(astar, start@),
            cells_below_nine(start@),
            start@ != goal_cells(),
            goal@ == goal_cells(),
        decreases key_space() - astar.closed_nodes().len(), astar.open_nodes().len(),
    {
        proof {
            lemma_invariant_facts(astar, start@);
        }
        let ghost a0 = astar;
        let popped = astar.find_lowest_f_cost();
        let current_node = match popped {
            None => {
                proof {
                    lemma_invariant_same_parts(a0, astar, start@);
                    lemma_exhausted(astar, start@);
                    if is_tile_permutation(start@) && even_inversions(start@) {
                        lemma_even_parity_solvable(start@);
                    }
                }
                return None;
            },
            Some(n) => n,
        };
        let ghost i: int = 0;
        proof {
            lemma_open_node_facts(a0, start@, i);
            lemma_wf_heap(astar);
        }
        let ck = current_node.board.key();
        let stale = match astar.g_scores.get(&ck) {
            Some(g) => *g < current_node.g_cost,
            None => false,
        };
        if stale {
            proof {
                lemma_drop_stale(a0, astar, start@, i);
            }
            continue ;
        }
        if current_node.board == goal {
            astar.closed_list.insert(ck, current_node);
            proof {
                lemma_close(a0, astar, start@, i);
            }
            let path = astar.reconstruct_path(goal);
            proof {
                astar.lemma_path_back_len(goal@);
                astar.lemma_closed_cells(goal@);
                let kg = board_key(goal@) as u32;
                assert forall|moves: Seq<u8>| #[trigger] leads_to(start@, moves, goal_cells()) implies path@.len() <= moves.len() by {
                    assert(astar.closed_nodes().contains_key(kg));
                    assert(leads_to(start@, moves, astar.closed_nodes()[kg].cells()));
                }
                lemma_manhattan_admissible(start@, path@, goal_cells(), goal_table());
                lemma_goal_distance_zero();
                if is_tile_permutation(start@) && !even_inversions(start@) {
                    lemma_odd_parity_unsolvable(start@);
                }
            }
            return Some(path);
        }
        astar.closed_list.insert(ck, current_node);
        proof {
            lemma_close(a0, astar, start@, i);
        }
        expand_node(&mut astar, current_node, Ghost(start@));
        proof {
            lemma_invariant_facts(astar, start@);
        }
    }
}

} // verus!
