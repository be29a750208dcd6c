//! The pathfinder: best-first search from the snake's head toward a food
//! cell, cost one per step plus a Manhattan-distance heuristic, over the
//! four grid neighbours of each cell, with every snake body cell treated
//! as an obstacle.

use crate::area::{cell_index, lemma_index_bounds, lemma_index_injective};
use crate::model::{in_bounds, manhattan, move_dest, occupied, Board, Coord, Move};
use vstd::prelude::*;

verus! {

/// One search step: a unit move onto an on-board cell free of snake bodies.
pub open spec fn free_step(b: Board, from: Coord, to: Coord) -> bool {
    exists|m: Move| to == #[trigger] move_dest(m, from) && in_bounds(b, to) && !occupied(b, to)
}

/// A walk of free steps beginning at `start`.
pub open spec fn walk_ok(b: Board, start: Coord, p: Seq<Coord>) -> bool {
    &&& p.len() >= 1
    &&& p[0] == start
    &&& forall|i: int| 0 <= i < p.len() - 1 ==> free_step(b, p[i], #[trigger] p[i + 1])
}

/// Whether some walk of free steps leads from `start` to `goal`.
pub open spec fn goal_reachable(b: Board, start: Coord, goal: Coord) -> bool {
    exists|p: Seq<Coord>| #[trigger] walk_ok(b, start, p) && p.last() == goal
}

/// What the pathfinder promises of a returned path: it runs from `start`
/// to `goal` inclusive, every cell is on the board, every cell after the
/// first is free of snake bodies, and consecutive cells are one grid step
/// apart.
pub open spec fn path_valid(b: Board, start: Coord, goal: Coord, p: Seq<Coord>) -> bool {
    &&& p.len() >= 2
    &&& p[0] == start
    &&& p.last() == goal
    &&& forall|i: int| 0 <= i < p.len() ==> in_bounds(b, #[trigger] p[i])
    &&& forall|i: int| 1 <= i < p.len() ==> !occupied(b, #[trigger] p[i])
    &&& forall|i: int| 0 <= i < p.len() - 1 ==> free_step(b, p[i], #[trigger] p[i + 1])
}

/// Search bookkeeping for one board cell: not reached yet, or reached from
/// a parent cell at a given depth.
#[derive(Clone, Copy, PartialEq, Eq, Debug, Structural)]
pub enum Visit {
    Unseen,
    Seen { parent: Coord, depth: usize },
}

/// Whether the search has reached cell `c`.
pub open spec fn seen_at(b: Board, s: Seq<Visit>, c: Coord) -> bool {
    in_bounds(b, c) && !(s[cell_index(b, c)] is Unseen)
}

/// The recorded depth of a reached cell.
pub open spec fn depth_at(b: Board, s: Seq<Visit>, c: Coord) -> int {
    match s[cell_index(b, c)] {
        Visit::Seen { parent, depth } => depth as int,
        Visit::Unseen => -1,
    }
}

/// The recorded parent of a reached cell.
pub open spec fn parent_at(b: Board, s: Seq<Visit>, c: Coord) -> Coord {
    match s[cell_index(b, c)] {
        Visit::Seen { parent, depth } => parent,
        Visit::Unseen => c,
    }
}

/// What holds of one reached cell: the start sits at depth zero; any other
/// reached cell is free of snake bodies and one free step from its parent,
/// which was reached one level earlier.
pub open spec fn node_ok(b: Board, s: Seq<Visit>, start: Coord, c: Coord) -> bool {
    if c == start {
        depth_at(b, s, c) == 0
    } else {
        &&& depth_at(b, s, c) >= 1
        &&& !occupied(b, c)
        &&& seen_at(b, s, parent_at(b, s, c))
        &&& depth_at(b, s, parent_at(b, s, c)) == depth_at(b, s, c) - 1
        &&& free_step(b, parent_at(b, s, c), c)
    }
}

/// The search records form a well-founded forest rooted at `start`.
pub open spec fn nodes_inv(b: Board, s: Seq<Visit>, start: Coord) -> bool {
    &&& s.len() == b.width * b.height
    &&& forall|c: Coord| #[trigger] seen_at(b, s, c) ==> node_ok(b, s, start, c)
}

/// Number of reached cells in the bookkeeping vector.
spec fn count_seen(s: Seq<Visit>) -> int
    decreases s.len(),
{
    if s.len() == 0 {
        0
    } else {
        count_seen(s.drop_last()) + if s.last() is Unseen {
            0int
        } else {
            1int
        }
    }
}

proof fn lemma_count_seen_bounds(s: Seq<Visit>)
    ensures
        0 <= count_seen(s) <= s.len(),
    decreases s.len(),
{
    if s.len() > 0 {
        lemma_count_seen_bounds(s.drop_last());
    }
}

proof fn lemma_count_seen_update(s: Seq<Visit>, i: int, v: Visit)
    requires
        0 <= i < s.len(),
        s[i] is Unseen,
        !(v is Unseen),
    ensures
        count_seen(s.update(i, v)) == count_seen(s) + 1,
    decreases s.len(),
{
    let t = s.update(i, v);
    if i == s.len() - 1 {
        assert(t.drop_last() =~= s.drop_last());
    } else {
        assert(t.drop_last() =~= s.drop_last().update(i, v));
        lemma_count_seen_update(s.drop_last(), i, v);
    }
}

proof fn lemma_count_all_unseen(s: Seq<Visit>)
    requires
        forall|k: int| 0 <= k < s.len() ==> s[k] is Unseen,
    ensures
        count_seen(s) == 0,
    decreases s.len(),
{
    if s.len() > 0 {
        lemma_count_all_unseen(s.drop_last());
    }
}

/// Depth records stay below the number of reached cells, which rules out
/// arithmetic overflow when a child is recorded.
spec fn depths_bounded(b: Board, s: Seq<Visit>) -> bool {
    forall|c: Coord| #[trigger] seen_at(b, s, c) ==> depth_at(b, s, c) < count_seen(s)
}

proof fn lemma_walk_in_seen(b: Board, s: Seq<Visit>, start: Coord, p: Seq<Coord>, i: int)
    requires
        seen_at(b, s, start),
        forall|c: Coord, nb: Coord|
            seen_at(b, s, c) && #[trigger] free_step(b, c, nb) ==> seen_at(b, s, nb),
        walk_ok(b, start, p),
        0 <= i < p.len(),
    ensures
        seen_at(b, s, p[i]),
    decreases i,
{
    if i > 0 {
        let j = i - 1;
        lemma_walk_in_seen(b, s, start, p, j);
        assert(free_step(b, p[j], p[j + 1]));
    }
}

/// If the reached set contains `start`, is closed under free steps and
/// misses `goal`, no walk of free steps joins `start` to `goal`.
proof fn lemma_unseen_unreachable(b: Board, s: Seq<Visit>, start: Coord, goal: Coord)
    requires
        seen_at(b, s, start),
        forall|c: Coord, nb: Coord|
            seen_at(b, s, c) && #[trigger] free_step(b, c, nb) ==> seen_at(b, s, nb),
        !seen_at(b, s, goal),
    ensures
        !goal_reachable(b, start, goal),
{
    if goal_reachable(b, start, goal) {
        let p = choose|p: Seq<Coord>| #[trigger] walk_ok(b, start, p) && p.last() == goal;
        lemma_walk_in_seen(b, s, start, p, p.len() - 1);
    }
}

/// Try to extend the search from `v` one move in direction `m`: when the
/// destination is on the board, free of snake bodies and not reached yet,
/// record it as reached from `v` and put it on the frontier.
#[verifier::rlimit(100)]
fn expand_dir(
    board: &Board,
    seen: &mut Vec<Visit>,
    frontier: &mut Vec<Coord>,
    v: &Coord,
    vdepth: usize,
    m: Move,
    Ghost(start): Ghost<Coord>,
)
    requires
        board.wf(),
        in_bounds(*board, *v),
        nodes_inv(*board, old(seen)@, start),
        depths_bounded(*board, old(seen)@),
        seen_at(*board, old(seen)@, start),
        seen_at(*board, old(seen)@, *v),
        depth_at(*board, old(seen)@, *v) == vdepth,
        forall|k: int|
            0 <= k < old(frontier)@.len()
                ==> seen_at(*board, old(seen)@, #[trigger] old(frontier)@[k]),
    ensures
        nodes_inv(*board, final(seen)@, start),
        depths_bounded(*board, final(seen)@),
        final(seen)@.len() == old(seen)@.len(),
        // the destination of m is reached afterwards, when it is passable
        in_bounds(*board, move_dest(m, *v)) && !occupied(*board, move_dest(m, *v)) ==> seen_at(
            *board,
            final(seen)@,
            move_dest(m, *v),
        ),
        // reached cells stay reached, with their records untouched
        forall|c: Coord| #[trigger]
            seen_at(*board, old(seen)@, c) ==> seen_at(*board, final(seen)@, c) && depth_at(
                *board,
                final(seen)@,
                c,
            ) == depth_at(*board, old(seen)@, c) && parent_at(*board, final(seen)@, c)
                == parent_at(*board, old(seen)@, c),
        // anything newly reached sits on the new frontier
        forall|c: Coord| #[trigger]
            seen_at(*board, final(seen)@, c) ==> seen_at(*board, old(seen)@, c)
                || final(frontier)@.contains(c),
        // the frontier only grows
        forall|c: Coord| old(frontier)@.contains(c) ==> final(frontier)@.contains(c),
        forall|k: int|
            0 <= k < final(frontier)@.len()
                ==> seen_at(*board, final(seen)@, #[trigger] final(frontier)@[k]),
        // one cell is reached and pushed, or nothing changes
        final(frontier)@.len() - old(frontier)@.len()
            == count_seen(final(seen)@) - count_seen(old(seen)@),
        count_seen(old(seen)@) <= count_seen(final(seen)@) <= count_seen(old(seen)@) + 1,
{
    let ghost b = *board;
    let dest = m.get_coord(v);
    if !(dest.x >= 0 && dest.x < board.width && dest.y >= 0 && dest.y < board.height) {
        return ;
    }
    if board.is_occupied(&dest) {
        return ;
    }
    proof {
        lemma_index_bounds(b.width as int, b.height as int, dest.x as int, dest.y as int);
    }
    let di = (dest.y as usize) * (board.width as usize) + (dest.x as usize);
    proof {
        assert(di == cell_index(b, dest));
    }
    let node = seen[di];
    if node == (Visit::Unseen) {
        proof {
            assert(!seen_at(b, seen@, dest));
            assert(dest != *v) by {
                if dest == *v {
                    assert(seen_at(b, seen@, dest));
                }
            }
            assert(dest != start) by {
                if dest == start {
                    assert(seen_at(b, seen@, dest));
                }
            }
            lemma_count_seen_bounds(seen@);
        }
        let ghost olds = seen@;
        let ghost oldf = frontier@;
        seen[di] = Visit::Seen { parent: *v, depth: vdepth + 1 };
        frontier.push(dest);
        proof {
            lemma_count_seen_update(olds, di as int, seen@[di as int]);
            assert forall|c: Coord| in_bounds(b, c) && c != dest implies seen@[cell_index(b, c)]
                == olds[cell_index(b, c)] by {
                lemma_index_bounds(b.width as int, b.height as int, c.x as int, c.y as int);
                if cell_index(b, c) == cell_index(b, dest) {
                    lemma_index_injective(b.width as int, c, dest);
                }
            }
            assert(seen_at(b, seen@, dest));
            assert(frontier@[frontier@.len() - 1] == dest);
            assert(frontier@.contains(dest));
            assert(free_step(b, *v, dest)) by {
                assert(move_dest(m, *v) == dest && in_bounds(b, dest) && !occupied(b, dest));
            }
            assert(node_ok(b, seen@, start, dest)) by {
                assert(parent_at(b, seen@, dest) == *v);
                assert(depth_at(b, seen@, dest) == vdepth + 1);
                assert(seen_at(b, seen@, *v) && depth_at(b, seen@, *v) == vdepth);
            }
            assert forall|c: Coord| #[trigger] seen_at(b, seen@, c) implies node_ok(
                b,
                seen@,
                start,
                c,
            ) by {
                if c != dest {
                    assert(seen_at(b, olds, c));
                    assert(node_ok(b, olds, start, c));
                    if c != start {
                        assert(seen_at(b, seen@, parent_at(b, olds, c)));
                    }
                }
            }
            assert forall|c: Coord| #[trigger] seen_at(b, seen@, c) implies depth_at(b, seen@, c)
                < count_seen(seen@) by {
                if c != dest {
                    assert(seen_at(b, olds, c));
                }
            }
            assert forall|c: Coord| oldf.contains(c) implies frontier@.contains(c) by {
                let k = choose|k: int| 0 <= k < oldf.len() && oldf[k] == c;
                assert(frontier@[k] == c);
            }
            assert forall|k: int| 0 <= k < frontier@.len() implies seen_at(
                b,
                seen@,
                #[trigger] frontier@[k],
            ) by {
                if k < oldf.len() {
                    assert(frontier@[k] == oldf[k]);
                    assert(seen_at(b, olds, oldf[k]));
                }
            }
        }
    } else {
        proof {
            assert(seen_at(b, seen@, dest));
        }
    }
}

/// Depth-so-far plus Manhattan distance to the goal for one frontier entry.
fn node_f(
    board: &Board,
    seen: &Vec<Visit>,
    frontier: &Vec<Coord>,
    k: usize,
    goal: &Coord,
) -> (r: i64)
    requires
        board.wf(),
        in_bounds(*board, *goal),
        k < frontier@.len(),
        seen@.len() == board.width * board.height,
        depths_bounded(*board, seen@),
        seen_at(*board, seen@, frontier@[k as int]),
    ensures
        r == depth_at(*board, seen@, frontier@[k as int]) + manhattan(frontier@[k as int], *goal),
{
    let c = frontier[k];
    proof {
        lemma_index_bounds(board.width as int, board.height as int, c.x as int, c.y as int);
        lemma_count_seen_bounds(seen@);
        assert(board.width + board.height <= board.width * board.height + 1) by (nonlinear_arith)
            requires
                1 <= board.width,
                1 <= board.height,
        ;
        assert(manhattan(c, *goal) <= i32::MAX);
    }
    let node = seen[(c.y as usize) * (board.width as usize) + (c.x as usize)];
    let d: usize = match node {
        Visit::Seen { depth, .. } => depth,
        Visit::Unseen => 0,
    };
    let dist = c.distance(goal);
    (d as i64) + (dist as i64)
}

impl Board {
    /// Best-first search for a route from `start` to `goal`, both on the
    /// board and distinct. Returns the cells of a route, `start` and
    /// `goal` inclusive, exactly when some sequence of moves over free
    /// cells joins them; returns nothing exactly when none does.
    #[verifier::rlimit(100)]
    pub fn find_path(&self, start: &Coord, goal: &Coord) -> (r: Option<Vec<Coord>>)
        requires
            self.wf(),
            in_bounds(*self, *start),
            in_bounds(*self, *goal),
            *start != *goal,
        ensures
            match r {
                Some(p) => path_valid(*self, *start, *goal, p@) && goal_reachable(
                    *self,
                    *start,
                    *goal,
                ),
                None => !goal_reachable(*self, *start, *goal),
            },
    {
        let ghost b = *self;
        let w = self.width as usize;
        let h = self.height as usize;
        assert(w * h == b.width * b.height) by (nonlinear_arith)
            requires
                w == b.width,
                h == b.height,
        ;
        let n = w * h;

        let mut seen: Vec<Visit> = Vec::new();
        while seen.len() < n
            invariant
                seen@.len() <= n,
                forall|k: int| 0 <= k < seen@.len() ==> seen@[k] is Unseen,
            decreases n - seen@.len(),
        {
            seen.push(Visit::Unseen);
        }
        proof {
            lemma_count_all_unseen(seen@);
            lemma_index_bounds(b.width as int, b.height as int, start.x as int, start.y as int);
        }
        let si = (start.y as usize) * w + (start.x as usize);
        proof {
            assert(si == cell_index(b, *start));
        }
        let ghost olds = seen@;
        seen[si] = Visit::Seen { parent: *start, depth: 0 };
        let mut frontier: Vec<Coord> = Vec::new();
        frontier.push(*start);
        proof {
            lemma_count_seen_update(olds, si as int, seen@[si as int]);
            assert forall|c: Coord| in_bounds(b, c) && c != *start implies seen@[cell_index(b, c)]
                == olds[cell_index(b, c)] by {
                lemma_index_bounds(b.width as int, b.height as int, c.x as int, c.y as int);
                if cell_index(b, c) == cell_index(b, *start) {
                    lemma_index_injective(b.width as int, c, *start);
                }
            }
            assert(seen_at(b, seen@, *start) && depth_at(b, seen@, *start) == 0);
            assert(frontier@[0] == *start);
            assert(frontier@.contains(*start));
            assert forall|c: Coord| #[trigger] seen_at(b, seen@, c) implies c == *start by {
                if c != *start {
                    lemma_index_bounds(b.width as int, b.height as int, c.x as int, c.y as int);
                    assert(seen@[cell_index(b, c)] == olds[cell_index(b, c)]);
                    assert(olds[cell_index(b, c)] is Unseen);
                }
            }
            assert(nodes_inv(b, seen@, *start));
            assert(depths_bounded(b, seen@));
        }

        while frontier.len() != 0
            invariant_except_break
                forall|c: Coord, nb: Coord|
                    seen_at(b, seen@, c) && !frontier@.contains(c) && #[trigger] free_step(
                        b,
                        c,
                        nb,
                    ) ==> seen_at(b, seen@, nb),
            invariant
                b == *self,
                b.wf(),
                in_bounds(b, *start),
                in_bounds(b, *goal),
                *start != *goal,
                w == b.width,
                h == b.height,
                nodes_inv(b, seen@, *start),
                depths_bounded(b, seen@),
                seen_at(b, seen@, *start),
                forall|k: int|
                    0 <= k < frontier@.len() ==> seen_at(b, seen@, #[trigger] frontier@[k]),
            ensures
                nodes_inv(b, seen@, *start),
                seen_at(b, seen@, *start),
                seen_at(b, seen@, *goal) || (frontier@.len() == 0 && forall|c: Coord, nb: Coord|
                    seen_at(b, seen@, c) && #[trigger] free_step(b, c, nb) ==> seen_at(
                        b,
                        seen@,
                        nb,
                    )),
            decreases 4 * (seen@.len() - count_seen(seen@)) + frontier@.len(),
        {
            proof {
                lemma_count_seen_bounds(seen@);
            }
            // pick the frontier entry with the least depth-plus-heuristic
            let mut best: usize = 0;
            let mut ki: usize = 1;
            let mut best_f: i64 = node_f(self, &seen, &frontier, 0, goal);
            while ki < frontier.len()
                invariant
                    b == *self,
                    b.wf(),
                    in_bounds(b, *goal),
                    w == b.width,
                    h == b.height,
                    nodes_inv(b, seen@, *start),
                    depths_bounded(b, seen@),
                    forall|k: int|
                        0 <= k < frontier@.len() ==> seen_at(b, seen@, #[trigger] frontier@[k]),
                    frontier@.len() >= 1,
                    0 <= best < frontier@.len(),
                    1 <= ki <= frontier@.len(),
                decreases frontier@.len() - ki,
            {
                let f = node_f(self, &seen, &frontier, ki, goal);
                if f < best_f {
                    best = ki;
                    best_f = f;
                }
                ki += 1;
            }

            let ghost prefront = frontier@;
            let v = frontier.remove(best);
            proof {
                assert(seen_at(b, seen@, v));
                assert forall|c: Coord| prefront.contains(c) && c != v implies frontier@.contains(
                    c,
                ) by {
                    let k = choose|k: int| 0 <= k < prefront.len() && prefront[k] == c;
                    if k < best {
                        assert(frontier@[k] == c);
                    } else if k > best {
                        assert(frontier@[k - 1] == c);
                    } else {
                        assert(c == v);
                    }
                }
                assert forall|k: int| 0 <= k < frontier@.len() implies seen_at(
                    b,
                    seen@,
                    #[trigger] frontier@[k],
                ) by {
                    if k < best {
                        assert(frontier@[k] == prefront[k]);
                    } else {
                        assert(frontier@[k] == prefront[k + 1]);
                    }
                }
            }
            if v == *goal {
                break ;
            }
            proof {
                lemma_index_bounds(b.width as int, b.height as int, v.x as int, v.y as int);
                assert((v.y as int) * (b.width as int) + (v.x as int) == cell_index(b, v));
            }
            let vnode = seen[(v.y as usize) * w + (v.x as usize)];
            proof {
                assert(!(seen@[cell_index(b, v)] is Unseen));
            }
            let vdepth: usize = match vnode {
                Visit::Seen { depth, .. } => depth,
                Visit::Unseen => 0,
            };
            proof {
                assert(vdepth == depth_at(b, seen@, v));
            }

            let ghost seen0 = seen@;
            let ghost front0 = frontier@;
            expand_dir(self, &mut seen, &mut frontier, &v, vdepth, Move::Up, Ghost(*start));
            let ghost seen1 = seen@;
            let ghost front1 = frontier@;
            expand_dir(self, &mut seen, &mut frontier, &v, vdepth, Move::Down, Ghost(*start));
            let ghost seen2 = seen@;
            let ghost front2 = frontier@;
            expand_dir(self, &mut seen, &mut frontier, &v, vdepth, Move::Left, Ghost(*start));
            let ghost seen3 = seen@;
            let ghost front3 = frontier@;
            expand_dir(self, &mut seen, &mut frontier, &v, vdepth, Move::Right, Ghost(*start));
            proof {
                // every free step out of v now lands on a reached cell
                assert forall|nb: Coord| #[trigger] free_step(b, v, nb) implies seen_at(
                    b,
                    seen@,
                    nb,
                ) by {
                    let m = choose|m: Move|
                        nb == #[trigger] move_dest(m, v) && in_bounds(b, nb) && !occupied(b, nb);
                    match m {
                        Move::Up => {
                            assert(seen_at(b, seen1, nb));
                        },
                        Move::Down => {
                            assert(seen_at(b, seen2, nb));
                        },
                        Move::Left => {
                            assert(seen_at(b, seen3, nb));
                        },
                        Move::Right => {
                            assert(seen_at(b, seen@, nb));
                        },
                    }
                }
                // the frontier cut is maintained
                assert forall|c: Coord, nb: Coord|
                    seen_at(b, seen@, c) && !frontier@.contains(c) && #[trigger] free_step(
                        b,
                        c,
                        nb,
                    ) implies seen_at(b, seen@, nb) by {
                    if c == v {
                    } else if seen_at(b, seen0, c) {
                        if prefront.contains(c) {
                            assert(front0.contains(c));
                            assert(front1.contains(c));
                            assert(front2.contains(c));
                            assert(front3.contains(c));
                            assert(frontier@.contains(c));
                        } else {
                            assert(seen_at(b, seen0, nb));
                        }
                    } else {
                        // c was newly reached, so it sits on the frontier
                        if seen_at(b, seen1, c) {
                            assert(front1.contains(c));
                            assert(front2.contains(c));
                            assert(front3.contains(c));
                            assert(frontier@.contains(c));
                        } else if seen_at(b, seen2, c) {
                            assert(front2.contains(c));
                            assert(front3.contains(c));
                            assert(frontier@.contains(c));
                        } else if seen_at(b, seen3, c) {
                            assert(front3.contains(c));
                            assert(frontier@.contains(c));
                        } else {
                            assert(frontier@.contains(c));
                        }
                    }
                }
                // the search measure shrinks: one frontier entry was taken
                // off and every push also marked one new cell as reached
                lemma_count_seen_bounds(seen@);
                assert(front0.len() == prefront.len() - 1);
                assert(front1.len() - front0.len() == count_seen(seen1) - count_seen(seen0));
                assert(front2.len() - front1.len() == count_seen(seen2) - count_seen(seen1));
                assert(front3.len() - front2.len() == count_seen(seen3) - count_seen(seen2));
                assert(frontier@.len() - front3.len() == count_seen(seen@) - count_seen(seen3));
                assert(count_seen(seen@) >= count_seen(seen0));
            }
        }

        proof {
            lemma_index_bounds(b.width as int, b.height as int, goal.x as int, goal.y as int);
            assert((goal.y as int) * (b.width as int) + (goal.x as int) == cell_index(b, *goal));
        }
        let gnode = seen[(goal.y as usize) * w + (goal.x as usize)];
        match gnode {
            Visit::Unseen => {
                proof {
                    assert(!seen_at(b, seen@, *goal));
                    lemma_unseen_unreachable(b, seen@, *start, *goal);
                }
                None
            },
            Visit::Seen { .. } => {
                proof {
                    assert(seen_at(b, seen@, *goal));
                }
                // walk the parent records back from the goal
                let mut rev: Vec<Coord> = Vec::new();
                let mut cur: Coord = *goal;
                rev.push(cur);
                while cur != *start
                    invariant
                        b == *self,
                        b.wf(),
                        w == b.width,
                        in_bounds(b, *start),
                        in_bounds(b, *goal),
                        *start != *goal,
                        nodes_inv(b, seen@, *start),
                        seen_at(b, seen@, cur),
                        rev@.len() >= 1,
                        rev@[0] == *goal,
                        rev@.last() == cur,
                        forall|i: int| 0 <= i < rev@.len() ==> in_bounds(b, #[trigger] rev@[i]),
                        forall|i: int|
                            0 <= i < rev@.len() - 1 ==> free_step(
                                b,
                                rev@[i + 1],
                                #[trigger] rev@[i],
                            ),
                        forall|i: int| 0 <= i < rev@.len() - 1 ==> !occupied(b, #[trigger] rev@[i]),
                    decreases depth_at(b, seen@, cur),
                {
                    proof {
                        lemma_index_bounds(
                            b.width as int,
                            b.height as int,
                            cur.x as int,
                            cur.y as int,
                        );
                        assert((cur.y as int) * (b.width as int) + (cur.x as int) == cell_index(
                            b,
                            cur,
                        ));
                        assert(node_ok(b, seen@, *start, cur));
                    }
                    let cnode = seen[(cur.y as usize) * w + (cur.x as usize)];
                    let next: Coord = match cnode {
                        Visit::Seen { parent, .. } => parent,
                        Visit::Unseen => cur,
                    };
                    proof {
                        assert(next == parent_at(b, seen@, cur));
                        assert(seen_at(b, seen@, next));
                        assert(depth_at(b, seen@, next) == depth_at(b, seen@, cur) - 1);
                        assert(free_step(b, next, cur));
                        assert(!occupied(b, cur));
                    }
                    cur = next;
                    let ghost oldrev = rev@;
                    rev.push(cur);
                    proof {
                        assert(rev@.last() == cur);
                        assert forall|i: int| 0 <= i < rev@.len() - 1 implies free_step(
                            b,
                            rev@[i + 1],
                            #[trigger] rev@[i],
                        ) by {
                            if i < oldrev.len() - 1 {
                                assert(rev@[i] == oldrev[i] && rev@[i + 1] == oldrev[i + 1]);
                            } else {
                                assert(rev@[i] == oldrev.last());
                            }
                        }
                    }
                }
                proof {
                    assert(rev@.last() == *start);
                    assert(rev@.len() >= 2) by {
                        if rev@.len() == 1 {
                            assert(rev@[0] == *goal && rev@.last() == *start);
                        }
                    }
                }
                // reverse into start-to-goal order
                let mut path: Vec<Coord> = Vec::new();
                let total = rev.len();
                let mut remaining: usize = total;
                while remaining > 0
                    invariant
                        total == rev@.len(),
                        0 <= remaining <= total,
                        path@.len() == total - remaining,
                        forall|k: int|
                            0 <= k < path@.len() ==> #[trigger] path@[k] == rev@[total - 1 - k],
                    decreases remaining,
                {
                    remaining -= 1;
                    path.push(rev[remaining]);
                }
                proof {
                    assert(path@[0] == rev@[total - 1]);
                    assert(path@.last() == rev@[0]);
                    assert forall|i: int| 0 <= i < path@.len() - 1 implies free_step(
                        b,
                        path@[i],
                        #[trigger] path@[i + 1],
                    ) by {
                        let j = total - 2 - i;
                        assert(path@[i] == rev@[j + 1] && path@[i + 1] == rev@[j]);
                        assert(free_step(b, rev@[j + 1], rev@[j]));
                    }
                    assert forall|i: int| 1 <= i < path@.len() implies !occupied(
                        b,
                        #[trigger] path@[i],
                    ) by {
                        assert(path@[i] == rev@[total - 1 - i]);
                    }
                    assert forall|i: int| 0 <= i < path@.len() implies in_bounds(
                        b,
                        #[trigger] path@[i],
                    ) by {
                        assert(path@[i] == rev@[total - 1 - i]);
                    }
                    assert(path_valid(b, *start, *goal, path@));
                    // the path itself witnesses reachability
                    assert(walk_ok(b, *start, path@));
                    assert(goal_reachable(b, *start, *goal));
                }
                Some(path)
            },
        }
    }
}

} // verus!
