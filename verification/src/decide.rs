//! The decision coordinator: one move per turn. Filter the four directions
//! for safety, score the safe ones by flood-fill area, take the roomiest
//! direction when the areas differ; otherwise head for the nearest food
//! along a computed path, and fall back to a uniform random safe choice
//! (or Down, when nothing is safe at all).

use crate::area::area_spec;
use crate::model::{in_bounds, manhattan, move_dest, occupied, Board, Battlesnake, Coord, Move};
use crate::path::{free_step, goal_reachable, path_valid};
use crate::safety::{safe_map, SafetyMap};
use vstd::prelude::*;

verus! {

/// The area score of the cell one step in direction `m` from `head`.
pub open spec fn dir_score(b: Board, head: Coord, m: Move) -> int {
    area_spec(b, move_dest(m, head))
}

/// The greatest area score among the safe directions (or -1 when none is
/// safe), accumulated in the fixed order Up, Down, Left, Right.
pub open spec fn max_safe_score(b: Board, head: Coord) -> int {
    let sm = safe_map(b, head);
    let m1 = if sm.up {
        dir_score(b, head, Move::Up)
    } else {
        -1
    };
    let m2 = if sm.down && dir_score(b, head, Move::Down) > m1 {
        dir_score(b, head, Move::Down)
    } else {
        m1
    };
    let m3 = if sm.left && dir_score(b, head, Move::Left) > m2 {
        dir_score(b, head, Move::Left)
    } else {
        m2
    };
    if sm.right && dir_score(b, head, Move::Right) > m3 {
        dir_score(b, head, Move::Right)
    } else {
        m3
    }
}

/// The first direction, in the order Up, Down, Left, Right, that is safe
/// and reaches the greatest area score.
pub open spec fn first_max_dir(b: Board, head: Coord) -> Move {
    let sm = safe_map(b, head);
    let mx = max_safe_score(b, head);
    if sm.up && dir_score(b, head, Move::Up) == mx {
        Move::Up
    } else if sm.down && dir_score(b, head, Move::Down) == mx {
        Move::Down
    } else if sm.left && dir_score(b, head, Move::Left) == mx {
        Move::Left
    } else {
        Move::Right
    }
}

/// Whether two safe directions carry different area scores.
pub open spec fn scores_differ(b: Board, head: Coord) -> bool {
    exists|m1: Move, m2: Move|
        #[trigger] safe_map(b, head).dir(m1) && #[trigger] safe_map(b, head).dir(m2) && dir_score(
            b,
            head,
            m1,
        ) != dir_score(b, head, m2)
}

/// The first index of a food cell at the least Manhattan distance from
/// `head` (ties keep the earlier cell in the list).
pub open spec fn argmin_dist(food: Seq<Coord>, head: Coord) -> int
    decreases food.len(),
{
    if food.len() <= 1 {
        0
    } else {
        let r = argmin_dist(food.drop_last(), head);
        if manhattan(head, food.last()) < manhattan(head, food[r]) {
            food.len() - 1
        } else {
            r
        }
    }
}

/// The food cell the pathfinder is pointed at.
pub open spec fn nearest_food(b: Board, head: Coord) -> Coord {
    b.food@[argmin_dist(b.food@, head)]
}

/// Whether the tie-broken turn goes to the pathfinder: some safe direction
/// exists and all safe directions carry the same area score.
pub open spec fn needs_path(b: Board, head: Coord) -> bool {
    safe_map(b, head).spec_any() && !scores_differ(b, head)
}

/// Whether a route to food exists: there is food, the nearest food cell is
/// not the head itself, and the goal can be reached over free cells.
pub open spec fn food_route_exists(b: Board, head: Coord) -> bool {
    b.food@.len() > 0 && nearest_food(b, head) != head && goal_reachable(
        b,
        head,
        nearest_food(b, head),
    )
}

proof fn lemma_argmin_dist_props(food: Seq<Coord>, head: Coord)
    requires
        food.len() >= 1,
    ensures
        0 <= argmin_dist(food, head) < food.len(),
        forall|j: int|
            0 <= j < food.len() ==> manhattan(head, #[trigger] food[j]) >= manhattan(
                head,
                food[argmin_dist(food, head)],
            ),
    decreases food.len(),
{
    if food.len() > 1 {
        lemma_argmin_dist_props(food.drop_last(), head);
        assert forall|j: int| 0 <= j < food.len() implies manhattan(head, #[trigger] food[j])
            >= manhattan(head, food[argmin_dist(food, head)]) by {
            if j < food.len() - 1 {
                assert(food.drop_last()[j] == food[j]);
            }
        }
    }
}

/// Relies on rand's `Rng::gen_range` over the half-open range `0..len`:
/// the sampled value lies inside the range; the range must be nonempty,
/// since `gen_range` panics on an empty one.
#[verifier::external_body]
fn pick_index(len: usize) -> (r: usize)
    requires
        len > 0,
    ensures
        r < len,
{
    rand::Rng::gen_range(&mut rand::thread_rng(), 0..len)
}

/// The move taking `from` to the adjacent cell `to`, both on the board.
fn step_dir(board: &Board, from: &Coord, to: &Coord) -> (r: Move)
    requires
        board.wf(),
        in_bounds(*board, *from),
        in_bounds(*board, *to),
        exists|m: Move| *to == move_dest(m, *from),
    ensures
        *to == move_dest(r, *from),
{
    proof {
        let m = choose|m: Move| *to == move_dest(m, *from);
        match m {
            Move::Up => {},
            Move::Down => {},
            Move::Left => {},
            Move::Right => {},
        }
    }
    if to.y > from.y {
        Move::Up
    } else if to.y < from.y {
        Move::Down
    } else if to.x < from.x {
        Move::Left
    } else {
        Move::Right
    }
}

/// Decide the move for one turn. The branch order is fixed: safety filter,
/// then area comparison, then path to the nearest food, then a uniform
/// random safe choice; Down is the last resort when nothing is safe.
pub fn get_move(board: &Board, you: &Battlesnake) -> (r: Move)
    requires
        board.wf(),
        in_bounds(*board, you.head),
    ensures
        !safe_map(*board, you.head).spec_any() ==> r == Move::Down,
        safe_map(*board, you.head).spec_any() && scores_differ(*board, you.head) ==> r
            == first_max_dir(*board, you.head) && safe_map(*board, you.head).dir(r),
        needs_path(*board, you.head) && food_route_exists(*board, you.head) ==> exists|
            p: Seq<Coord>,
        |
            #[trigger] path_valid(*board, you.head, nearest_food(*board, you.head), p) && p[1]
                == move_dest(r, you.head),
        needs_path(*board, you.head) && !food_route_exists(*board, you.head) ==> safe_map(
            *board,
            you.head,
        ).dir(r),
{
    let ghost b = *board;
    let head = you.head;
    let mut sm = SafetyMap::full();
    head.check_collisions(board, &mut sm);
    proof {
        assert(sm == safe_map(b, head));
    }
    if !sm.any_safe() {
        return Move::Down;
    }

    // score every safe direction by flood fill from its destination
    let su: i32 = if sm.up {
        Move::Up.get_coord(&head).floodfill(board)
    } else {
        0
    };
    let sd: i32 = if sm.down {
        Move::Down.get_coord(&head).floodfill(board)
    } else {
        0
    };
    let sl: i32 = if sm.left {
        Move::Left.get_coord(&head).floodfill(board)
    } else {
        0
    };
    let sr: i32 = if sm.right {
        Move::Right.get_coord(&head).floodfill(board)
    } else {
        0
    };
    proof {
        assert(sm.up ==> su == dir_score(b, head, Move::Up));
        assert(sm.down ==> sd == dir_score(b, head, Move::Down));
        assert(sm.left ==> sl == dir_score(b, head, Move::Left));
        assert(sm.right ==> sr == dir_score(b, head, Move::Right));
    }

    // greatest score and the first direction reaching it
    let mut bestv: i32 = -1;
    let mut bestm: Move = Move::Down;
    if sm.up {
        bestv = su;
        bestm = Move::Up;
    }
    if sm.down && sd > bestv {
        bestv = sd;
        bestm = Move::Down;
    }
    if sm.left && sl > bestv {
        bestv = sl;
        bestm = Move::Left;
    }
    if sm.right && sr > bestv {
        bestv = sr;
        bestm = Move::Right;
    }
    proof {
        assert(bestv == max_safe_score(b, head));
        assert(bestm == first_max_dir(b, head));
        assert(safe_map(b, head).dir(bestm));
    }

    let differ = (sm.up && su < bestv) || (sm.down && sd < bestv) || (sm.left && sl < bestv) || (
    sm.right && sr < bestv);
    proof {
        assert(differ == scores_differ(b, head)) by {
            if differ {
                assert(scores_differ(b, head)) by {
                    if sm.up && su < bestv {
                        assert(safe_map(b, head).dir(Move::Up));
                    } else if sm.down && sd < bestv {
                        assert(safe_map(b, head).dir(Move::Down));
                    } else if sm.left && sl < bestv {
                        assert(safe_map(b, head).dir(Move::Left));
                    } else {
                        assert(safe_map(b, head).dir(Move::Right));
                    }
                }
            }
            if scores_differ(b, head) {
                let (m1, m2) = choose|m1: Move, m2: Move|
                    #[trigger] safe_map(b, head).dir(m1) && #[trigger] safe_map(b, head).dir(m2)
                        && dir_score(b, head, m1) != dir_score(b, head, m2);
                match m1 {
                    Move::Up => {},
                    Move::Down => {},
                    Move::Left => {},
                    Move::Right => {},
                }
                match m2 {
                    Move::Up => {},
                    Move::Down => {},
                    Move::Left => {},
                    Move::Right => {},
                }
            }
        }
    }
    if differ {
        return bestm;
    }

    // all safe areas equal: try a path to the nearest food
    if board.food.len() > 0 {
        let mut best_i: usize = 0;
        proof {
            dist_fits(b, head, b.food@[0]);
        }
        let mut best_d: i32 = head.distance(&board.food[0]);
        let mut i: usize = 1;
        while i < board.food.len()
            invariant
                b == *board,
                b.wf(),
                in_bounds(b, head),
                b.food@.len() >= 1,
                0 <= best_i < i,
                1 <= i <= b.food@.len(),
                best_d == manhattan(head, b.food@[best_i as int]),
                best_i == argmin_dist(b.food@.take(i as int), head),
            decreases b.food@.len() - i,
        {
            proof {
                dist_fits(b, head, b.food@[i as int]);
            }
            let d = head.distance(&board.food[i]);
            proof {
                assert(b.food@.take(i as int + 1).drop_last() =~= b.food@.take(i as int));
                assert(b.food@.take(i as int + 1).last() == b.food@[i as int]);
                lemma_argmin_dist_props(b.food@.take(i as int), head);
            }
            if d < best_d {
                best_i = i;
                best_d = d;
            }
            i += 1;
        }
        proof {
            assert(b.food@.take(b.food@.len() as int) =~= b.food@);
            assert(best_i == argmin_dist(b.food@, head));
            assert(b.food@[best_i as int] == nearest_food(b, head));
        }
        let goal = board.food[best_i];
        if !(goal.x == head.x && goal.y == head.y) {
            proof {
                assert(goal != head);
            }
            match board.find_path(&head, &goal) {
                Some(p) => {
                    let step = p[1];
                    proof {
                        assert(path_valid(b, head, goal, p@));
                        assert(free_step(b, p@[0int], p@[0int + 1]));
                        let mw = choose|m: Move|
                            p@[1] == move_dest(m, p@[0]) && in_bounds(b, p@[1]) && !occupied(
                                b,
                                p@[1],
                            );
                        assert(step == move_dest(mw, head));
                        assert(in_bounds(b, step));
                    }
                    let d = step_dir(board, &head, &step);
                    proof {
                        assert(path_valid(b, head, nearest_food(b, head), p@) && p@[1]
                            == move_dest(d, head));
                    }
                    return d;
                },
                None => {
                    proof {
                        assert(!goal_reachable(b, head, goal));
                        assert(!food_route_exists(b, head));
                    }
                },
            }
        }
    }

    // no usable path: uniform random choice among the safe directions
    let mut safe_vec: Vec<Move> = Vec::new();
    if sm.up {
        safe_vec.push(Move::Up);
    }
    if sm.down {
        safe_vec.push(Move::Down);
    }
    if sm.left {
        safe_vec.push(Move::Left);
    }
    if sm.right {
        safe_vec.push(Move::Right);
    }
    proof {
        assert(safe_vec@.len() > 0);
        assert(forall|k: int| 0 <= k < safe_vec@.len() ==> safe_map(b, head).dir(#[trigger] safe_vec@[k]));
    }
    let idx = pick_index(safe_vec.len());
    let chosen = safe_vec[idx];
    chosen
}

proof fn dist_fits(b: Board, a: Coord, g: Coord)
    requires
        b.wf(),
        in_bounds(b, a),
        in_bounds(b, g),
    ensures
        manhattan(a, g) <= i32::MAX,
{
    assert(b.width + b.height <= b.width * b.height + 1) by (nonlinear_arith)
        requires
            1 <= b.width,
            1 <= b.height,
    ;
}

} // verus!
