//! The area scorer: a flood fill that counts the cells reachable from a
//! candidate cell through repeated safety-filtered moves. The count is a
//! proxy for the room the snake would have after stepping onto that cell.

use crate::model::{in_bounds, is_head, move_dest, occupied, Board, Coord, Move};
use crate::safety::{
    after_body, after_bounds, head_threat, narrow_heads, safe_map, SafetyMap,
};
use vstd::prelude::*;
use vstd::set_lib::lemma_len_subset;

verus! {

/// Classification of a cell in the flood fill's working grid.
#[derive(Clone, Copy, PartialEq, Eq, Debug, Structural)]
pub enum FieldType {
    Discovered,
    Free,
    Blocked,
}

/// One flood-fill step: the safety filter at `from` allows a move whose
/// destination is `to`. Safety is recomputed at every visited cell against
/// the same fixed board: other snakes' movement is not simulated.
pub open spec fn step_ok(b: Board, from: Coord, to: Coord) -> bool {
    exists|m: Move| #[trigger] safe_map(b, from).dir(m) && to == move_dest(m, from)
}

/// A chain of safety-filtered steps beginning at `start`.
pub open spec fn chain_ok(b: Board, start: Coord, p: Seq<Coord>) -> bool {
    &&& p.len() >= 1
    &&& p[0] == start
    &&& forall|i: int| 0 <= i < p.len() - 1 ==> step_ok(b, p[i], #[trigger] p[i + 1])
}

/// Cell `c` can be reached from `start` by a chain of safety-filtered steps.
pub open spec fn reaches(b: Board, start: Coord, c: Coord) -> bool {
    exists|p: Seq<Coord>| #[trigger] chain_ok(b, start, p) && p.last() == c
}

/// The region the flood fill measures: every cell reachable from `start`.
pub open spec fn region(b: Board, start: Coord) -> Set<Coord> {
    Set::new(|c: Coord| reaches(b, start, c))
}

/// The area score of candidate cell `start`: the size of its reachable
/// region, or zero when the cell is off the board or lies on a snake body.
pub open spec fn area_spec(b: Board, start: Coord) -> int {
    if in_bounds(b, start) && !occupied(b, start) {
        region(b, start).len() as int
    } else {
        0
    }
}

/// The rectangle of all board cells.
pub open spec fn board_cells(w: int, h: int) -> Set<Coord> {
    Set::new(|c: Coord| 0 <= c.x < w && 0 <= c.y < h)
}

/// One row of `board_cells`: the cells with `c.y == y` and `0 <= c.x < w`.
spec fn row_cells(w: int, y: int) -> Set<Coord> {
    Set::new(|c: Coord| 0 <= c.x < w && c.y == y)
}

proof fn lemma_row_card(w: int, y: int)
    requires
        0 <= w <= i32::MAX,
        i32::MIN <= y <= i32::MAX,
    ensures
        row_cells(w, y).finite(),
        row_cells(w, y).len() == w,
    decreases w,
{
    if w == 0 {
        assert(row_cells(0, y) =~= Set::<Coord>::empty());
    } else {
        lemma_row_card(w - 1, y);
        let corner = Coord { x: (w - 1) as i32, y: y as i32 };
        assert(row_cells(w, y) =~= row_cells(w - 1, y).insert(corner));
        assert(!row_cells(w - 1, y).contains(corner));
    }
}

/// The board rectangle is finite and holds exactly `w * h` cells.
pub proof fn lemma_board_cells_card(w: int, h: int)
    requires
        0 <= w <= i32::MAX,
        0 <= h <= i32::MAX,
    ensures
        board_cells(w, h).finite(),
        board_cells(w, h).len() == w * h,
    decreases h,
{
    if h == 0 {
        assert(board_cells(w, 0) =~= Set::<Coord>::empty());
    } else {
        lemma_board_cells_card(w, h - 1);
        lemma_row_card(w, h - 1);
        assert(board_cells(w, h) =~= board_cells(w, h - 1) + row_cells(w, h - 1));
        assert(board_cells(w, h - 1).disjoint(row_cells(w, h - 1)));
        vstd::set_lib::lemma_set_disjoint_lens(board_cells(w, h - 1), row_cells(w, h - 1));
        assert(w * h == w * (h - 1) + w) by (nonlinear_arith);
    }
}

/// A safety-filtered step out of an on-board cell lands on the board, on a
/// cell free of snake bodies and distinct from the one it left.
pub proof fn lemma_step_props(b: Board, from: Coord, to: Coord)
    requires
        b.wf(),
        in_bounds(b, from),
        step_ok(b, from, to),
    ensures
        in_bounds(b, to),
        !occupied(b, to),
        to != from,
{
    let m = choose|m: Move| #[trigger] safe_map(b, from).dir(m) && to == move_dest(m, from);
    let m0 = after_bounds(b, from, SafetyMap::spec_full());
    let m1 = after_body(b, from, m0);
    assert(safe_map(b, from) == if !narrow_heads(b, from, m1).spec_any() {
        m1
    } else {
        narrow_heads(b, from, m1)
    });
    assert(m1.dir(m));
    assert(m0.dir(m));
}

/// Every cell of a chain from an on-board start is on the board, and every
/// cell after the first is free of snake bodies.
proof fn lemma_chain_cell(b: Board, start: Coord, p: Seq<Coord>, i: int)
    requires
        b.wf(),
        in_bounds(b, start),
        chain_ok(b, start, p),
        0 <= i < p.len(),
    ensures
        in_bounds(b, p[i]),
        i > 0 ==> !occupied(b, p[i]),
    decreases i,
{
    if i > 0 {
        let j = i - 1;
        lemma_chain_cell(b, start, p, j);
        assert(step_ok(b, p[j], p[j + 1]));
        lemma_step_props(b, p[j], p[i]);
    }
}

/// A reachable cell is on the board, and is free of snake bodies unless it
/// is the start itself.
pub proof fn lemma_reaches_props(b: Board, start: Coord, c: Coord)
    requires
        b.wf(),
        in_bounds(b, start),
        reaches(b, start, c),
    ensures
        in_bounds(b, c),
        c != start ==> !occupied(b, c),
{
    let p = choose|p: Seq<Coord>| #[trigger] chain_ok(b, start, p) && p.last() == c;
    lemma_chain_cell(b, start, p, p.len() - 1);
}

/// Reachability extends along one more safety-filtered step.
pub proof fn lemma_reaches_step(b: Board, start: Coord, v: Coord, n: Coord)
    requires
        reaches(b, start, v),
        step_ok(b, v, n),
    ensures
        reaches(b, start, n),
{
    let p = choose|p: Seq<Coord>| #[trigger] chain_ok(b, start, p) && p.last() == v;
    let p2 = p.push(n);
    assert(chain_ok(b, start, p2)) by {
        assert(forall|i: int| 0 <= i < p.len() - 1 ==> step_ok(b, p2[i], #[trigger] p2[i + 1]));
        assert(p2[p.len() - 1] == v && p2[p.len() as int] == n);
    }
    assert(p2.last() == n);
}

/// A set that contains `start` and is closed under safety-filtered steps
/// contains every reachable cell.
pub open spec fn closed_under_step(b: Board, s: Set<Coord>) -> bool {
    forall|d: Coord, n: Coord| s.contains(d) && #[trigger] step_ok(b, d, n) ==> s.contains(n)
}

proof fn lemma_chain_in_closed(b: Board, start: Coord, s: Set<Coord>, p: Seq<Coord>, i: int)
    requires
        closed_under_step(b, s),
        s.contains(start),
        chain_ok(b, start, p),
        0 <= i < p.len(),
    ensures
        s.contains(p[i]),
    decreases i,
{
    if i > 0 {
        let j = i - 1;
        lemma_chain_in_closed(b, start, s, p, j);
        assert(step_ok(b, p[j], p[j + 1]));
    }
}

pub proof fn lemma_closed_covers_region(b: Board, start: Coord, s: Set<Coord>)
    requires
        closed_under_step(b, s),
        s.contains(start),
    ensures
        region(b, start).subset_of(s),
{
    assert forall|c: Coord| region(b, start).contains(c) implies s.contains(c) by {
        let p = choose|p: Seq<Coord>| #[trigger] chain_ok(b, start, p) && p.last() == c;
        lemma_chain_in_closed(b, start, s, p, p.len() - 1);
    }
}

/// Whether the head-to-head fallback fires for a filter run at cell `c`:
/// narrowing by head threats would leave no safe direction, so the filter
/// restores the map it had after the body check.
pub open spec fn fallback_at(b: Board, c: Coord) -> bool {
    !narrow_heads(
        b,
        c,
        after_body(b, c, after_bounds(b, c, SafetyMap::spec_full())),
    ).spec_any()
}

/// Head threats are the same on two boards with the same snake heads.
proof fn lemma_threat_equiv(b1: Board, b2: Board, c: Coord, d: Coord)
    requires
        forall|h: Coord| is_head(b1, h) <==> #[trigger] is_head(b2, h),
    ensures
        head_threat(b1, c, d) == head_threat(b2, c, d),
{
    if head_threat(b1, c, d) {
        let h = choose|h: Coord|
            #[trigger] is_head(b1, h) && h != c && (exists|m2: Move| move_dest(m2, h) == d);
        assert(is_head(b2, h));
        assert(head_threat(b2, c, d));
    }
    if head_threat(b2, c, d) {
        let h = choose|h: Coord|
            #[trigger] is_head(b2, h) && h != c && (exists|m2: Move| move_dest(m2, h) == d);
        assert(is_head(b1, h));
        assert(head_threat(b1, c, d));
    }
}

/// Every direction the filter allows on the denser board `b2` it also
/// allows on the sparser board `b1`, provided the two boards share their
/// dimensions and snake heads, every obstacle of `b1` is one of `b2`, and
/// the head-to-head fallback does not fire on `b2` where it did not
/// already fire on `b1`.
pub proof fn lemma_safe_dir_monotone(b1: Board, b2: Board, c: Coord)
    requires
        b2.width == b1.width,
        b2.height == b1.height,
        forall|d: Coord| occupied(b1, d) ==> #[trigger] occupied(b2, d),
        forall|h: Coord| is_head(b1, h) <==> #[trigger] is_head(b2, h),
        fallback_at(b2, c) ==> fallback_at(b1, c),
    ensures
        forall|m: Move| #[trigger] safe_map(b2, c).dir(m) ==> safe_map(b1, c).dir(m),
{
    let f = SafetyMap::spec_full();
    let a1 = after_bounds(b1, c, f);
    let a2 = after_bounds(b2, c, f);
    assert(a1 == a2);
    let bb1 = after_body(b1, c, a1);
    let bb2 = after_body(b2, c, a2);
    assert(bb2.up ==> bb1.up);
    assert(bb2.down ==> bb1.down);
    assert(bb2.left ==> bb1.left);
    assert(bb2.right ==> bb1.right);
    let n1 = narrow_heads(b1, c, bb1);
    let n2 = narrow_heads(b2, c, bb2);
    lemma_threat_equiv(b1, b2, c, move_dest(Move::Up, c));
    lemma_threat_equiv(b1, b2, c, move_dest(Move::Down, c));
    lemma_threat_equiv(b1, b2, c, move_dest(Move::Left, c));
    lemma_threat_equiv(b1, b2, c, move_dest(Move::Right, c));
    assert(n2.up ==> n1.up);
    assert(n2.down ==> n1.down);
    assert(n2.left ==> n1.left);
    assert(n2.right ==> n1.right);
    if fallback_at(b2, c) {
        assert(safe_map(b2, c) == bb2);
        assert(safe_map(b1, c) == bb1);
    } else {
        assert(safe_map(b2, c) == n2);
        assert(!fallback_at(b1, c));
        assert(safe_map(b1, c) == n1);
    }
    assert forall|m: Move| #[trigger] safe_map(b2, c).dir(m) implies safe_map(b1, c).dir(m) by {
        match m {
            Move::Up => {},
            Move::Down => {},
            Move::Left => {},
            Move::Right => {},
        }
    }
}

/// Every area score lies between zero and the number of board cells.
pub proof fn lemma_area_bound(b: Board, start: Coord)
    requires
        b.wf(),
    ensures
        0 <= area_spec(b, start) <= b.width * b.height,
{
    lemma_board_cells_card(b.width as int, b.height as int);
    if in_bounds(b, start) && !occupied(b, start) {
        assert forall|c: Coord| region(b, start).contains(c) implies board_cells(
            b.width as int,
            b.height as int,
        ).contains(c) by {
            lemma_reaches_props(b, start, c);
        }
        lemma_len_subset(region(b, start), board_cells(b.width as int, b.height as int));
    }
}

/// Adding obstacle cells to a board never increases an area score, as long
/// as the board keeps its dimensions and its snake heads and the
/// head-to-head fallback fires on the denser board only where it already
/// fired on the sparser one. (Without that proviso the fallback can
/// re-open a head-threatened direction next to a new obstacle and so
/// enlarge the reachable region.)
pub proof fn lemma_area_monotone(b1: Board, b2: Board, start: Coord)
    requires
        b1.wf(),
        b2.wf(),
        b2.width == b1.width,
        b2.height == b1.height,
        forall|d: Coord| occupied(b1, d) ==> #[trigger] occupied(b2, d),
        forall|h: Coord| is_head(b1, h) <==> #[trigger] is_head(b2, h),
        forall|c: Coord| #[trigger] fallback_at(b2, c) ==> fallback_at(b1, c),
    ensures
        area_spec(b2, start) <= area_spec(b1, start),
{
    lemma_board_cells_card(b1.width as int, b1.height as int);
    if in_bounds(b2, start) && !occupied(b2, start) {
        assert(in_bounds(b1, start));
        assert(!occupied(b1, start));
        assert forall|c: Coord| region(b2, start).contains(c) implies region(b1, start).contains(
            c,
        ) by {
            let p = choose|p: Seq<Coord>| #[trigger] chain_ok(b2, start, p) && p.last() == c;
            assert forall|i: int| 0 <= i < p.len() - 1 implies step_ok(b1, p[i], #[trigger] p[i
                + 1]) by {
                assert(step_ok(b2, p[i], p[i + 1]));
                let m = choose|m: Move|
                    #[trigger] safe_map(b2, p[i]).dir(m) && p[i + 1] == move_dest(m, p[i]);
                lemma_safe_dir_monotone(b1, b2, p[i]);
                assert(safe_map(b1, p[i]).dir(m));
            }
            assert(chain_ok(b1, start, p));
        }
        assert forall|c: Coord| region(b1, start).contains(c) implies board_cells(
            b1.width as int,
            b1.height as int,
        ).contains(c) by {
            lemma_reaches_props(b1, start, c);
        }
        lemma_len_subset(region(b1, start), board_cells(b1.width as int, b1.height as int));
        lemma_len_subset(region(b2, start), region(b1, start));
    }
}

/// The index of an on-board cell in the row-major working grid.
pub open spec fn cell_index(b: Board, c: Coord) -> int {
    c.y * b.width + c.x
}

pub proof fn lemma_index_bounds(w: int, h: int, x: int, y: int)
    requires
        0 <= x < w,
        0 <= y < h,
    ensures
        0 <= y * w + x < w * h,
{
    assert(0 <= y * w + x < w * h) by (nonlinear_arith)
        requires
            0 <= x < w,
            0 <= y < h,
    ;
}

pub proof fn lemma_index_injective(w: int, c1: Coord, c2: Coord)
    requires
        0 <= c1.x < w,
        0 <= c2.x < w,
        c1.y * w + c1.x == c2.y * w + c2.x,
    ensures
        c1 == c2,
{
    assert(c1.x == c2.x && c1.y == c2.y) by (nonlinear_arith)
        requires
            0 <= c1.x < w,
            0 <= c2.x < w,
            c1.y * w + c1.x == c2.y * w + c2.x,
    ;
}

/// Number of `Free` entries in the working grid; the flood fill's
/// termination measure shrinks with it.
spec fn free_count(s: Seq<FieldType>) -> int
    decreases s.len(),
{
    if s.len() == 0 {
        0
    } else {
        free_count(s.drop_last()) + if s.last() == FieldType::Free {
            1int
        } else {
            0int
        }
    }
}

proof fn lemma_free_count_nonneg(s: Seq<FieldType>)
    ensures
        free_count(s) >= 0,
    decreases s.len(),
{
    if s.len() > 0 {
        lemma_free_count_nonneg(s.drop_last());
    }
}

proof fn lemma_free_count_update(s: Seq<FieldType>, i: int, v: FieldType)
    requires
        0 <= i < s.len(),
        s[i] == FieldType::Free,
        v != FieldType::Free,
    ensures
        free_count(s.update(i, v)) == free_count(s) - 1,
    decreases s.len(),
{
    let t = s.update(i, v);
    if i == s.len() - 1 {
        assert(t.drop_last() =~= s.drop_last());
    } else {
        assert(t.drop_last() =~= s.drop_last().update(i, v));
        lemma_free_count_update(s.drop_last(), i, v);
    }
}

/// The well-formed working grid: row-major over the board, `Discovered`
/// exactly on the discovered set, `Blocked` exactly on snake bodies.
spec fn grid_inv(b: Board, grid: Seq<FieldType>, discovered: Set<Coord>) -> bool {
    &&& grid.len() == b.width * b.height
    &&& forall|c: Coord|
        in_bounds(b, c) ==> grid[#[trigger] cell_index(b, c)] == (if discovered.contains(c) {
            FieldType::Discovered
        } else if occupied(b, c) {
            FieldType::Blocked
        } else {
            FieldType::Free
        })
}

impl Coord {
    /// The number of cells reachable from this cell through repeated
    /// safety-filtered moves; zero when the cell is off the board or on a
    /// snake body. Never more than the number of board cells.
    pub fn floodfill(&self, board: &Board) -> (r: i32)
        requires
            board.wf(),
        ensures
            r == area_spec(*board, *self),
            0 <= r <= board.width * board.height,
    {
        let ghost b = *board;
        proof {
            lemma_board_cells_card(b.width as int, b.height as int);
        }
        if !(self.x >= 0 && self.x < board.width && self.y >= 0 && self.y < board.height) {
            return 0;
        }
        if board.is_occupied(self) {
            return 0;
        }
        let w = board.width as usize;
        let h = board.height as usize;
        assert(w * h == b.width * b.height) by (nonlinear_arith)
            requires
                w == b.width,
                h == b.height,
        ;
        let n = w * h;

        // Build the working grid: Blocked on snake bodies, Free elsewhere.
        let mut grid: Vec<FieldType> = Vec::new();
        let mut yi: usize = 0;
        while yi < h
            invariant
                b.wf(),
                b == *board,
                w == b.width,
                h == b.height,
                n == b.width * b.height,
                0 <= yi <= h,
                grid@.len() == yi * w,
                forall|c: Coord|
                    in_bounds(b, c) && c.y < yi ==> grid@[#[trigger] cell_index(b, c)] == (
                    if occupied(b, c) {
                        FieldType::Blocked
                    } else {
                        FieldType::Free
                    }),
            decreases h - yi,
        {
            let mut xi: usize = 0;
            while xi < w
                invariant
                    b.wf(),
                    b == *board,
                    w == b.width,
                    h == b.height,
                    n == b.width * b.height,
                    0 <= yi < h,
                    0 <= xi <= w,
                    grid@.len() == yi * w + xi,
                    forall|c: Coord|
                        in_bounds(b, c) && (c.y < yi || (c.y == yi && c.x < xi))
                            ==> grid@[#[trigger] cell_index(b, c)] == (if occupied(b, c) {
                            FieldType::Blocked
                        } else {
                            FieldType::Free
                        }),
                decreases w - xi,
            {
                let c = Coord { x: xi as i32, y: yi as i32 };
                let ghost oldg = grid@;
                if board.is_occupied(&c) {
                    grid.push(FieldType::Blocked);
                } else {
                    grid.push(FieldType::Free);
                }
                proof {
                    assert(cell_index(b, c) == oldg.len());
                    assert forall|c2: Coord|
                        in_bounds(b, c2) && (c2.y < yi || (c2.y == yi && c2.x < xi + 1)) implies
                        grid@[#[trigger] cell_index(b, c2)] == (if occupied(b, c2) {
                        FieldType::Blocked
                    } else {
                        FieldType::Free
                    }) by {
                        if c2 == c {
                        } else {
                            assert(c2.y < yi || (c2.y == yi && c2.x < xi));
                            assert(cell_index(b, c2) < oldg.len()) by (nonlinear_arith)
                                requires
                                    0 <= c2.x < b.width,
                                    0 <= c2.y,
                                    c2.y < yi || (c2.y == yi && c2.x < xi),
                                    oldg.len() == yi * b.width + xi,
                                    cell_index(b, c2) == c2.y * b.width + c2.x,
                            ;
                            assert(cell_index(b, c2) >= 0) by (nonlinear_arith)
                                requires
                                    0 <= c2.x,
                                    0 <= c2.y,
                                    b.width >= 1,
                                    cell_index(b, c2) == c2.y * b.width + c2.x,
                            ;
                            assert(grid@[cell_index(b, c2)] == oldg[cell_index(b, c2)]);
                        }
                    }
                }
                xi += 1;
            }
            proof {
                assert((yi + 1) * w == yi * w + w) by (nonlinear_arith);
            }
            yi += 1;
        }
        proof {
            assert(grid@.len() == h * w);
            assert(h * w == b.width * b.height) by (nonlinear_arith)
                requires
                    w == b.width,
                    h == b.height,
            ;
            assert(grid_inv(b, grid@, Set::<Coord>::empty()));
            lemma_free_count_nonneg(grid@);
        }

        let start = *self;
        let mut stack: Vec<Coord> = Vec::new();
        stack.push(start);
        let mut area_size: i32 = 0;
        let ghost mut discovered: Set<Coord> = Set::<Coord>::empty();
        proof {
            assert(chain_ok(b, start, seq![start]));
            assert(reaches(b, start, start));
        }

        while stack.len() != 0
            invariant
                b.wf(),
                b == *board,
                in_bounds(b, start),
                !occupied(b, start),
                w == b.width,
                h == b.height,
                grid_inv(b, grid@, discovered),
                free_count(grid@) >= 0,
                discovered.finite(),
                area_size == discovered.len(),
                forall|c: Coord| #[trigger]
                    discovered.contains(c) ==> in_bounds(b, c) && !occupied(b, c) && reaches(
                        b,
                        start,
                        c,
                    ),
                forall|k: int| 0 <= k < stack@.len() ==> reaches(b, start, #[trigger] stack@[k]),
                forall|d: Coord, nb: Coord|
                    discovered.contains(d) && #[trigger] step_ok(b, d, nb)
                        ==> discovered.contains(nb) || stack@.contains(nb),
                discovered.contains(start) || stack@.contains(start),
                board_cells(b.width as int, b.height as int).finite(),
                board_cells(b.width as int, b.height as int).len() == b.width * b.height,
            decreases 4 * free_count(grid@) + stack@.len(),
        {
            let ghost prepop = stack@;
            let v_opt = stack.pop();
            let v = v_opt.unwrap();
            proof {
                assert(prepop[prepop.len() - 1] == v);
                assert(reaches(b, start, v));
                lemma_reaches_props(b, start, v);
                lemma_index_bounds(b.width as int, b.height as int, v.x as int, v.y as int);
            }
            let vi = (v.y as usize) * w + (v.x as usize);
            proof {
                assert(vi == cell_index(b, v));
            }
            let ftype = grid[vi];
            if ftype != FieldType::Discovered && ftype != FieldType::Blocked {
                proof {
                    assert(!discovered.contains(v));
                    assert(!occupied(b, v));
                }
                let ghost oldgrid = grid@;
                grid[vi] = FieldType::Discovered;
                proof {
                    lemma_free_count_update(oldgrid, vi as int, FieldType::Discovered);
                    lemma_free_count_nonneg(grid@);
                    discovered = discovered.insert(v);
                    assert forall|c: Coord| in_bounds(b, c) implies grid@[#[trigger] cell_index(
                        b,
                        c,
                    )] == (if discovered.contains(c) {
                        FieldType::Discovered
                    } else if occupied(b, c) {
                        FieldType::Blocked
                    } else {
                        FieldType::Free
                    }) by {
                        lemma_index_bounds(b.width as int, b.height as int, c.x as int, c.y as int);
                        if c != v && cell_index(b, c) == cell_index(b, v) {
                            lemma_index_injective(b.width as int, c, v);
                        }
                    }
                    // Room for one more discovered cell inside the board.
                    lemma_len_subset(
                        discovered,
                        board_cells(b.width as int, b.height as int),
                    );
                }
                area_size = area_size + 1;

                let mut is_move_safe = SafetyMap::full();
                v.check_collisions(board, &mut is_move_safe);
                proof {
                    assert(is_move_safe == safe_map(b, v));
                }
                let ghost base = stack@;
                let ghost upc = move_dest(Move::Up, v);
                let ghost dnc = move_dest(Move::Down, v);
                let ghost lfc = move_dest(Move::Left, v);
                let ghost rtc = move_dest(Move::Right, v);
                proof {
                    // Each safe destination is reachable through v.
                    if is_move_safe.up {
                        assert(safe_map(b, v).dir(Move::Up));
                        assert(step_ok(b, v, upc));
                        lemma_reaches_step(b, start, v, upc);
                    }
                    if is_move_safe.down {
                        assert(safe_map(b, v).dir(Move::Down));
                        assert(step_ok(b, v, dnc));
                        lemma_reaches_step(b, start, v, dnc);
                    }
                    if is_move_safe.left {
                        assert(safe_map(b, v).dir(Move::Left));
                        assert(step_ok(b, v, lfc));
                        lemma_reaches_step(b, start, v, lfc);
                    }
                    if is_move_safe.right {
                        assert(safe_map(b, v).dir(Move::Right));
                        assert(step_ok(b, v, rtc));
                        lemma_reaches_step(b, start, v, rtc);
                    }
                }
                if is_move_safe.up {
                    stack.push(Move::Up.get_coord(&v));
                }
                let ghost s1 = stack@;
                proof {
                    assert(is_move_safe.up ==> s1.contains(upc)) by {
                        if is_move_safe.up {
                            assert(s1[s1.len() - 1] == upc);
                        }
                    }
                }
                if is_move_safe.down {
                    stack.push(Move::Down.get_coord(&v));
                }
                let ghost s2 = stack@;
                proof {
                    assert(is_move_safe.down ==> s2.contains(dnc)) by {
                        if is_move_safe.down {
                            assert(s2[s2.len() - 1] == dnc);
                        }
                    }
                    assert(is_move_safe.up ==> s2.contains(upc)) by {
                        if is_move_safe.up {
                            let k = choose|k: int| 0 <= k < s1.len() && s1[k] == upc;
                            assert(s2[k] == upc);
                        }
                    }
                }
                if is_move_safe.left {
                    stack.push(Move::Left.get_coord(&v));
                }
                let ghost s3 = stack@;
                proof {
                    assert(is_move_safe.left ==> s3.contains(lfc)) by {
                        if is_move_safe.left {
                            assert(s3[s3.len() - 1] == lfc);
                        }
                    }
                    assert((is_move_safe.up ==> s3.contains(upc)) && (is_move_safe.down
                        ==> s3.contains(dnc))) by {
                        if is_move_safe.up {
                            let k = choose|k: int| 0 <= k < s2.len() && s2[k] == upc;
                            assert(s3[k] == upc);
                        }
                        if is_move_safe.down {
                            let k = choose|k: int| 0 <= k < s2.len() && s2[k] == dnc;
                            assert(s3[k] == dnc);
                        }
                    }
                }
                if is_move_safe.right {
                    stack.push(Move::Right.get_coord(&v));
                }
                proof {
                    let s4 = stack@;
                    assert(is_move_safe.right ==> s4.contains(rtc)) by {
                        if is_move_safe.right {
                            assert(s4[s4.len() - 1] == rtc);
                        }
                    }
                    assert((is_move_safe.up ==> s4.contains(upc)) && (is_move_safe.down
                        ==> s4.contains(dnc)) && (is_move_safe.left ==> s4.contains(lfc))) by {
                        if is_move_safe.up {
                            let k = choose|k: int| 0 <= k < s3.len() && s3[k] == upc;
                            assert(s4[k] == upc);
                        }
                        if is_move_safe.down {
                            let k = choose|k: int| 0 <= k < s3.len() && s3[k] == dnc;
                            assert(s4[k] == dnc);
                        }
                        if is_move_safe.left {
                            let k = choose|k: int| 0 <= k < s3.len() && s3[k] == lfc;
                            assert(s4[k] == lfc);
                        }
                    }
                    // Everything that was on the stack below v is still there.
                    assert forall|c: Coord| base.contains(c) implies stack@.contains(c) by {
                        let k = choose|k: int| 0 <= k < base.len() && base[k] == c;
                        assert(s1[k] == c);
                        assert(s2[k] == c);
                        assert(s3[k] == c);
                        assert(s4[k] == c);
                    }
                    // The new stack entries are exactly the safe destinations.
                    assert forall|k: int| base.len() <= k < s4.len() implies ((is_move_safe.up
                        && s4[k] == upc) || (is_move_safe.down && s4[k] == dnc) || (
                    is_move_safe.left && s4[k] == lfc) || (is_move_safe.right && s4[k] == rtc))
                        by {
                        if k < s1.len() {
                            assert(s4[k] == s1[k] && s1[k] == upc && is_move_safe.up);
                        } else if k < s2.len() {
                            assert(s4[k] == s2[k] && s2[k] == dnc && is_move_safe.down);
                        } else if k < s3.len() {
                            assert(s4[k] == s3[k] && s3[k] == lfc && is_move_safe.left);
                        } else {
                            assert(s4[k] == rtc && is_move_safe.right);
                        }
                    }
                    // Every stack entry is reachable.
                    assert forall|k: int| 0 <= k < stack@.len() implies reaches(
                        b,
                        start,
                        #[trigger] stack@[k],
                    ) by {
                        if k < base.len() {
                            assert(s1[k] == base[k]);
                            assert(s2[k] == base[k]);
                            assert(s3[k] == base[k]);
                            assert(s4[k] == base[k]);
                        }
                    }
                    // Closure is maintained.
                    assert forall|d: Coord, nb: Coord|
                        discovered.contains(d) && #[trigger] step_ok(b, d, nb) implies
                        discovered.contains(nb) || stack@.contains(nb) by {
                        if d == v {
                            let m = choose|m: Move| #[trigger] safe_map(b, v).dir(m) && nb
                                == move_dest(m, v);
                            match m {
                                Move::Up => assert(stack@.contains(upc)),
                                Move::Down => assert(stack@.contains(dnc)),
                                Move::Left => assert(stack@.contains(lfc)),
                                Move::Right => assert(stack@.contains(rtc)),
                            }
                        } else {
                            if !discovered.contains(nb) {
                                assert(prepop.contains(nb));
                                let k = choose|k: int| 0 <= k < prepop.len() && prepop[k] == nb;
                                if k < prepop.len() - 1 {
                                    assert(base[k] == nb);
                                    assert(base.contains(nb));
                                } else {
                                    assert(nb == v);
                                }
                            }
                        }
                    }
                    if !discovered.contains(start) {
                        assert(prepop.contains(start));
                        let k = choose|k: int| 0 <= k < prepop.len() && prepop[k] == start;
                        if k < prepop.len() - 1 {
                            assert(base[k] == start);
                            assert(base.contains(start));
                        }
                    }
                }
            } else {
                proof {
                    assert(discovered.contains(v));
                    assert forall|d: Coord, nb: Coord|
                        discovered.contains(d) && #[trigger] step_ok(b, d, nb) implies
                        discovered.contains(nb) || stack@.contains(nb) by {
                        if !discovered.contains(nb) {
                            assert(prepop.contains(nb));
                            let k = choose|k: int| 0 <= k < prepop.len() && prepop[k] == nb;
                            if k < prepop.len() - 1 {
                                assert(stack@[k] == nb);
                            } else {
                                assert(nb == v);
                            }
                        }
                    }
                    if !discovered.contains(start) {
                        let k = choose|k: int| 0 <= k < prepop.len() && prepop[k] == start;
                        if k < prepop.len() - 1 {
                            assert(stack@[k] == start);
                        }
                    }
                }
            }
        }
        proof {
            assert(discovered.contains(start));
            assert(closed_under_step(b, discovered));
            lemma_closed_covers_region(b, start, discovered);
            assert(region(b, start) =~= discovered);
            lemma_len_subset(discovered, board_cells(b.width as int, b.height as int));
        }
        area_size
    }
}

} // verus!
