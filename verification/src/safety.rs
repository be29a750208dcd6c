//! The safety filter: which of the four moves from a source cell avoid an
//! immediate wall collision, a body collision, or a possible head-to-head
//! loss. The three checks run in a fixed order; the head-to-head step is
//! the one check whose effect is discarded when it would leave no move at
//! all.

use crate::model::{in_bounds, is_head, move_dest, occupied, Board, Coord, Move};
use vstd::prelude::*;

verus! {

/// For each direction, whether taking it is still considered safe.
/// A filter run starts from the all-true map and only narrows it,
/// except for the head-to-head fallback.
#[derive(Clone, Copy, PartialEq, Eq, Debug, Structural)]
pub struct SafetyMap {
    pub up: bool,
    pub down: bool,
    pub left: bool,
    pub right: bool,
}

impl SafetyMap {
    /// The entry of this map for direction `m`.
    pub open spec fn dir(self, m: Move) -> bool {
        match m {
            Move::Up => self.up,
            Move::Down => self.down,
            Move::Left => self.left,
            Move::Right => self.right,
        }
    }

    /// The map that allows every direction.
    pub open spec fn spec_full() -> SafetyMap {
        SafetyMap { up: true, down: true, left: true, right: true }
    }

    /// Whether at least one direction is still allowed.
    pub open spec fn spec_any(self) -> bool {
        self.up || self.down || self.left || self.right
    }

    /// Build the initial map with every direction allowed.
    pub fn full() -> (r: SafetyMap)
        ensures
            r == SafetyMap::spec_full(),
    {
        SafetyMap { up: true, down: true, left: true, right: true }
    }

    /// Whether at least one direction is still allowed.
    pub fn any_safe(&self) -> (r: bool)
        ensures
            r == self.spec_any(),
    {
        self.up || self.down || self.left || self.right
    }
}

/// The map after the bounds check from cell `c`: a direction is cleared
/// when the step would leave [0, width) x [0, height) along its own axis.
pub open spec fn after_bounds(b: Board, c: Coord, m: SafetyMap) -> SafetyMap {
    SafetyMap {
        up: m.up && !(c.y + 1 > b.height - 1),
        down: m.down && !(c.y - 1 < 0),
        left: m.left && !(c.x - 1 < 0),
        right: m.right && !(c.x + 1 > b.width - 1),
    }
}

/// Whether a step from `c` to `dest` lands on a snake body cell. The source
/// cell itself never counts as an obstacle: moving away from one's own
/// current position is legal.
pub open spec fn body_blocks(b: Board, c: Coord, dest: Coord) -> bool {
    occupied(b, dest) && dest != c
}

/// The map after the body-collision check from cell `c`.
pub open spec fn after_body(b: Board, c: Coord, m: SafetyMap) -> SafetyMap {
    SafetyMap {
        up: m.up && !body_blocks(b, c, move_dest(Move::Up, c)),
        down: m.down && !body_blocks(b, c, move_dest(Move::Down, c)),
        left: m.left && !body_blocks(b, c, move_dest(Move::Left, c)),
        right: m.right && !body_blocks(b, c, move_dest(Move::Right, c)),
    }
}

/// Whether some other snake's head could move onto `dest` next turn, so
/// that a step from `source` to `dest` risks a head-to-head collision.
pub open spec fn head_threat(b: Board, source: Coord, dest: Coord) -> bool {
    exists|h: Coord|
        #[trigger] is_head(b, h) && h != source && (exists|m2: Move| move_dest(m2, h) == dest)
}

/// The map after narrowing by the head-to-head check, before the fallback
/// is considered.
pub open spec fn narrow_heads(b: Board, c: Coord, m: SafetyMap) -> SafetyMap {
    SafetyMap {
        up: m.up && !head_threat(b, c, move_dest(Move::Up, c)),
        down: m.down && !head_threat(b, c, move_dest(Move::Down, c)),
        left: m.left && !head_threat(b, c, move_dest(Move::Left, c)),
        right: m.right && !head_threat(b, c, move_dest(Move::Right, c)),
    }
}

/// The map after the head-to-head check: the narrowed map, unless narrowing
/// left no direction at all, in which case the incoming map is restored
/// unchanged (better to risk a head-to-head than to have no legal move).
pub open spec fn after_heads(b: Board, c: Coord, m: SafetyMap) -> SafetyMap {
    if !narrow_heads(b, c, m).spec_any() {
        m
    } else {
        narrow_heads(b, c, m)
    }
}

/// The whole filter applied to an incoming map, in the fixed order
/// bounds, body, head-to-head.
pub open spec fn collision_filter(b: Board, c: Coord, m: SafetyMap) -> SafetyMap {
    after_heads(b, c, after_body(b, c, after_bounds(b, c, m)))
}

/// The safety map of cell `c`: the whole filter applied to the all-true map.
pub open spec fn safe_map(b: Board, c: Coord) -> SafetyMap {
    collision_filter(b, c, SafetyMap::spec_full())
}

/// The safety filter is deterministic: any two runs over the same board
/// and the same source cell, each started from the all-true map, produce
/// the same result. (Each run returns `collision_filter`, a function of
/// the board and the cell alone, so repeated invocations must agree.)
pub proof fn lemma_filter_deterministic(b: Board, c: Coord, m1: SafetyMap, m2: SafetyMap)
    requires
        m1 == collision_filter(b, c, SafetyMap::spec_full()),
        m2 == collision_filter(b, c, SafetyMap::spec_full()),
    ensures
        m1 == m2,
{
}

/// If the head-to-head check would rule out every direction, its effect is
/// discarded entirely: the filter returns the incoming map unchanged. This
/// is the one place where a narrowing of the safety map is reversed.
pub proof fn lemma_fallback_restore(b: Board, c: Coord, m: SafetyMap)
    requires
        !narrow_heads(b, c, m).spec_any(),
    ensures
        after_heads(b, c, m) == m,
{
}

impl Board {
    /// Whether any snake's body occupies cell `c`.
    pub fn is_occupied(&self, c: &Coord) -> (r: bool)
        ensures
            r == occupied(*self, *c),
    {
        let n = self.snakes.len();
        let mut i: usize = 0;
        while i < n
            invariant
                n == self.snakes@.len(),
                0 <= i <= n,
                forall|i2: int, j2: int|
                    0 <= i2 < i && 0 <= j2 < self.snakes@[i2].body@.len()
                        ==> #[trigger] self.snakes@[i2].body@[j2] != *c,
            decreases n - i,
        {
            let len = self.snakes[i].body.len();
            let mut j: usize = 0;
            while j < len
                invariant
                    n == self.snakes@.len(),
                    0 <= i < n,
                    len == self.snakes@[i as int].body@.len(),
                    0 <= j <= len,
                    forall|i2: int, j2: int|
                        0 <= i2 < i && 0 <= j2 < self.snakes@[i2].body@.len()
                            ==> #[trigger] self.snakes@[i2].body@[j2] != *c,
                    forall|j2: int|
                        0 <= j2 < j ==> #[trigger] self.snakes@[i as int].body@[j2] != *c,
                decreases len - j,
            {
                if self.snakes[i].body[j] == *c {
                    return true;
                }
                j += 1;
            }
            i += 1;
        }
        false
    }

    /// Whether some snake head other than `source` could move onto `dest`
    /// next turn.
    pub fn head_threatens(&self, source: &Coord, dest: &Coord) -> (r: bool)
        requires
            self.wf(),
        ensures
            r == head_threat(*self, *source, *dest),
    {
        let n = self.snakes.len();
        let mut i: usize = 0;
        while i < n
            invariant
                self.wf(),
                n == self.snakes@.len(),
                0 <= i <= n,
                forall|i2: int|
                    0 <= i2 < i ==> {
                        let h = #[trigger] self.snakes@[i2].body@[0];
                        h == *source || (forall|m2: Move| move_dest(m2, h) != *dest)
                    },
            decreases n - i,
        {
            let h = self.snakes[i].body[0];
            if h != *source {
                let up = Move::Up.get_coord(&h);
                let down = Move::Down.get_coord(&h);
                let left = Move::Left.get_coord(&h);
                let right = Move::Right.get_coord(&h);
                if *dest == up || *dest == down || *dest == left || *dest == right {
                    proof {
                        assert(is_head(*self, h));
                        if *dest == up {
                            assert(move_dest(Move::Up, h) == *dest);
                        } else if *dest == down {
                            assert(move_dest(Move::Down, h) == *dest);
                        } else if *dest == left {
                            assert(move_dest(Move::Left, h) == *dest);
                        } else {
                            assert(move_dest(Move::Right, h) == *dest);
                        }
                    }
                    return true;
                }
                proof {
                    assert forall|m2: Move| move_dest(m2, h) != *dest by {
                        match m2 {
                            Move::Up => assert(move_dest(Move::Up, h) == up),
                            Move::Down => assert(move_dest(Move::Down, h) == down),
                            Move::Left => assert(move_dest(Move::Left, h) == left),
                            Move::Right => assert(move_dest(Move::Right, h) == right),
                        }
                    }
                }
            }
            i += 1;
        }
        proof {
            assert forall|h: Coord|
                is_head(*self, h) && h != *source implies !(exists|m2: Move|
                move_dest(m2, h) == *dest) by {
                let i2 = choose|i2: int|
                    0 <= i2 < self.snakes@.len() && #[trigger] self.snakes@[i2].body@[0] == h;
                assert(self.snakes@[i2].body@[0] == h);
            }
        }
        false
    }
}

impl Coord {
    /// Clear every direction whose step from this cell would leave the
    /// board along its own axis.
    pub fn check_out_of_bounds(&self, board: &Board, input_moves: &mut SafetyMap)
        requires
            in_bounds(*board, *self),
        ensures
            *final(input_moves) == after_bounds(*board, *self, *old(input_moves)),
    {
        if self.x < 1 {
            input_moves.left = false;
        }
        if self.x >= board.width - 1 {
            input_moves.right = false;
        }
        if self.y < 1 {
            input_moves.down = false;
        }
        if self.y >= board.height - 1 {
            input_moves.up = false;
        }
    }

    /// Clear every still-allowed direction whose step from this cell lands
    /// on a snake body cell other than this cell itself.
    pub fn check_body_collision(&self, board: &Board, input_moves: &mut SafetyMap)
        requires
            in_bounds(*board, *self),
        ensures
            *final(input_moves) == after_body(*board, *self, *old(input_moves)),
    {
        if input_moves.up {
            let dest = Move::Up.get_coord(self);
            if board.is_occupied(&dest) && dest != *self {
                input_moves.up = false;
            }
        }
        if input_moves.down {
            let dest = Move::Down.get_coord(self);
            if board.is_occupied(&dest) && dest != *self {
                input_moves.down = false;
            }
        }
        if input_moves.left {
            let dest = Move::Left.get_coord(self);
            if board.is_occupied(&dest) && dest != *self {
                input_moves.left = false;
            }
        }
        if input_moves.right {
            let dest = Move::Right.get_coord(self);
            if board.is_occupied(&dest) && dest != *self {
                input_moves.right = false;
            }
        }
    }

    /// Clear every still-allowed direction whose destination some other
    /// snake's head could also reach next turn; if that would leave no
    /// direction at all, restore the incoming map instead.
    pub fn check_head_to_head_collisions(&self, board: &Board, input_moves: &mut SafetyMap)
        requires
            board.wf(),
            in_bounds(*board, *self),
        ensures
            *final(input_moves) == after_heads(*board, *self, *old(input_moves)),
    {
        let before = *input_moves;
        if input_moves.up {
            let dest = Move::Up.get_coord(self);
            if board.head_threatens(self, &dest) {
                input_moves.up = false;
            }
        }
        if input_moves.down {
            let dest = Move::Down.get_coord(self);
            if board.head_threatens(self, &dest) {
                input_moves.down = false;
            }
        }
        if input_moves.left {
            let dest = Move::Left.get_coord(self);
            if board.head_threatens(self, &dest) {
                input_moves.left = false;
            }
        }
        if input_moves.right {
            let dest = Move::Right.get_coord(self);
            if board.head_threatens(self, &dest) {
                input_moves.right = false;
            }
        }
        assert(*input_moves == narrow_heads(*board, *self, before));
        if !input_moves.any_safe() {
            *input_moves = before;
        }
    }

    /// The whole safety filter: bounds, body, head-to-head, in that order.
    /// The result is a function of the board, this cell and the incoming
    /// map alone, so repeated runs agree.
    pub fn check_collisions(&self, board: &Board, input_moves: &mut SafetyMap)
        requires
            board.wf(),
            in_bounds(*board, *self),
        ensures
            *final(input_moves) == collision_filter(*board, *self, *old(input_moves)),
    {
        self.check_out_of_bounds(board, input_moves);
        self.check_body_collision(board, input_moves);
        self.check_head_to_head_collisions(board, input_moves);
    }
}

} // verus!
