//! The immutable per-turn snapshot of the game: cells, directions, snakes
//! and the board, together with the basic geometry queries (neighbour
//! cells, occupancy, Manhattan distance) that the rest of the engine
//! builds on.

use vstd::math::abs;
use vstd::prelude::*;

verus! {

/// A grid cell, addressed by integer coordinates. Off-board coordinates are
/// valid values; bounds are checked explicitly, never clamped.
#[derive(Clone, Copy, PartialEq, Eq, Hash, Debug, Structural)]
pub struct Coord {
    pub x: i32,
    pub y: i32,
}

/// One of the four cardinal moves.
#[derive(Clone, Copy, PartialEq, Eq, Hash, Debug, Structural)]
pub enum Move {
    Up,
    Right,
    Down,
    Left,
}

/// One snake of the snapshot. The first body cell is the head.
#[derive(Clone, Debug)]
pub struct Battlesnake {
    pub id: String,
    pub name: String,
    pub health: i32,
    pub body: Vec<Coord>,
    pub head: Coord,
    pub length: i32,
    pub latency: String,
    pub shout: Option<String>,
}

/// The board of one turn: dimensions, food and hazard cells, and every
/// snake on the board.
#[derive(Clone, Debug)]
pub struct Board {
    pub height: i32,
    pub width: i32,
    pub food: Vec<Coord>,
    pub snakes: Vec<Battlesnake>,
    pub hazards: Vec<Coord>,
}

/// The cell one step in direction `m` from `origin`, as the engine computes
/// it: a unit offset, truncating at the extreme ends of the integer range
/// (which every executable caller rules out).
pub open spec fn move_dest(m: Move, origin: Coord) -> Coord {
    match m {
        Move::Up => Coord { x: origin.x, y: (origin.y + 1) as i32 },
        Move::Down => Coord { x: origin.x, y: (origin.y - 1) as i32 },
        Move::Left => Coord { x: (origin.x - 1) as i32, y: origin.y },
        Move::Right => Coord { x: (origin.x + 1) as i32, y: origin.y },
    }
}

/// Manhattan distance between two cells.
pub open spec fn manhattan(a: Coord, b: Coord) -> int {
    abs(a.x - b.x) as int + abs(a.y - b.y) as int
}

/// Whether `c` lies on the board: inside [0, width) x [0, height).
pub open spec fn in_bounds(board: Board, c: Coord) -> bool {
    0 <= c.x < board.width && 0 <= c.y < board.height
}

/// Whether some snake's body occupies cell `c`.
pub open spec fn occupied(board: Board, c: Coord) -> bool {
    exists|i: int, j: int|
        0 <= i < board.snakes@.len() && 0 <= j < board.snakes@[i].body@.len()
            && #[trigger] board.snakes@[i].body@[j] == c
}

/// Whether cell `c` is some snake's head (the first body cell).
pub open spec fn is_head(board: Board, c: Coord) -> bool {
    exists|i: int| 0 <= i < board.snakes@.len() && #[trigger] board.snakes@[i].body@[0] == c
}

impl Board {
    /// Well-formedness of a snapshot, guaranteed by the transport layer:
    /// positive dimensions small enough for a cell grid to be addressed,
    /// no snake with an empty body, and every food, hazard and body cell
    /// on the board.
    pub open spec fn wf(&self) -> bool {
        &&& 1 <= self.width
        &&& 1 <= self.height
        &&& self.width * self.height <= i32::MAX
        &&& forall|i: int|
            0 <= i < self.snakes@.len() ==> #[trigger] self.snakes@[i].body@.len() >= 1
        &&& forall|i: int, j: int|
            0 <= i < self.snakes@.len() && 0 <= j < self.snakes@[i].body@.len()
                ==> in_bounds(*self, #[trigger] self.snakes@[i].body@[j])
        &&& forall|i: int| 0 <= i < self.food@.len() ==> in_bounds(*self, #[trigger] self.food@[i])
        &&& forall|i: int|
            0 <= i < self.hazards@.len() ==> in_bounds(*self, #[trigger] self.hazards@[i])
    }
}

/// The glyph drawn for cell `c` when only snakes from list index `i` on
/// are considered: the first snake whose body covers the cell draws 'h'
/// at its head and 'O' elsewhere; a cell no snake covers stays '_'.
pub open spec fn glyph_from(b: Board, c: Coord, i: int) -> char
    decreases b.snakes@.len() - i,
{
    if i < 0 || i >= b.snakes@.len() {
        '_'
    } else if exists|j: int| 0 <= j < b.snakes@[i].body@.len() && b.snakes@[i].body@[j] == c {
        if c == b.snakes@[i].body@[0] {
            'h'
        } else {
            'O'
        }
    } else {
        glyph_from(b, c, i + 1)
    }
}

/// The glyph the board drawing shows at cell `c`.
pub open spec fn glyph(b: Board, c: Coord) -> char {
    glyph_from(b, c, 0)
}

impl Board {
    /// The glyph the board drawing shows at cell `c`.
    pub fn cell_glyph(&self, c: &Coord) -> (r: char)
        ensures
            r == glyph(*self, *c),
    {
        let n = self.snakes.len();
        let mut i: usize = 0;
        while i < n
            invariant
                n == self.snakes@.len(),
                0 <= i <= n,
                glyph(*self, *c) == glyph_from(*self, *c, i as int),
            decreases n - i,
        {
            let len = self.snakes[i].body.len();
            let mut j: usize = 0;
            while j < len
                invariant
                    n == self.snakes@.len(),
                    0 <= i < n,
                    len == self.snakes@[i as int].body@.len(),
                    0 <= j <= len,
                    glyph(*self, *c) == glyph_from(*self, *c, i as int),
                    forall|j2: int|
                        0 <= j2 < j ==> #[trigger] self.snakes@[i as int].body@[j2] != *c,
                decreases len - j,
            {
                if self.snakes[i].body[j] == *c {
                    if *c == self.snakes[i].body[0] {
                        return 'h';
                    } else {
                        return 'O';
                    }
                }
                j += 1;
            }
            proof {
                assert(!(exists|j2: int|
                    0 <= j2 < self.snakes@[i as int].body@.len() && self.snakes@[i as int].body@[j2]
                        == *c));
            }
            i += 1;
        }
        '_'
    }

    /// All rows of the board drawing, the top row (greatest y) first.
    pub fn render(&self) -> (r: Vec<Vec<char>>)
        requires
            self.wf(),
        ensures
            r@.len() == self.height,
            forall|yi: int| 0 <= yi < self.height ==> #[trigger] r@[yi]@.len() == self.width,
            forall|yi: int, xi: int|
                0 <= yi < self.height && 0 <= xi < self.width ==> #[trigger] r@[yi]@[xi] == glyph(
                    *self,
                    (Coord { x: xi as i32, y: (self.height - 1 - yi) as i32 }),
                ),
    {
        let h = self.height as usize;
        let w = self.width as usize;
        let mut rows: Vec<Vec<char>> = Vec::new();
        let mut yi: usize = 0;
        while yi < h
            invariant
                self.wf(),
                h == self.height,
                w == self.width,
                0 <= yi <= h,
                rows@.len() == yi,
                forall|y2: int| 0 <= y2 < yi ==> #[trigger] rows@[y2]@.len() == self.width,
                forall|y2: int, xi: int|
                    0 <= y2 < yi && 0 <= xi < self.width ==> #[trigger] rows@[y2]@[xi] == glyph(
                        *self,
                        (Coord { x: xi as i32, y: (self.height - 1 - y2) as i32 }),
                    ),
            decreases h - yi,
        {
            let y: i32 = self.height - 1 - (yi as i32);
            let mut row: Vec<char> = Vec::new();
            let mut xi: usize = 0;
            while xi < w
                invariant
                    self.wf(),
                    h == self.height,
                    w == self.width,
                    0 <= yi < h,
                    y == self.height - 1 - yi,
                    0 <= xi <= w,
                    row@.len() == xi,
                    forall|x2: int|
                        0 <= x2 < xi ==> #[trigger] row@[x2] == glyph(
                            *self,
                            (Coord { x: x2 as i32, y: (self.height - 1 - yi) as i32 }),
                        ),
                decreases w - xi,
            {
                let c = Coord { x: xi as i32, y };
                row.push(self.cell_glyph(&c));
                xi += 1;
            }
            rows.push(row);
            yi += 1;
        }
        rows
    }
}

impl Move {
    /// The cell reached by taking this move from `origin`.
    pub fn get_coord(&self, origin: &Coord) -> (r: Coord)
        requires
            match *self {
                Move::Up => origin.y < i32::MAX,
                Move::Down => origin.y > i32::MIN,
                Move::Left => origin.x > i32::MIN,
                Move::Right => origin.x < i32::MAX,
            },
        ensures
            r == move_dest(*self, *origin),
    {
        match self {
            Move::Up => Coord { x: origin.x, y: origin.y + 1 },
            Move::Down => Coord { x: origin.x, y: origin.y - 1 },
            Move::Left => Coord { x: origin.x - 1, y: origin.y },
            Move::Right => Coord { x: origin.x + 1, y: origin.y },
        }
    }

    /// The lowercase wire name of this move.
    pub fn as_str(&self) -> (r: &'static str)
        ensures
            r@ == match *self {
                Move::Up => "up"@,
                Move::Down => "down"@,
                Move::Left => "left"@,
                Move::Right => "right"@,
            },
    {
        match self {
            Move::Up => "up",
            Move::Down => "down",
            Move::Left => "left",
            Move::Right => "right",
        }
    }
}

impl Coord {
    /// Manhattan distance to `other`.
    pub fn distance(&self, other: &Coord) -> (r: i32)
        requires
            manhattan(*self, *other) <= i32::MAX,
        ensures
            r == manhattan(*self, *other),
    {
        let dx: i32 = if self.x >= other.x {
            self.x - other.x
        } else {
            other.x - self.x
        };
        let dy: i32 = if self.y >= other.y {
            self.y - other.y
        } else {
            other.y - self.y
        };
        dx + dy
    }
}

impl Battlesnake {
    /// Whether two snakes have the same body, cell for cell.
    pub fn equals(&self, other: &Battlesnake) -> (r: bool)
        ensures
            r <==> self.body@ == other.body@,
    {
        if self.body.len() != other.body.len() {
            return false;
        }
        let n = self.body.len();
        let mut i: usize = 0;
        while i < n
            invariant
                n == self.body@.len(),
                n == other.body@.len(),
                0 <= i <= n,
                forall|k: int| 0 <= k < i ==> self.body@[k] == other.body@[k],
            decreases n - i,
        {
            if self.body[i] != other.body[i] {
                return false;
            }
            i += 1;
        }
        proof {
            assert(self.body@ =~= other.body@);
        }
        true
    }

    /// Advance this snake one step in `next_move`: the new head is
    /// prepended and the tail cell is dropped, so the length is kept.
    pub fn get_future_snake(&mut self, next_move: &Move)
        requires
            old(self).body@.len() >= 1,
            match *next_move {
                Move::Up => old(self).head.y < i32::MAX,
                Move::Down => old(self).head.y > i32::MIN,
                Move::Left => old(self).head.x > i32::MIN,
                Move::Right => old(self).head.x < i32::MAX,
            },
        ensures
            final(self).head == move_dest(*next_move, old(self).head),
            final(self).body@ == seq![move_dest(*next_move, old(self).head)].add(
                old(self).body@.drop_last(),
            ),
            final(self).id == old(self).id,
            final(self).name == old(self).name,
            final(self).health == old(self).health,
            final(self).length == old(self).length,
            final(self).latency == old(self).latency,
            final(self).shout == old(self).shout,
    {
        let new_head_pos = next_move.get_coord(&self.head);
        let mut new_body: Vec<Coord> = Vec::new();
        new_body.push(new_head_pos);
        let keep = self.body.len() - 1;
        self.body.truncate(keep);
        new_body.append(&mut self.body);
        self.head = new_head_pos;
        self.body = new_body;
        proof {
            assert(self.body@ =~= seq![move_dest(*next_move, old(self).head)].add(
                old(self).body@.drop_last(),
            ));
        }
    }
}

} // verus!
