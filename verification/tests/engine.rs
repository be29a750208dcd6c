use battlerat::{get_move, Battlesnake, Board, Coord, Move, SafetyMap};

fn c(x: i32, y: i32) -> Coord {
    Coord { x, y }
}

fn snake(id: &str, body: Vec<Coord>) -> Battlesnake {
    let head = body[0];
    let length = body.len() as i32;
    Battlesnake {
        id: id.to_string(),
        name: id.to_string(),
        health: 100,
        body,
        head,
        length,
        latency: "0".to_string(),
        shout: None,
    }
}

fn board(width: i32, height: i32, food: Vec<Coord>, snakes: Vec<Battlesnake>) -> Board {
    Board {
        height,
        width,
        food,
        snakes,
        hazards: vec![],
    }
}

#[test]
fn get_coord_unit_offsets() {
    let origin = c(3, 4);
    assert_eq!(Move::Up.get_coord(&origin), c(3, 5));
    assert_eq!(Move::Down.get_coord(&origin), c(3, 3));
    assert_eq!(Move::Left.get_coord(&origin), c(2, 4));
    assert_eq!(Move::Right.get_coord(&origin), c(4, 4));
}

#[test]
fn move_labels() {
    assert_eq!(Move::Up.as_str(), "up");
    assert_eq!(Move::Down.as_str(), "down");
    assert_eq!(Move::Left.as_str(), "left");
    assert_eq!(Move::Right.as_str(), "right");
}

#[test]
fn distance_is_manhattan() {
    assert_eq!(c(0, 0).distance(&c(10, 10)), 20);
    assert_eq!(c(3, 7).distance(&c(5, 2)), 7);
    assert_eq!(c(4, 4).distance(&c(4, 4)), 0);
    assert_eq!(c(5, 1).distance(&c(2, 1)), 3);
}

#[test]
fn snake_equals_compares_bodies() {
    let a = snake("a", vec![c(1, 1), c(1, 2)]);
    let b = snake("b", vec![c(1, 1), c(1, 2)]);
    let d = snake("d", vec![c(1, 1), c(2, 1)]);
    assert!(a.equals(&b));
    assert!(!a.equals(&d));
    let shorter = snake("s", vec![c(1, 1)]);
    assert!(!a.equals(&shorter));
}

#[test]
fn future_snake_shifts_body() {
    let mut s = snake("a", vec![c(2, 2), c(2, 1), c(3, 1)]);
    s.get_future_snake(&Move::Up);
    assert_eq!(s.head, c(2, 3));
    assert_eq!(s.body, vec![c(2, 3), c(2, 2), c(2, 1)]);
    assert_eq!(s.health, 100);
}

/// Bounds check at the corner: Left and Down must be cleared, Up and
/// Right must remain.
#[test]
fn corner_bounds_filter() {
    let b = board(11, 11, vec![], vec![snake("you", vec![c(0, 0)])]);
    let mut map = SafetyMap::full();
    c(0, 0).check_out_of_bounds(&b, &mut map);
    assert!(map.up);
    assert!(map.right);
    assert!(!map.down);
    assert!(!map.left);
}

/// The full filter at the corner agrees with the bounds check when no
/// other snake is near.
#[test]
fn corner_full_filter() {
    let b = board(11, 11, vec![], vec![snake("you", vec![c(0, 0)])]);
    let mut map = SafetyMap::full();
    c(0, 0).check_collisions(&b, &mut map);
    assert!(map.up && map.right && !map.down && !map.left);
}

/// Repeated runs of the filter on the same board and cell agree.
#[test]
fn filter_deterministic() {
    let b = board(
        11,
        11,
        vec![],
        vec![snake("you", vec![c(2, 2), c(2, 3)]), snake("other", vec![c(4, 2)])],
    );
    let mut first = SafetyMap::full();
    c(2, 2).check_collisions(&b, &mut first);
    let mut second = SafetyMap::full();
    c(2, 2).check_collisions(&b, &mut second);
    assert_eq!(first, second);
}

/// Body cells block a move, but the source cell itself never does.
#[test]
fn body_collision_blocks() {
    let b = board(11, 11, vec![], vec![snake("you", vec![c(5, 5), c(5, 6)])]);
    let mut map = SafetyMap::full();
    c(5, 5).check_body_collision(&b, &mut map);
    assert!(!map.up);
    assert!(map.down && map.left && map.right);
}

/// A cell both heads could enter is cleared for a snake that still has
/// another way out.
#[test]
fn head_to_head_contested_cell_cleared() {
    let b = board(
        11,
        11,
        vec![],
        vec![snake("a", vec![c(2, 2)]), snake("b", vec![c(4, 2)])],
    );
    let mut map = SafetyMap::full();
    c(2, 2).check_collisions(&b, &mut map);
    // (3, 2) is reachable by b's head next turn
    assert!(!map.right);
    assert!(map.up && map.down && map.left);
}

/// When head-to-head checks would clear every direction, their effect is
/// discarded and the map after the body check comes back.
#[test]
fn head_to_head_fallback_restores() {
    let b = board(
        11,
        11,
        vec![],
        vec![snake("a", vec![c(0, 0)]), snake("b", vec![c(1, 1)])],
    );
    let mut map = SafetyMap::full();
    c(0, 0).check_collisions(&b, &mut map);
    // b's head reaches both (0, 1) and (1, 0); the fallback restores them
    assert!(map.up && map.right);
    assert!(!map.down && !map.left);
}

/// Empty 11x11 board, head at the centre: all four directions are safe
/// and every direction scores the same area.
#[test]
fn centre_all_safe_equal_areas() {
    let b = board(11, 11, vec![], vec![snake("you", vec![c(5, 5)])]);
    let mut map = SafetyMap::full();
    c(5, 5).check_collisions(&b, &mut map);
    assert!(map.up && map.down && map.left && map.right);
    let up = c(5, 6).floodfill(&b);
    let down = c(5, 4).floodfill(&b);
    let left = c(4, 5).floodfill(&b);
    let right = c(6, 5).floodfill(&b);
    // 121 cells, minus the head cell, minus the three other cells next to
    // the head, which the head-to-head check walls off
    assert_eq!(up, 117);
    assert_eq!(down, 117);
    assert_eq!(left, 117);
    assert_eq!(right, 117);
}

/// Every area score stays within the number of board cells.
#[test]
fn area_score_bounded() {
    let b = board(11, 11, vec![], vec![snake("you", vec![c(5, 5)])]);
    let a = c(5, 6).floodfill(&b);
    assert!(0 <= a && a <= 121);
    let tiny = board(2, 2, vec![], vec![snake("you", vec![c(0, 0)])]);
    let t = c(0, 1).floodfill(&tiny);
    assert!(0 <= t && t <= 4);
}

/// A flood fill started on a snake body cell counts nothing.
#[test]
fn area_score_blocked_start() {
    let b = board(11, 11, vec![], vec![snake("you", vec![c(5, 5)])]);
    assert_eq!(c(5, 5).floodfill(&b), 0);
}

/// Adding an obstacle cell never increases an area score.
#[test]
fn area_score_obstacle_monotone() {
    let sparse = board(11, 11, vec![], vec![snake("you", vec![c(5, 5)])]);
    let dense = board(11, 11, vec![], vec![snake("you", vec![c(5, 5), c(5, 7)])]);
    let before = c(5, 6).floodfill(&sparse);
    let after = c(5, 6).floodfill(&dense);
    assert!(after <= before);
    assert_eq!(before, 117);
    assert_eq!(after, 116);
}

/// Straight shot across an empty board: the path has Manhattan distance
/// plus one cells and closes in on the goal at every step.
#[test]
fn path_across_empty_board() {
    let b = board(11, 11, vec![c(10, 10)], vec![snake("you", vec![c(0, 0)])]);
    let p = b
        .find_path(&c(0, 0), &c(10, 10))
        .expect("an empty board has a route");
    assert_eq!(p.len(), 21);
    assert_eq!(p[0], c(0, 0));
    assert_eq!(p[20], c(10, 10));
    for i in 0..p.len() {
        assert!(0 <= p[i].x && p[i].x < 11 && 0 <= p[i].y && p[i].y < 11);
        if i > 0 {
            assert_eq!(p[i - 1].distance(&p[i]), 1);
            assert!(p[i] != c(0, 0));
            // the heuristic distance falls by one at every step
            assert_eq!(p[i].distance(&c(10, 10)), p[i - 1].distance(&c(10, 10)) - 1);
        }
    }
}

/// A wall of snake body across the whole board makes the goal unreachable.
#[test]
fn path_walled_off() {
    let wall: Vec<Coord> = (0..11).map(|x| c(x, 5)).collect();
    let b = board(11, 11, vec![], vec![snake("wall", wall)]);
    assert!(b.find_path(&c(0, 0), &c(10, 10)).is_none());
}

/// A one-row board: the path runs straight along it.
#[test]
fn path_along_row() {
    let b = board(5, 1, vec![], vec![snake("you", vec![c(0, 0)])]);
    let p = b.find_path(&c(0, 0), &c(4, 0)).expect("row is open");
    assert_eq!(p.len(), 5);
    assert_eq!(p[0], c(0, 0));
    assert_eq!(p[4], c(4, 0));
}

/// No direction is safe on a one-cell board: the fixed default comes back.
#[test]
fn no_safe_direction_defaults_down() {
    let b = board(1, 1, vec![], vec![snake("you", vec![c(0, 0)])]);
    let you = snake("you", vec![c(0, 0)]);
    assert_eq!(get_move(&b, &you), Move::Down);
}

/// One side of the board is far roomier: the move goes there.
#[test]
fn roomier_side_wins() {
    let you = snake("you", vec![c(1, 0), c(1, 1)]);
    let b = board(11, 2, vec![], vec![you.clone()]);
    assert_eq!(get_move(&b, &you), Move::Right);
}

/// Only one direction is safe: the random fallback has a single choice.
#[test]
fn single_safe_direction_is_taken() {
    let you = snake("you", vec![c(1, 0), c(2, 0)]);
    let b = board(5, 1, vec![], vec![you.clone()]);
    assert_eq!(get_move(&b, &you), Move::Left);
}

/// Equal areas everywhere and food in one corner: the move starts a path
/// toward the food.
#[test]
fn tie_broken_toward_food() {
    let you = snake("you", vec![c(5, 5)]);
    let b = board(11, 11, vec![c(10, 10)], vec![you.clone()]);
    let m = get_move(&b, &you);
    assert!(m == Move::Up || m == Move::Right);
}

/// Equal areas and no food at all: the move is one of the safe choices.
#[test]
fn tie_without_food_stays_safe() {
    let you = snake("you", vec![c(5, 5)]);
    let b = board(11, 11, vec![], vec![you.clone()]);
    let m = get_move(&b, &you);
    assert!(m == Move::Up || m == Move::Down || m == Move::Left || m == Move::Right);
}

/// The board drawing marks the head, the body and empty cells.
#[test]
fn render_marks_snake() {
    let b = board(2, 2, vec![], vec![snake("you", vec![c(0, 0), c(1, 0)])]);
    let rows = b.render();
    assert_eq!(rows.len(), 2);
    // top row is y = 1
    assert_eq!(rows[0], vec!['_', '_']);
    assert_eq!(rows[1], vec!['h', 'O']);
}

/// The glyph of a single cell follows the first snake that covers it.
#[test]
fn cell_glyph_classifies() {
    let b = board(3, 3, vec![], vec![snake("you", vec![c(1, 1), c(1, 0)])]);
    assert_eq!(b.cell_glyph(&c(1, 1)), 'h');
    assert_eq!(b.cell_glyph(&c(1, 0)), 'O');
    assert_eq!(b.cell_glyph(&c(0, 0)), '_');
}
