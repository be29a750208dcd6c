//! Decision engine for a grid snake game: per-turn safety filtering,
//! flood-fill area scoring, shortest-path search to food, and the
//! coordinator that combines them into one move.

pub mod area;
pub mod decide;
pub mod model;
pub mod path;
pub mod safety;

pub use decide::get_move;
pub use model::Battlesnake;
pub use model::Board;
pub use model::Coord;
pub use model::Move;
pub use safety::SafetyMap;
