//! Movement legality on a square grid: can a unit walk from one cell to another
//! within its movement budget, by orthogonal unit steps, without entering a cell
//! that an enemy, the player or an obstacle occupies?
//!
//! [`reachable_in`] answers the question by a breadth-first search. What the answer
//! means is defined in [`route`], independently of any search, and the laws that
//! follow from the definition are proved there.

pub mod level;
pub mod pos;
pub mod route;
pub mod search;

pub use level::{Enemy, EnemyType, Level, Player};
pub use pos::Pos;
pub use search::reachable_in;
