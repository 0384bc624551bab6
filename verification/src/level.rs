//! A level: the units on a square grid and the cells that they block.

use vstd::prelude::*;
use crate::pos::Pos;

verus! {

/// The kinds of enemy.
pub enum EnemyType {
    Spider,
    Skeleton,
}

/// The attributes of one enemy.
pub struct Enemy {
    pub enemy_type: EnemyType,
    pub health: u8,
    pub range: u8,
    pub movement: u8,
    pub attack: u8,
    pub defense: u8,
}

/// The attributes of the player, with the modifiers currently applied to them.
pub struct Player {
    pub health: u8,
    pub range: u8,
    pub movement: u8,
    pub attack: u8,
    pub defense: u8,
    pub range_mod: u8,
    pub movement_mod: u8,
    pub attack_mod: u8,
    pub defense_mod: u8,
}

/// A square grid of `DIM` rows and `DIM` columns with its origin at the top left.
///
/// The cells in `enemy_pos` and `obstacles` and the cell `player_pos` are occupied:
/// no unit may step onto them. A position outside the grid occupies nothing.
pub struct Level<const DIM: u8> {
    pub enemies: Vec<Enemy>,
    pub enemy_pos: Vec<Pos>,
    pub player: Player,
    pub player_pos: Pos,
    pub obstacles: Vec<Pos>,
}

/// Whether `cell` is one of `cells`.
fn holds(cells: &Vec<Pos>, cell: Pos) -> (found: bool)
    ensures
        found == cells@.contains(cell),
{
    let mut i: usize = 0;
    while i < cells.len()
        invariant
            i <= cells.len(),
            forall|j: int| 0 <= j < i ==> cells@[j] != cell,
        decreases cells.len() - i,
    {
        if cells[i] == cell {
            return true;
        }
        i += 1;
    }
    false
}

impl<const DIM: u8> Level<DIM> {
    /// An enemy, an obstacle or the player stands on `cell`.
    pub open spec fn occupied(&self, cell: Pos) -> bool {
        ||| self.enemy_pos@.contains(cell)
        ||| self.obstacles@.contains(cell)
        ||| self.player_pos == cell
    }

    /// Whether an enemy, an obstacle or the player stands on `cell`.
    pub fn is_occupied(&self, cell: Pos) -> (blocked: bool)
        ensures
            blocked == self.occupied(cell),
    {
        holds(&self.enemy_pos, cell) || holds(&self.obstacles, cell) || self.player_pos == cell
    }
}

} // verus!
