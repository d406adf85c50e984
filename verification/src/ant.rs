//! Colonies, scent markers, pheromones, and the ant agent with its local
//! reorientation and movement logic.

use vstd::prelude::*;

use crate::formica::AntState;
use crate::grid::{spec_neighbor, step_safe, Coord, Direction, Grid};
use crate::world::Cell;

verus! {

/// A small numeric identifier grouping ants and nest ownership.
#[derive(Debug, PartialEq, Eq, Hash, Copy, Clone, Structural)]
pub struct Colony(pub u32);

/// A small numeric identifier carried by a pheromone marker.
#[derive(Debug, PartialEq, Eq, Hash, Copy, Clone, Structural)]
pub struct Scent(pub u8);

/// The character a scent renders as: one of the 26 lowercase letters.
pub open spec fn spec_scent_ascii(s: Scent) -> char {
    (((s.0 % 26) + 97) as u8) as char
}

impl Scent {
    /// Render this scent as one lowercase letter for a console view.
    pub fn to_ascii(&self) -> (c: char)
        ensures
            c == spec_scent_ascii(*self),
    {
        let v: u8 = (self.0 % 26) + 97;
        v as char
    }
}

/// A scent marker together with the colony that deposited it.  At most one
/// pheromone occupies a cell at a time.
#[derive(Debug, PartialEq, Eq, Hash, Copy, Clone, Structural)]
pub struct Pheromone {
    pub scent: Scent,
    pub colony: Colony,
}

impl Pheromone {
    pub fn new(scent: Scent, colony: Colony) -> (p: Pheromone)
        ensures
            p == (Pheromone { scent, colony }),
    {
        Pheromone { scent, colony }
    }
}

/// The facing after one left (counter-clockwise) turn.
pub open spec fn spec_turn_left(d: Direction) -> Direction {
    match d {
        Direction::North => Direction::NorthWest,
        Direction::NorthEast => Direction::North,
        Direction::SouthEast => Direction::NorthEast,
        Direction::South => Direction::SouthEast,
        Direction::SouthWest => Direction::South,
        Direction::NorthWest => Direction::SouthWest,
    }
}

/// The facing after one right (clockwise) turn.
pub open spec fn spec_turn_right(d: Direction) -> Direction {
    match d {
        Direction::North => Direction::NorthEast,
        Direction::NorthEast => Direction::SouthEast,
        Direction::SouthEast => Direction::South,
        Direction::South => Direction::SouthWest,
        Direction::SouthWest => Direction::NorthWest,
        Direction::NorthWest => Direction::North,
    }
}

/// Turning left and turning right are exact inverses of each other.
pub proof fn lemma_turns_inverse(d: Direction)
    ensures
        spec_turn_left(spec_turn_right(d)) == d,
        spec_turn_right(spec_turn_left(d)) == d,
{
}

/// Six left turns — or six right turns — return the facing to its original
/// value.
pub proof fn lemma_six_turns_identity(d: Direction)
    ensures
        spec_turn_left(
            spec_turn_left(
                spec_turn_left(spec_turn_left(spec_turn_left(spec_turn_left(d)))),
            ),
        ) == d,
        spec_turn_right(
            spec_turn_right(
                spec_turn_right(spec_turn_right(spec_turn_right(spec_turn_right(d)))),
            ),
        ) == d,
{
}

/// `x + 1` clamped to the `u32` range.
pub open spec fn spec_inc_sat(x: u32) -> u32 {
    if x == u32::MAX {
        u32::MAX
    } else {
        (x + 1) as u32
    }
}

/// One ant: its colony, position, carried food, facing, and execution state
/// (program counter and flag register).
#[derive(Debug, PartialEq, Eq, Copy, Clone, Structural)]
pub struct Ant {
    pub colony: Colony,
    pub coord: Coord,
    pub food: u32,
    pub facing: Direction,
    pub state: AntState,
}

impl Ant {
    /// A new ant at `coord`, facing North, carrying nothing, with its
    /// program counter and flag at zero.
    pub fn new(colony: Colony, coord: Coord) -> (a: Ant)
        ensures
            a == (Ant {
                colony,
                coord,
                food: 0,
                facing: Direction::North,
                state: AntState { pc: 0, flag: 0 },
            }),
    {
        Ant { colony, coord, food: 0, facing: Direction::North, state: AntState { pc: 0, flag: 0 } }
    }

    /// Rotate one step counter-clockwise; nothing else changes.
    pub fn turn_left(&mut self)
        ensures
            *final(self) == (Ant { facing: spec_turn_left(old(self).facing), ..*old(self) }),
    {
        self.facing = match self.facing {
            Direction::North => Direction::NorthWest,
            Direction::NorthEast => Direction::North,
            Direction::SouthEast => Direction::NorthEast,
            Direction::South => Direction::SouthEast,
            Direction::SouthWest => Direction::South,
            Direction::NorthWest => Direction::SouthWest,
        };
    }

    /// Rotate one step clockwise; nothing else changes.
    pub fn turn_right(&mut self)
        ensures
            *final(self) == (Ant { facing: spec_turn_right(old(self).facing), ..*old(self) }),
    {
        self.facing = match self.facing {
            Direction::North => Direction::NorthEast,
            Direction::NorthEast => Direction::SouthEast,
            Direction::SouthEast => Direction::South,
            Direction::South => Direction::SouthWest,
            Direction::SouthWest => Direction::NorthWest,
            Direction::NorthWest => Direction::North,
        };
    }

    /// The character an ant renders as in a console view.
    pub fn to_ascii(&self) -> (c: char)
        ensures
            c == '@',
    {
        '@'
    }

    /// Attempt to move one step in the current facing direction.
    ///
    /// Succeeds — and updates the position — only when the neighboring
    /// coordinate exists in the grid and is not an obstacle; otherwise the
    /// position is unchanged.  Returns whether the move happened.
    pub fn advance(&mut self, grid: &Grid<Cell>) -> (moved: bool)
        requires
            grid.wf(),
            step_safe(old(self).coord),
        ensures
            ({
                let nb = spec_neighbor(old(self).coord, old(self).facing);
                if grid@.dom().contains(nb) && !grid@[nb].is_obstacle {
                    moved && *final(self) == (Ant { coord: nb, ..*old(self) })
                } else {
                    !moved && *final(self) == *old(self)
                }
            }),
    {
        let nb = grid.get_neighbor(&self.coord, &self.facing);
        match grid.get(&nb) {
            Some(cell) => {
                if cell.is_obstacle {
                    false
                } else {
                    self.coord = nb;
                    true
                }
            },
            None => false,
        }
    }

    /// Attempt to pick up one unit of food from the cell the ant stands on.
    ///
    /// Succeeds only when that cell exists and holds food; the cell's count
    /// goes down by one and the carried count up by one (saturating).
    pub fn pickup(&mut self, grid: &mut Grid<Cell>) -> (ok: bool)
        requires
            old(grid).wf(),
        ensures
            final(grid).wf(),
            ({
                let c = old(self).coord;
                if old(grid)@.dom().contains(c) && old(grid)@[c].food > 0 {
                    let cell = old(grid)@[c];
                    ok && *final(self) == (Ant { food: spec_inc_sat(old(self).food), ..*old(self) })
                        && final(grid)@ == old(grid)@.insert(
                        c,
                        Cell { food: (cell.food - 1) as u32, ..cell },
                    )
                } else {
                    !ok && *final(self) == *old(self) && final(grid)@ == old(grid)@
                }
            }),
    {
        let here: Option<Cell> = match grid.get(&self.coord) {
            Some(c) => Some(*c),
            None => None,
        };
        match here {
            Some(cell) => {
                if cell.food > 0 {
                    grid.set(self.coord, Cell { food: cell.food - 1, ..cell });
                    self.food = if self.food == u32::MAX {
                        u32::MAX
                    } else {
                        self.food + 1
                    };
                    true
                } else {
                    false
                }
            },
            None => false,
        }
    }

    /// Attempt to drop one unit of carried food onto the cell the ant stands
    /// on.
    ///
    /// Succeeds only when the ant carries food and the cell exists; the
    /// carried count goes down by one and the cell's count up by one
    /// (saturating).
    pub fn drop_food(&mut self, grid: &mut Grid<Cell>) -> (ok: bool)
        requires
            old(grid).wf(),
        ensures
            final(grid).wf(),
            ({
                let c = old(self).coord;
                if old(self).food > 0 && old(grid)@.dom().contains(c) {
                    let cell = old(grid)@[c];
                    ok && *final(self) == (Ant {
                        food: (old(self).food - 1) as u32,
                        ..*old(self)
                    }) && final(grid)@ == old(grid)@.insert(
                        c,
                        Cell { food: spec_inc_sat(cell.food), ..cell },
                    )
                } else {
                    !ok && *final(self) == *old(self) && final(grid)@ == old(grid)@
                }
            }),
    {
        if self.food == 0 {
            return false;
        }
        let here: Option<Cell> = match grid.get(&self.coord) {
            Some(c) => Some(*c),
            None => None,
        };
        match here {
            Some(cell) => {
                let new_food = if cell.food == u32::MAX {
                    u32::MAX
                } else {
                    cell.food + 1
                };
                grid.set(self.coord, Cell { food: new_food, ..cell });
                self.food = self.food - 1;
                true
            },
            None => false,
        }
    }
}

} // verus!
