//! Per-cell environment state and the world that owns the grid, the ants and
//! the shared program.

use vstd::prelude::*;

use crate::ant::{Ant, Colony, Pheromone, Scent};
use crate::formica::{step_one, run_instruction, Instruction};
use crate::grid::{in_radius, step_safe, Coord, Grid};

verus! {

/// Environment state of one grid cell: optional nest owner, obstacle flag,
/// food count and at most one pheromone marker.
#[derive(Debug, Clone, Copy, PartialEq, Eq)]
pub struct Cell {
    pub nest: Option<Colony>,
    pub is_obstacle: bool,
    pub food: u32,
    pub pheromone: Option<Pheromone>,
}

/// The cell every grid position starts from: empty ground.
pub open spec fn spec_empty_cell() -> Cell {
    Cell { nest: None, is_obstacle: false, food: 0, pheromone: None }
}

impl Default for Cell {
    /// Empty ground: no nest, no obstacle, no food, no pheromone.
    fn default() -> (c: Cell)
        ensures
            c == spec_empty_cell(),
    {
        Cell { nest: None, is_obstacle: false, food: 0, pheromone: None }
    }
}

/// The character a cell renders as, by priority: obstacle, food, nest,
/// pheromone scent, empty ground.
pub open spec fn spec_cell_ascii(c: Cell) -> char {
    if c.is_obstacle {
        '#'
    } else if c.food > 0 {
        '*'
    } else if c.nest is Some {
        'N'
    } else if c.pheromone is Some {
        crate::ant::spec_scent_ascii(c.pheromone->0.scent)
    } else {
        '_'
    }
}

impl Cell {
    /// Render this cell as one character for a console view.
    pub fn to_ascii(&self) -> (r: char)
        ensures
            r == spec_cell_ascii(*self),
    {
        if self.is_obstacle {
            '#'
        } else if self.food > 0 {
            '*'
        } else if self.nest.is_some() {
            'N'
        } else if let Some(p) = self.pheromone {
            p.scent.to_ascii()
        } else {
            '_'
        }
    }
}

/// `a + b` clamped to the `u32` range.
pub open spec fn spec_add_sat(a: u32, b: u32) -> u32 {
    if a + b > u32::MAX {
        u32::MAX
    } else {
        (a + b) as u32
    }
}

/// `a - b` clamped to zero.
pub open spec fn spec_sub_sat(a: u32, b: u32) -> u32 {
    if a >= b {
        (a - b) as u32
    } else {
        0
    }
}

/// Index of the first ant (in insertion order) standing at `c`, if any.
pub open spec fn spec_ant_index_at(ants: Seq<Ant>, c: Coord) -> Option<int>
    decreases ants.len(),
{
    if ants.len() == 0 {
        None
    } else if ants[0].coord == c {
        Some(0)
    } else {
        match spec_ant_index_at(ants.drop_first(), c) {
            Some(i) => Some(i + 1),
            None => None,
        }
    }
}

/// The first index at `c` is the unique index whose predecessors all stand
/// elsewhere.
proof fn lemma_ant_index_first(ants: Seq<Ant>, c: Coord, i: int)
    requires
        0 <= i < ants.len(),
        ants[i].coord == c,
        forall|j: int| 0 <= j < i ==> (#[trigger] ants[j]).coord != c,
    ensures
        spec_ant_index_at(ants, c) == Some(i),
    decreases i,
{
    if i == 0 {
    } else {
        assert(ants[0].coord != c);
        let d = ants.drop_first();
        assert(d[i - 1].coord == c);
        assert forall|j: int| 0 <= j < i - 1 implies (#[trigger] d[j]).coord != c by {
            assert(ants[j + 1].coord != c);
        }
        lemma_ant_index_first(d, c, i - 1);
    }
}

/// When no ant stands at `c`, there is no first index.
proof fn lemma_ant_index_none(ants: Seq<Ant>, c: Coord)
    requires
        forall|j: int| 0 <= j < ants.len() ==> (#[trigger] ants[j]).coord != c,
    ensures
        spec_ant_index_at(ants, c) is None,
    decreases ants.len(),
{
    if ants.len() > 0 {
        let d = ants.drop_first();
        assert forall|j: int| 0 <= j < d.len() implies (#[trigger] d[j]).coord != c by {
            assert(ants[j + 1].coord != c);
        }
        lemma_ant_index_none(d, c);
    }
}

/// One tick, truncated: the grid contents and ant states after the first
/// `k` ants (in insertion order) have each executed one instruction.
/// `None` when any of those steps hit the out-of-bounds condition.
pub open spec fn run_ants(
    p: Seq<Instruction>,
    g: Map<Coord, Cell>,
    ants: Seq<Ant>,
    k: int,
) -> Option<(Map<Coord, Cell>, Seq<Ant>)>
    decreases k,
{
    if k <= 0 {
        Some((g, ants))
    } else {
        match run_ants(p, g, ants, k - 1) {
            None => None,
            Some(st) => match step_one(p, st.0, st.1[k - 1]) {
                None => None,
                Some(st2) => Some((st2.0, st.1.update(k - 1, st2.1))),
            },
        }
    }
}

/// One interpreter step keeps the grid's coordinate set equal to the
/// hexagonal disc and leaves the ant at a coordinate where one further step
/// cannot overflow.
proof fn lemma_step_one_preserves(
    p: Seq<Instruction>,
    g: Map<Coord, Cell>,
    a: Ant,
    n: int,
)
    requires
        step_one(p, g, a) is Some,
        step_safe(a.coord),
        0 <= n <= 1_000_000_000,
        forall|c: Coord| g.dom().contains(c) <==> in_radius(c, n),
    ensures
        forall|c: Coord| (step_one(p, g, a)->0).0.dom().contains(c) <==> in_radius(c, n),
        step_safe((step_one(p, g, a)->0).1.coord),
{
    let st = step_one(p, g, a)->0;
    match p[a.state.pc as int] {
        Instruction::Advance => {
            let nb = crate::grid::spec_neighbor(a.coord, a.facing);
            if g.dom().contains(nb) && !g[nb].is_obstacle {
                assert(in_radius(nb, n));
                assert(step_safe(st.1.coord));
            } else {
                assert(st.1.coord == a.coord);
            }
        },
        _ => {
            assert(st.1.coord == a.coord);
        },
    }
}

/// The world: grid radius, the grid of cells, the ordered ant collection and
/// the one shared program all ants execute.
#[derive(Debug)]
pub struct World {
    pub size: u32,
    pub grid: Grid<Cell>,
    pub ants: Vec<Ant>,
    pub program: Vec<Instruction>,
}

/// The fatal out-of-bounds condition surfaced by a tick: ant `ant` tried to
/// fetch at program counter `pc`, at or beyond the program length.
#[derive(Debug, PartialEq, Eq, Copy, Clone, Structural)]
pub struct TickError {
    pub ant: usize,
    pub pc: u32,
}

impl World {
    /// Well-formedness: the grid reads as a map whose coordinate set is
    /// exactly the hexagonal disc of radius `size`, the program addresses
    /// fit the program counter, and every ant stands where one step cannot
    /// overflow.  Constructors establish this and every method preserves it.
    pub open spec fn wf(self) -> bool {
        &&& self.grid.wf()
        &&& self.size <= 1_000_000_000
        &&& forall|c: Coord|
            self.grid@.dom().contains(c) <==> in_radius(c, self.size as int)
        &&& self.program@.len() <= u32::MAX
        &&& forall|i: int| 0 <= i < self.ants@.len() ==> step_safe((#[trigger] self.ants@[i]).coord)
    }

    /// A world of radius `size` with every cell empty, no ants, and the
    /// given shared program.
    pub fn new(size: u32, program: Vec<Instruction>) -> (w: World)
        requires
            size <= 1_000_000_000,
            program@.len() <= u32::MAX,
        ensures
            w.wf(),
            w.size == size,
            w.program@ == program@,
            w.ants@ =~= Seq::<Ant>::empty(),
            forall|c: Coord| w.grid@.dom().contains(c) <==> in_radius(c, size as int),
            forall|c: Coord| in_radius(c, size as int) ==> w.grid@[c] == spec_empty_cell(),
            w.grid.cells@.len() == 3 * (size as int) * (size as int) + 3 * (size as int) + 1,
    {
        let grid = Grid::new(
            size,
            Cell { nest: None, is_obstacle: false, food: 0, pheromone: None },
        );
        World { size, grid, ants: Vec::new(), program }
    }

    /// Append an ant to the world; no duplicate or occupancy check.
    pub fn add_ant(&mut self, ant: Ant)
        requires
            old(self).wf(),
            step_safe(ant.coord),
        ensures
            final(self).wf(),
            *final(self) == (World { ants: final(self).ants, ..*old(self) }),
            final(self).ants@ == old(self).ants@.push(ant),
    {
        self.ants.push(ant);
    }

    /// Flag the cell at `coord` as an obstacle; a no-op when `coord` is
    /// outside the grid.
    pub fn add_obstacle(&mut self, coord: Coord)
        requires
            old(self).wf(),
        ensures
            final(self).wf(),
            *final(self) == (World { grid: final(self).grid, ..*old(self) }),
            final(self).grid@ == if old(self).grid@.dom().contains(coord) {
                old(self).grid@.insert(
                    coord,
                    Cell { is_obstacle: true, ..old(self).grid@[coord] },
                )
            } else {
                old(self).grid@
            },
    {
        let here: Option<Cell> = match self.grid.get(&coord) {
            Some(c) => Some(*c),
            None => None,
        };
        if let Some(cell) = here {
            self.grid.set(coord, Cell { is_obstacle: true, ..cell });
        }
    }

    /// Add `amount` units of food (saturating) to the cell at `coord`; a
    /// no-op when `coord` is outside the grid.
    pub fn add_food(&mut self, coord: Coord, amount: u32)
        requires
            old(self).wf(),
        ensures
            final(self).wf(),
            *final(self) == (World { grid: final(self).grid, ..*old(self) }),
            final(self).grid@ == if old(self).grid@.dom().contains(coord) {
                old(self).grid@.insert(
                    coord,
                    Cell {
                        food: spec_add_sat(old(self).grid@[coord].food, amount),
                        ..old(self).grid@[coord]
                    },
                )
            } else {
                old(self).grid@
            },
    {
        let here: Option<Cell> = match self.grid.get(&coord) {
            Some(c) => Some(*c),
            None => None,
        };
        if let Some(cell) = here {
            let f = if cell.food > u32::MAX - amount {
                u32::MAX
            } else {
                cell.food + amount
            };
            self.grid.set(coord, Cell { food: f, ..cell });
        }
    }

    /// Remove `amount` units of food (saturating at zero) from the cell at
    /// `coord`; a no-op when `coord` is outside the grid.
    pub fn remove_food(&mut self, coord: Coord, amount: u32)
        requires
            old(self).wf(),
        ensures
            final(self).wf(),
            *final(self) == (World { grid: final(self).grid, ..*old(self) }),
            final(self).grid@ == if old(self).grid@.dom().contains(coord) {
                old(self).grid@.insert(
                    coord,
                    Cell {
                        food: spec_sub_sat(old(self).grid@[coord].food, amount),
                        ..old(self).grid@[coord]
                    },
                )
            } else {
                old(self).grid@
            },
    {
        let here: Option<Cell> = match self.grid.get(&coord) {
            Some(c) => Some(*c),
            None => None,
        };
        if let Some(cell) = here {
            let f = if cell.food >= amount {
                cell.food - amount
            } else {
                0
            };
            self.grid.set(coord, Cell { food: f, ..cell });
        }
    }

    /// Set the food count of the cell at `coord` to exactly `amount`; a
    /// no-op when `coord` is outside the grid.
    pub fn set_food(&mut self, coord: Coord, amount: u32)
        requires
            old(self).wf(),
        ensures
            final(self).wf(),
            *final(self) == (World { grid: final(self).grid, ..*old(self) }),
            final(self).grid@ == if old(self).grid@.dom().contains(coord) {
                old(self).grid@.insert(coord, Cell { food: amount, ..old(self).grid@[coord] })
            } else {
                old(self).grid@
            },
    {
        let here: Option<Cell> = match self.grid.get(&coord) {
            Some(c) => Some(*c),
            None => None,
        };
        if let Some(cell) = here {
            self.grid.set(coord, Cell { food: amount, ..cell });
        }
    }

    /// Mark the cell at `coord` as nest territory of `colony`; a no-op when
    /// `coord` is outside the grid.
    pub fn set_nest(&mut self, coord: Coord, colony: Colony)
        requires
            old(self).wf(),
        ensures
            final(self).wf(),
            *final(self) == (World { grid: final(self).grid, ..*old(self) }),
            final(self).grid@ == if old(self).grid@.dom().contains(coord) {
                old(self).grid@.insert(
                    coord,
                    Cell { nest: Some(colony), ..old(self).grid@[coord] },
                )
            } else {
                old(self).grid@
            },
    {
        let here: Option<Cell> = match self.grid.get(&coord) {
            Some(c) => Some(*c),
            None => None,
        };
        if let Some(cell) = here {
            self.grid.set(coord, Cell { nest: Some(colony), ..cell });
        }
    }

    /// Deposit a pheromone `(scent, colony)` at `coord`, unconditionally
    /// overwriting any pheromone already there, whoever owned it; a no-op
    /// when `coord` is outside the grid.
    pub fn deposit_pheromone(&mut self, coord: Coord, scent: Scent, colony: Colony)
        requires
            old(self).wf(),
        ensures
            final(self).wf(),
            *final(self) == (World { grid: final(self).grid, ..*old(self) }),
            final(self).grid@ == if old(self).grid@.dom().contains(coord) {
                old(self).grid@.insert(
                    coord,
                    Cell {
                        pheromone: Some(Pheromone { scent, colony }),
                        ..old(self).grid@[coord]
                    },
                )
            } else {
                old(self).grid@
            },
    {
        let here: Option<Cell> = match self.grid.get(&coord) {
            Some(c) => Some(*c),
            None => None,
        };
        if let Some(cell) = here {
            self.grid.set(coord, Cell { pheromone: Some(Pheromone::new(scent, colony)), ..cell });
        }
    }

    /// Clear any pheromone at `coord`, regardless of its owner; a no-op when
    /// `coord` is outside the grid.
    pub fn erase_pheromone(&mut self, coord: Coord)
        requires
            old(self).wf(),
        ensures
            final(self).wf(),
            *final(self) == (World { grid: final(self).grid, ..*old(self) }),
            final(self).grid@ == if old(self).grid@.dom().contains(coord) {
                old(self).grid@.insert(
                    coord,
                    Cell { pheromone: None, ..old(self).grid@[coord] },
                )
            } else {
                old(self).grid@
            },
    {
        let here: Option<Cell> = match self.grid.get(&coord) {
            Some(c) => Some(*c),
            None => None,
        };
        if let Some(cell) = here {
            self.grid.set(coord, Cell { pheromone: None, ..cell });
        }
    }

    /// Food count at `coord`: zero for absent or empty cells.
    pub fn food_at(&self, coord: Coord) -> (f: u32)
        requires
            self.wf(),
        ensures
            f == if self.grid@.dom().contains(coord) {
                self.grid@[coord].food
            } else {
                0u32
            },
    {
        match self.grid.get(&coord) {
            Some(c) => c.food,
            None => 0,
        }
    }

    /// Obstacle flag at `coord`: false for absent cells.
    pub fn obstacle_at(&self, coord: Coord) -> (b: bool)
        requires
            self.wf(),
        ensures
            b == (self.grid@.dom().contains(coord) && self.grid@[coord].is_obstacle),
    {
        match self.grid.get(&coord) {
            Some(c) => c.is_obstacle,
            None => false,
        }
    }

    /// Nest owner at `coord`: none for absent or unmarked cells.
    pub fn nest_at(&self, coord: Coord) -> (r: Option<Colony>)
        requires
            self.wf(),
        ensures
            r == if self.grid@.dom().contains(coord) {
                self.grid@[coord].nest
            } else {
                None::<Colony>
            },
    {
        match self.grid.get(&coord) {
            Some(c) => c.nest,
            None => None,
        }
    }

    /// Pheromone at `coord` as sensed by `colony`: present only when a
    /// pheromone is there and its owning colony matches the query, so a
    /// colony cannot sense another colony's scent through this accessor.
    pub fn pheromone_at(&self, coord: Coord, colony: Colony) -> (r: Option<Pheromone>)
        requires
            self.wf(),
        ensures
            r == if self.grid@.dom().contains(coord) && self.grid@[coord].pheromone is Some && (
            self.grid@[coord].pheromone->0).colony == colony {
                self.grid@[coord].pheromone
            } else {
                None::<Pheromone>
            },
    {
        match self.grid.get(&coord) {
            Some(c) => match c.pheromone {
                Some(p) => {
                    if p.colony == colony {
                        Some(p)
                    } else {
                        None
                    }
                },
                None => None,
            },
            None => None,
        }
    }

    /// The bare, unfiltered pheromone at `coord` (used by rendering):
    /// none for absent cells.
    pub fn pheromone_any_at(&self, coord: Coord) -> (r: Option<Pheromone>)
        requires
            self.wf(),
        ensures
            r == if self.grid@.dom().contains(coord) {
                self.grid@[coord].pheromone
            } else {
                None::<Pheromone>
            },
    {
        match self.grid.get(&coord) {
            Some(c) => c.pheromone,
            None => None,
        }
    }

    /// The first ant (in insertion order) standing at `coord`, if any.
    pub fn ant_at(&self, coord: Coord) -> (r: Option<&Ant>)
        ensures
            match r {
                Some(a) => {
                    &&& spec_ant_index_at(self.ants@, coord) is Some
                    &&& *a == self.ants@[spec_ant_index_at(self.ants@, coord)->0]
                    &&& a.coord == coord
                },
                None => spec_ant_index_at(self.ants@, coord) is None,
            },
    {
        let mut i: usize = 0;
        while i < self.ants.len()
            invariant
                i <= self.ants@.len(),
                forall|j: int| 0 <= j < i ==> (#[trigger] self.ants@[j]).coord != coord,
            decreases self.ants@.len() - i,
        {
            if self.ants[i].coord == coord {
                proof {
                    lemma_ant_index_first(self.ants@, coord, i as int);
                }
                return Some(&self.ants[i]);
            }
            i = i + 1;
        }
        proof {
            lemma_ant_index_none(self.ants@, coord);
        }
        None
    }

    /// Advance the simulation by one tick: every ant, in insertion order,
    /// executes exactly one instruction of the shared program.
    ///
    /// When some ant's program counter is at or beyond the program length,
    /// the tick halts there: the ants before it have executed, the world is
    /// left in exactly that intermediate state, and the fatal condition is
    /// reported with the offending ant and program counter.
    pub fn update(&mut self) -> (r: Result<(), TickError>)
        requires
            old(self).wf(),
        ensures
            final(self).wf(),
            final(self).size == old(self).size,
            final(self).program == old(self).program,
            final(self).ants@.len() == old(self).ants@.len(),
            match r {
                Ok(_) => run_ants(
                    old(self).program@,
                    old(self).grid@,
                    old(self).ants@,
                    old(self).ants@.len() as int,
                ) == Some((final(self).grid@, final(self).ants@)),
                Err(e) => {
                    &&& e.ant < old(self).ants@.len()
                    &&& run_ants(
                        old(self).program@,
                        old(self).grid@,
                        old(self).ants@,
                        e.ant as int,
                    ) == Some((final(self).grid@, final(self).ants@))
                    &&& step_one(
                        old(self).program@,
                        final(self).grid@,
                        final(self).ants@[e.ant as int],
                    ) is None
                    &&& e.pc == final(self).ants@[e.ant as int].state.pc
                    &&& e.pc >= old(self).program@.len()
                },
            },
    {
        let mut i: usize = 0;
        while i < self.ants.len()
            invariant
                old(self).wf(),
                i <= self.ants@.len(),
                self.size == old(self).size,
                self.program == old(self).program,
                self.grid.wf(),
                forall|c: Coord|
                    self.grid@.dom().contains(c) <==> in_radius(c, old(self).size as int),
                self.ants@.len() == old(self).ants@.len(),
                forall|j: int|
                    0 <= j < self.ants@.len() ==> step_safe((#[trigger] self.ants@[j]).coord),
                run_ants(old(self).program@, old(self).grid@, old(self).ants@, i as int) == Some(
                    (self.grid@, self.ants@),
                ),
            decreases self.ants@.len() - i,
        {
            let ghost g0 = self.grid@;
            let ghost a0 = self.ants@;
            let mut a = self.ants[i];
            match run_instruction(&self.program, &mut self.grid, &mut a) {
                Ok(_) => {
                    proof {
                        lemma_step_one_preserves(
                            self.program@,
                            g0,
                            a0[i as int],
                            old(self).size as int,
                        );
                    }
                    self.ants.set(i, a);
                    proof {
                        assert(run_ants(
                            old(self).program@,
                            old(self).grid@,
                            old(self).ants@,
                            i as int + 1,
                        ) == Some((self.grid@, self.ants@)));
                    }
                    i = i + 1;
                },
                Err(e) => {
                    return Err(TickError { ant: i, pc: e.pc });
                },
            }
        }
        Ok(())
    }
}

} // verus!
