use antics::ant::{Ant, Colony, Pheromone, Scent};
use antics::formica::AntState;
use antics::grid::{Coord, Direction, Grid};
use antics::world::{Cell, World};

#[test]
fn grid_cell_count_matches_formula() {
    // 3N^2 + 3N + 1 cells for radius N.
    for n in [0u32, 1, 2, 5, 9] {
        let grid: Grid<u32> = Grid::new(n, 0);
        let expected = (3 * n * n + 3 * n + 1) as usize;
        assert_eq!(grid.len(), expected);
        assert_eq!(grid.keys().len(), expected);
    }
}

#[test]
fn grid_coordinates_sum_to_zero_and_stay_in_radius() {
    let n: i32 = 4;
    let grid: Grid<u32> = Grid::new(n as u32, 0);
    for c in grid.keys() {
        assert_eq!(c.r + c.s + c.q, 0);
        assert!(c.r.abs() <= n && c.s.abs() <= n && c.q.abs() <= n);
    }
}

#[test]
fn grid_absent_outside_radius_present_inside() {
    let grid: Grid<u32> = Grid::new(2, 7);
    assert_eq!(grid.get(&Coord::new(0, 0, 0)), Some(&7));
    assert_eq!(grid.get(&Coord::new(2, -2, 0)), Some(&7));
    assert_eq!(grid.get(&Coord::new(3, -3, 0)), None);
    assert_eq!(grid.get(&Coord::new(0, 3, -3)), None);
    // zero-sum is necessary: a non-zero-sum coordinate is never present
    assert_eq!(grid.get(&Coord::new(1, 1, 1)), None);
}

#[test]
fn grid_set_overwrites_present_and_ignores_absent() {
    let mut grid: Grid<u32> = Grid::new(1, 0);
    let inside = Coord::new(1, -1, 0);
    let outside = Coord::new(5, -5, 0);
    grid.set(inside, 42);
    grid.set(outside, 99);
    assert_eq!(grid.get(&inside), Some(&42));
    assert_eq!(grid.get(&outside), None);
    assert_eq!(grid.len(), 7);
}

#[test]
fn grid_iter_enumerates_every_pair() {
    let mut grid: Grid<u32> = Grid::new(1, 0);
    grid.set(Coord::new(0, 1, -1), 3);
    let pairs = grid.iter();
    assert_eq!(pairs.len(), 7);
    let mut found = false;
    for (c, v) in pairs {
        if c == Coord::new(0, 1, -1) {
            assert_eq!(v, 3);
            found = true;
        } else {
            assert_eq!(v, 0);
        }
    }
    assert!(found);
}

#[test]
fn direction_offsets_sum_to_zero() {
    for d in [
        Direction::North,
        Direction::NorthEast,
        Direction::SouthEast,
        Direction::South,
        Direction::SouthWest,
        Direction::NorthWest,
    ] {
        let (dr, ds, dq) = d.to_cube();
        assert_eq!(dr + ds + dq, 0);
    }
    assert_eq!(Direction::North.to_cube(), (-1, 1, 0));
    assert_eq!(Direction::South.to_cube(), (1, -1, 0));
}

#[test]
fn coord_operations_preserve_zero_sum() {
    let c = Coord::new(2, -1, -1);
    let moved = c.move_x(3);
    assert_eq!((moved.r, moved.s, moved.q), (2, 2, -4));
    assert_eq!(moved.r + moved.s + moved.q, 0);
    let stepped = c.offset_by(Direction::SouthEast);
    assert_eq!(stepped.r + stepped.s + stepped.q, 0);
    assert_eq!((stepped.r, stepped.s, stepped.q), (2, -2, 0));
}

#[test]
fn neighbor_uses_the_direction_offset_table() {
    let grid: Grid<Cell> = Grid::new(
        2,
        Cell { nest: None, is_obstacle: false, food: 0, pheromone: None },
    );
    let origin = Coord::new(0, 0, 0);
    let n = grid.get_neighbor(&origin, &Direction::North);
    assert_eq!((n.r, n.s, n.q), (-1, 1, 0));
    let back = grid.get_neighbor(&n, &Direction::South);
    assert_eq!(back, origin);
}

#[test]
fn scent_renders_as_lowercase_letter() {
    assert_eq!(Scent(0).to_ascii(), 'a');
    assert_eq!(Scent(1).to_ascii(), 'b');
    assert_eq!(Scent(25).to_ascii(), 'z');
    assert_eq!(Scent(26).to_ascii(), 'a');
    assert_eq!(Scent(255).to_ascii(), 'v');
}

#[test]
fn cell_renders_by_priority() {
    let empty = Cell { nest: None, is_obstacle: false, food: 0, pheromone: None };
    assert_eq!(empty.to_ascii(), '_');
    let obstacle = Cell { is_obstacle: true, ..empty };
    assert_eq!(obstacle.to_ascii(), '#');
    let food = Cell { food: 3, ..empty };
    assert_eq!(food.to_ascii(), '*');
    let nest = Cell { nest: Some(Colony(1)), ..empty };
    assert_eq!(nest.to_ascii(), 'N');
    let marked = Cell {
        pheromone: Some(Pheromone::new(Scent(2), Colony(1))),
        ..empty
    };
    assert_eq!(marked.to_ascii(), 'c');
    // obstacle wins over everything else
    let busy = Cell {
        nest: Some(Colony(1)),
        is_obstacle: true,
        food: 9,
        pheromone: Some(Pheromone::new(Scent(0), Colony(1))),
    };
    assert_eq!(busy.to_ascii(), '#');
}

#[test]
fn new_ant_faces_north_with_empty_state() {
    let ant = Ant::new(Colony(3), Coord::new(1, 0, -1));
    assert_eq!(ant.colony, Colony(3));
    assert_eq!(ant.coord, Coord::new(1, 0, -1));
    assert_eq!(ant.food, 0);
    assert_eq!(ant.facing, Direction::North);
    assert_eq!(ant.state, AntState::new());
    assert_eq!(ant.to_ascii(), '@');
}

#[test]
fn six_turns_return_to_original_facing() {
    let mut ant = Ant::new(Colony(0), Coord::new(0, 0, 0));
    let mut seen = Vec::new();
    for _ in 0..6 {
        seen.push(ant.facing);
        ant.turn_left();
    }
    assert_eq!(ant.facing, Direction::North);
    // all six facings were visited, each exactly once
    seen.sort_by_key(|d| *d as u8);
    seen.dedup();
    assert_eq!(seen.len(), 6);
    for _ in 0..6 {
        ant.turn_right();
    }
    assert_eq!(ant.facing, Direction::North);
}

#[test]
fn turn_left_and_right_are_inverses() {
    for d in [
        Direction::North,
        Direction::NorthEast,
        Direction::SouthEast,
        Direction::South,
        Direction::SouthWest,
        Direction::NorthWest,
    ] {
        let mut ant = Ant::new(Colony(0), Coord::new(0, 0, 0));
        ant.facing = d;
        ant.turn_left();
        ant.turn_right();
        assert_eq!(ant.facing, d);
        ant.turn_right();
        ant.turn_left();
        assert_eq!(ant.facing, d);
    }
}

#[test]
fn world_setup_and_queries() {
    let mut world = World::new(3, Vec::new());
    let c = Coord::new(1, -1, 0);
    assert_eq!(world.food_at(c), 0);
    world.add_food(c, 4);
    world.add_food(c, 2);
    assert_eq!(world.food_at(c), 6);
    world.remove_food(c, 10);
    assert_eq!(world.food_at(c), 0);
    world.set_food(c, 7);
    assert_eq!(world.food_at(c), 7);
    assert!(!world.obstacle_at(c));
    world.add_obstacle(c);
    assert!(world.obstacle_at(c));
    assert_eq!(world.nest_at(c), None);
    world.set_nest(c, Colony(2));
    assert_eq!(world.nest_at(c), Some(Colony(2)));
}

#[test]
fn world_food_saturates_instead_of_overflowing() {
    let mut world = World::new(1, Vec::new());
    let c = Coord::new(0, 0, 0);
    world.set_food(c, u32::MAX - 1);
    world.add_food(c, 5);
    assert_eq!(world.food_at(c), u32::MAX);
}

#[test]
fn world_mutations_outside_grid_are_no_ops() {
    let mut world = World::new(1, Vec::new());
    let far = Coord::new(9, -9, 0);
    world.add_obstacle(far);
    world.add_food(far, 3);
    world.set_nest(far, Colony(1));
    world.deposit_pheromone(far, Scent(1), Colony(1));
    assert_eq!(world.food_at(far), 0);
    assert!(!world.obstacle_at(far));
    assert_eq!(world.nest_at(far), None);
    assert_eq!(world.pheromone_any_at(far), None);
}

#[test]
fn deposit_overwrites_regardless_of_colony() {
    // Depositing (5, A) then (7, B) leaves only (7, B); colony A's filtered
    // query then senses nothing.
    let mut world = World::new(2, Vec::new());
    let c = Coord::new(0, 0, 0);
    let colony_a = Colony(1);
    let colony_b = Colony(2);
    world.deposit_pheromone(c, Scent(5), colony_a);
    assert_eq!(
        world.pheromone_at(c, colony_a),
        Some(Pheromone::new(Scent(5), colony_a))
    );
    world.deposit_pheromone(c, Scent(7), colony_b);
    assert_eq!(
        world.pheromone_any_at(c),
        Some(Pheromone::new(Scent(7), colony_b))
    );
    assert_eq!(world.pheromone_at(c, colony_a), None);
    assert_eq!(
        world.pheromone_at(c, colony_b),
        Some(Pheromone::new(Scent(7), colony_b))
    );
    world.erase_pheromone(c);
    assert_eq!(world.pheromone_any_at(c), None);
}

#[test]
fn ant_at_returns_first_in_insertion_order() {
    let mut world = World::new(2, Vec::new());
    let c = Coord::new(0, 1, -1);
    world.add_ant(Ant::new(Colony(1), c));
    world.add_ant(Ant::new(Colony(2), c));
    let found = world.ant_at(c).unwrap();
    assert_eq!(found.colony, Colony(1));
    assert!(world.ant_at(Coord::new(0, 0, 0)).is_none());
}
