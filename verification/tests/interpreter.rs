use antics::ant::{Ant, Colony, Pheromone, Scent};
use antics::formica::{parse, run_instruction, Address, Instruction, PcOutOfBounds};
use antics::grid::{Coord, Direction};
use antics::world::{TickError, World};

fn world_with_one_ant(program: Vec<Instruction>) -> World {
    let mut world = World::new(3, program);
    world.add_ant(Ant::new(Colony(1), Coord::new(0, 0, 0)));
    world
}

#[test]
fn pickup_from_stocked_cell_and_from_empty_cell() {
    // Food 2: pickup succeeds, cell drops to 1, ant carries 1, flag is 1.
    let mut world = world_with_one_ant(vec![Instruction::Pickup, Instruction::Pickup]);
    let origin = Coord::new(0, 0, 0);
    world.set_food(origin, 2);
    world.update().unwrap();
    assert_eq!(world.food_at(origin), 1);
    assert_eq!(world.ants[0].food, 1);
    assert_eq!(world.ants[0].state.flag, 1);
    assert_eq!(world.ants[0].state.pc, 1);

    // Food 0: pickup fails, both counts unchanged, flag is 0.
    let mut empty = world_with_one_ant(vec![Instruction::Pickup, Instruction::Pickup]);
    empty.update().unwrap();
    assert_eq!(empty.food_at(origin), 0);
    assert_eq!(empty.ants[0].food, 0);
    assert_eq!(empty.ants[0].state.flag, 0);
}

#[test]
fn drop_transfers_food_back_to_the_cell() {
    let mut world = world_with_one_ant(vec![Instruction::Drop, Instruction::Drop]);
    let origin = Coord::new(0, 0, 0);
    // carrying nothing: drop fails
    world.update().unwrap();
    assert_eq!(world.ants[0].state.flag, 0);
    assert_eq!(world.food_at(origin), 0);
    // carrying one: drop succeeds
    world.ants[0].food = 1;
    world.update().unwrap();
    assert_eq!(world.ants[0].state.flag, 1);
    assert_eq!(world.ants[0].food, 0);
    assert_eq!(world.food_at(origin), 1);
}

#[test]
fn advance_moves_when_free() {
    let mut world = world_with_one_ant(vec![Instruction::Advance, Instruction::Advance]);
    world.update().unwrap();
    // North of the origin is (-1, 1, 0)
    assert_eq!(world.ants[0].coord, Coord::new(-1, 1, 0));
    assert_eq!(world.ants[0].state.flag, 1);
}

#[test]
fn advance_into_obstacle_fails_in_place() {
    let mut world = world_with_one_ant(vec![Instruction::Advance, Instruction::Advance]);
    world.add_obstacle(Coord::new(-1, 1, 0));
    world.update().unwrap();
    assert_eq!(world.ants[0].coord, Coord::new(0, 0, 0));
    assert_eq!(world.ants[0].state.flag, 0);
}

#[test]
fn advance_off_grid_fails_without_panicking() {
    let mut world = World::new(1, vec![Instruction::Advance, Instruction::Advance]);
    // on the rim, facing North: the neighbor (-2, 2, 0) is outside radius 1
    let rim = Coord::new(-1, 1, 0);
    world.add_ant(Ant::new(Colony(1), rim));
    world.update().unwrap();
    assert_eq!(world.ants[0].coord, rim);
    assert_eq!(world.ants[0].state.flag, 0);
}

#[test]
fn release_and_erase_pheromone_act_on_the_ants_cell() {
    let mut world = world_with_one_ant(vec![
        Instruction::ReleasePh(9),
        Instruction::ErasePh,
        Instruction::ErasePh,
    ]);
    let origin = Coord::new(0, 0, 0);
    world.update().unwrap();
    assert_eq!(
        world.pheromone_any_at(origin),
        Some(Pheromone::new(Scent(9), Colony(1)))
    );
    world.update().unwrap();
    assert_eq!(world.pheromone_any_at(origin), None);
}

#[test]
fn check_instructions_load_the_flag() {
    let mut world = world_with_one_ant(vec![
        Instruction::CheckFood,
        Instruction::CheckPh,
        Instruction::CheckNest,
        Instruction::CheckPh,
    ]);
    let origin = Coord::new(0, 0, 0);
    world.set_food(origin, 17);
    world.deposit_pheromone(origin, Scent(6), Colony(1));
    world.set_nest(origin, Colony(4));
    world.update().unwrap();
    assert_eq!(world.ants[0].state.flag, 17);
    world.update().unwrap();
    assert_eq!(world.ants[0].state.flag, 6);
    world.update().unwrap();
    assert_eq!(world.ants[0].state.flag, 4);
    // a pheromone of another colony reads as absent
    world.deposit_pheromone(origin, Scent(6), Colony(9));
    world.update().unwrap();
    assert_eq!(world.ants[0].state.flag, 0);
}

#[test]
fn conditional_jumps_branch_on_carried_food() {
    let program = vec![
        Instruction::Jnz(Address::Absolute(2)),
        Instruction::Jz(Address::Absolute(0)),
        Instruction::TurnLeft,
    ];
    let mut world = world_with_one_ant(program);
    // no food: JNZ falls through, JZ jumps back to 0
    world.update().unwrap();
    assert_eq!(world.ants[0].state.pc, 1);
    world.update().unwrap();
    assert_eq!(world.ants[0].state.pc, 0);
    // with food: JNZ jumps to 2
    world.ants[0].food = 3;
    world.update().unwrap();
    assert_eq!(world.ants[0].state.pc, 2);
}

#[test]
fn assembled_loop_walks_a_full_hexagon() {
    // ADVANCE / TURN_L / JMP loop: six advances, one per facing, return the
    // ant to its start coordinate and heading.
    let program = parse("loop:\nADVANCE\nTURN_L\nJMP loop\n").unwrap();
    let mut world = World::new(3, program);
    let start = Coord::new(0, 0, 0);
    world.add_ant(Ant::new(Colony(1), start));
    let mut positions = Vec::new();
    for _ in 0..18 {
        world.update().unwrap();
        positions.push(world.ants[0].coord);
    }
    assert_eq!(world.ants[0].coord, start);
    assert_eq!(world.ants[0].facing, Direction::North);
    assert_eq!(world.ants[0].state.pc, 0);
    // it really moved through six distinct cells
    let mut cells: Vec<Coord> = positions.clone();
    cells.sort_by_key(|c| (c.r, c.s));
    cells.dedup();
    assert_eq!(cells.len(), 6);
}

#[test]
fn program_counter_past_the_end_is_a_fatal_error() {
    // A program whose final instruction is no jump runs off the end: the
    // next fetch is the defined out-of-bounds condition, not a wrap-around
    // or a silent no-op.
    let mut world = world_with_one_ant(vec![Instruction::TurnRight]);
    world.update().unwrap();
    assert_eq!(world.ants[0].state.pc, 1);
    let err = world.update().unwrap_err();
    assert_eq!(err, TickError { ant: 0, pc: 1 });
    // the world is unchanged by the failed tick and the error repeats
    assert_eq!(world.ants[0].state.pc, 1);
    assert_eq!(world.update().unwrap_err(), TickError { ant: 0, pc: 1 });
}

#[test]
fn empty_program_fails_on_the_first_fetch() {
    let mut world = world_with_one_ant(Vec::new());
    assert_eq!(world.update().unwrap_err(), TickError { ant: 0, pc: 0 });
}

#[test]
fn tick_runs_ants_in_insertion_order() {
    // Two ants on one cell holding a single unit of food: the first inserted
    // ant picks it up, the second finds the cell empty.
    let mut world = World::new(2, vec![Instruction::Pickup, Instruction::Pickup]);
    let c = Coord::new(1, 0, -1);
    world.add_ant(Ant::new(Colony(1), c));
    world.add_ant(Ant::new(Colony(2), c));
    world.set_food(c, 1);
    world.update().unwrap();
    assert_eq!(world.ants[0].food, 1);
    assert_eq!(world.ants[0].state.flag, 1);
    assert_eq!(world.ants[1].food, 0);
    assert_eq!(world.ants[1].state.flag, 0);
    assert_eq!(world.food_at(c), 0);
}

#[test]
fn tick_halts_at_the_first_out_of_bounds_ant() {
    let mut world = World::new(2, vec![Instruction::TurnLeft]);
    let c = Coord::new(0, 0, 0);
    world.add_ant(Ant::new(Colony(1), c));
    world.add_ant(Ant::new(Colony(2), c));
    // push the second ant's counter past the end by hand
    world.ants[1].state.pc = 5;
    let err = world.update().unwrap_err();
    assert_eq!(err, TickError { ant: 1, pc: 5 });
    // the first ant's instruction had already executed
    assert_eq!(world.ants[0].facing, Direction::NorthWest);
}

#[test]
fn run_instruction_reports_out_of_bounds_directly() {
    let mut world = World::new(1, Vec::new());
    let program: Vec<Instruction> = vec![Instruction::TurnLeft];
    let mut ant = Ant::new(Colony(1), Coord::new(0, 0, 0));
    run_instruction(&program, &mut world.grid, &mut ant).unwrap();
    assert_eq!(ant.facing, Direction::NorthWest);
    assert_eq!(ant.state.pc, 1);
    let err = run_instruction(&program, &mut world.grid, &mut ant).unwrap_err();
    assert_eq!(err, PcOutOfBounds { pc: 1 });
}

#[test]
fn carried_food_saturates_at_the_type_limit() {
    let mut world = world_with_one_ant(vec![Instruction::Pickup, Instruction::Pickup]);
    let origin = Coord::new(0, 0, 0);
    world.set_food(origin, 5);
    world.ants[0].food = u32::MAX;
    world.update().unwrap();
    assert_eq!(world.ants[0].food, u32::MAX);
    assert_eq!(world.food_at(origin), 4);
    assert_eq!(world.ants[0].state.flag, 1);
}
