use granular_core::{
    chunk_index, Cell, CellColor, Chunk, ChunkPos, GridPos, Material, PhaseJob, Simulation,
    WorldPos, HALO_DIRECTIONS, NUM_CHUNKS_TOTAL, WARMUP_TICKS,
};

const FIRST_LIVE_TICK: usize = 61;

fn wired_simulation() -> Simulation {
    let mut sim = Simulation::new();
    sim.setup();
    sim
}

fn put(sim: &mut Simulation, chunk: usize, x: i16, y: i16, material: Material) {
    sim.grid_mut(chunk).place_cell(GridPos::new(x, y), Cell::new(material));
}

fn material_at(sim: &Simulation, chunk: usize, x: i16, y: i16) -> Material {
    sim.get_chunks()[chunk].get_grid().cell_at(GridPos::new(x, y)).material()
}

fn count_matter(sim: &Simulation) -> usize {
    let mut count = 0;
    for chunk in sim.get_chunks() {
        for y in 0..32 {
            for x in 0..32 {
                if chunk.get_grid().cell_at(GridPos::new(x, y)).material() != Material::Empty {
                    count += 1;
                }
            }
        }
    }
    count
}

fn count_of(sim: &Simulation, material: Material) -> usize {
    let mut count = 0;
    for chunk in sim.get_chunks() {
        for y in 0..32 {
            for x in 0..32 {
                if chunk.get_grid().cell_at(GridPos::new(x, y)).material() == material {
                    count += 1;
                }
            }
        }
    }
    count
}

fn assert_consistent(sim: &Simulation) {
    for chunk in sim.get_chunks() {
        let texture = chunk.get_texture_data();
        assert_eq!(texture.len(), 4 * 32 * 32);
        for y in 0..32i16 {
            for x in 0..32i16 {
                let cell = chunk.get_grid().cell_at(GridPos::new(x, y));
                let i = x as usize + y as usize * 32;
                let color = *cell.color();
                assert_eq!(
                    &texture[4 * i..4 * i + 4],
                    &[color.red, color.green, color.blue, color.alpha]
                );
                assert_eq!(color, cell.material().color());
            }
        }
    }
}

fn snapshot(sim: &Simulation) -> Vec<(Vec<Cell>, Vec<u8>)> {
    sim.get_chunks()
        .iter()
        .map(|chunk| {
            let mut cells = Vec::new();
            for y in 0..32 {
                for x in 0..32 {
                    cells.push(*chunk.get_grid().cell_at(GridPos::new(x, y)));
                }
            }
            (cells, chunk.get_texture_data().to_vec())
        })
        .collect()
}

#[test]
fn new_simulation_is_empty_and_unwired() {
    let sim = Simulation::new();
    assert!(!sim.is_setup());
    assert_eq!(sim.tick(), 0);
    assert_eq!(sim.get_chunks().len(), NUM_CHUNKS_TOTAL);
    assert_eq!(count_matter(&sim), 0);
    for chunk in sim.get_chunks() {
        for slot in 0..8 {
            assert_eq!(chunk.halo(slot), None);
        }
    }
    assert_consistent(&sim);
}

#[test]
fn layout_is_row_major_around_the_origin() {
    let sim = Simulation::new();
    let chunks = sim.get_chunks();
    assert_eq!(chunks[0].position(), ChunkPos::new(-4, -4));
    assert_eq!(chunks[7].position(), ChunkPos::new(3, -4));
    assert_eq!(chunks[8].position(), ChunkPos::new(-4, -3));
    assert_eq!(chunks[36].position(), ChunkPos::new(0, 0));
    assert_eq!(chunks[63].position(), ChunkPos::new(3, 3));
    for (k, chunk) in chunks.iter().enumerate() {
        assert_eq!(chunk_index(chunk.position()), k);
        assert_eq!(sim.find_chunk(chunk.position()), Some(k));
    }
}

#[test]
fn chunk_index_wraps_around_the_layout() {
    assert_eq!(chunk_index(ChunkPos::new(0, 0)), 36);
    assert_eq!(chunk_index(ChunkPos::new(-4, -4)), 0);
    assert_eq!(chunk_index(ChunkPos::new(4, -4)), 0);
    assert_eq!(chunk_index(ChunkPos::new(-5, -4)), 7);
    assert_eq!(chunk_index(ChunkPos::new(-4, 4)), 0);
    assert_eq!(chunk_index(ChunkPos::new(-4, -5)), 56);
    assert_eq!(chunk_index(ChunkPos::new(i32::MAX, i32::MAX)), 27);
    assert_eq!(chunk_index(ChunkPos::new(i32::MIN, i32::MIN)), 36);
}

#[test]
fn find_chunk_finds_none_outside_the_layout() {
    let sim = Simulation::new();
    assert_eq!(sim.find_chunk(ChunkPos::new(4, 0)), None);
    assert_eq!(sim.find_chunk(ChunkPos::new(-5, 0)), None);
    assert_eq!(sim.find_chunk(ChunkPos::new(0, 4)), None);
    assert_eq!(sim.find_chunk(ChunkPos::new(0, -5)), None);
    assert_eq!(sim.find_chunk(ChunkPos::new(3, 3)), Some(63));
}

#[test]
fn halo_directions_run_clockwise_from_north() {
    assert_eq!(
        HALO_DIRECTIONS,
        [(0, -1), (1, -1), (1, 0), (1, 1), (0, 1), (-1, 1), (-1, 0), (-1, -1)]
    );
}

#[test]
fn setup_links_each_chunk_to_the_chunks_around_it() {
    let sim = wired_simulation();
    assert!(sim.is_setup());
    let chunks = sim.get_chunks();
    for (k, chunk) in chunks.iter().enumerate() {
        let pos = chunk.position();
        for slot in 0..8 {
            let (dx, dy) = HALO_DIRECTIONS[slot];
            let (x, y) = (pos.x + dx, pos.y + dy);
            let expected = if (-4..4).contains(&x) && (-4..4).contains(&y) {
                Some(((y + 4) * 8 + (x + 4)) as usize)
            } else {
                None
            };
            assert_eq!(chunk.halo(slot), expected, "chunk {k}, slot {slot}");
        }
    }
    // the middle chunk
    assert_eq!(chunks[36].halo(0), Some(28));
    assert_eq!(chunks[36].halo(2), Some(37));
    assert_eq!(chunks[36].halo(4), Some(44));
    assert_eq!(chunks[36].halo(6), Some(35));
    // the corner in the north-west
    assert_eq!(chunks[0].halo(0), None);
    assert_eq!(chunks[0].halo(6), None);
    assert_eq!(chunks[0].halo(7), None);
    assert_eq!(chunks[0].halo(4), Some(8));
    assert_eq!(chunks[0].halo(3), Some(9));
}

#[test]
fn setup_twice_changes_nothing() {
    let mut sim = wired_simulation();
    put(&mut sim, 3, 4, 5, Material::Red);
    let before = snapshot(&sim);
    let links: Vec<Vec<Option<usize>>> =
        sim.get_chunks().iter().map(|c| (0..8).map(|s| c.halo(s)).collect()).collect();
    sim.setup();
    assert!(sim.is_setup());
    assert_eq!(snapshot(&sim), before);
    let again: Vec<Vec<Option<usize>>> =
        sim.get_chunks().iter().map(|c| (0..8).map(|s| c.halo(s)).collect()).collect();
    assert_eq!(again, links);
}

#[test]
fn phase_is_parity_of_x_plus_twice_parity_of_y() {
    let grid = || granular_core::CellGrid::new();
    let at = |x, y| Chunk::new(ChunkPos::new(x, y), grid());
    assert!(at(0, 0).should_update(0));
    assert!(at(1, 0).should_update(1));
    assert!(at(0, 1).should_update(2));
    assert!(at(1, 1).should_update(3));
    assert!(at(-1, 0).should_update(1));
    assert!(at(-3, -1).should_update(3));
    assert!(at(-4, -4).should_update(0));
    assert!(at(2, -3).should_update(2));
    assert!(!at(2, -3).should_update(0));
    assert!(!at(0, 0).should_update(4));
    assert!(at(i32::MIN, i32::MAX).should_update(2));
    for phase in 0..=255u8 {
        let expected = phase == 3;
        assert_eq!(at(7, -5).should_update(phase), expected);
    }
}

#[test]
fn every_chunk_takes_part_in_exactly_one_phase() {
    let sim = wired_simulation();
    for chunk in sim.get_chunks() {
        let phases = (0..4u8).filter(|p| chunk.should_update(*p)).count();
        assert_eq!(phases, 1);
    }
}

#[test]
fn phase_safety_over_the_whole_layout() {
    let sim = wired_simulation();
    let chunks = sim.get_chunks();
    for phase in 0..4u8 {
        for (a, chunk) in chunks.iter().enumerate() {
            if !chunk.should_update(phase) {
                continue;
            }
            for slot in 0..8 {
                if let Some(b) = chunk.halo(slot) {
                    assert_ne!(a, b);
                    assert!(!chunks[b].should_update(phase), "chunks {a} and {b} share phase {phase}");
                }
            }
        }
    }
}

#[test]
fn chunks_of_one_phase_write_to_different_grids() {
    let sim = wired_simulation();
    let chunks = sim.get_chunks();
    for phase in 0..4u8 {
        let mut written = Vec::new();
        for (a, chunk) in chunks.iter().enumerate() {
            if chunk.should_update(phase) {
                written.push(a);
                if let Some(south) = chunk.halo(4) {
                    written.push(south);
                }
            }
        }
        let mut unique = written.clone();
        unique.sort();
        unique.dedup();
        assert_eq!(unique.len(), written.len());
    }
}

#[test]
fn boundary_scenario() {
    let mut sim = wired_simulation();
    assert_eq!(sim.get_chunks()[0].halo(0), None);
    assert_eq!(sim.get_chunks()[0].halo(6), None);
    put(&mut sim, 0, 0, 0, Material::Sand);
    assert!(sim.update(FIRST_LIVE_TICK));
    assert_eq!(count_matter(&sim), 1);
    assert_eq!(material_at(&sim, 0, 0, 0), Material::Empty);
    assert_eq!(material_at(&sim, 0, 0, 1), Material::Sand);
    assert_consistent(&sim);
}

#[test]
fn cross_chunk_fall() {
    let mut sim = wired_simulation();
    let a = 36;
    let b = sim.get_chunks()[a].halo(4).unwrap();
    assert_eq!(b, 44);
    let x = 7;
    put(&mut sim, a, x, 31, Material::Sand);
    sim.set_texture_data_clean(a);
    sim.set_texture_data_clean(b);
    sim.update(FIRST_LIVE_TICK);
    assert_eq!(material_at(&sim, a, x, 31), Material::Empty);
    let landed = *sim.get_chunks()[b].get_grid().cell_at(GridPos::new(x, 0));
    assert_eq!(landed.material(), Material::Sand);
    assert_eq!(landed.last_processed_in_tick(), FIRST_LIVE_TICK);
    assert_eq!(*landed.color(), CellColor::new(221, 193, 48, 255));
    let texture = sim.get_chunks()[b].get_texture_data();
    let offset = 4 * x as usize;
    assert_eq!(&texture[offset..offset + 4], &[221, 193, 48, 255]);
    let texture = sim.get_chunks()[a].get_texture_data();
    let offset = 4 * (x as usize + 31 * 32);
    assert_eq!(&texture[offset..offset + 4], &[10, 10, 10, 255]);
    assert!(sim.is_texture_data_dirty(a));
    assert!(sim.is_texture_data_dirty(b));
    assert_eq!(count_matter(&sim), 1);
    assert_consistent(&sim);
}

#[test]
fn sand_rests_on_the_edge_of_the_world() {
    let mut sim = wired_simulation();
    let bottom = 60;
    assert_eq!(sim.get_chunks()[bottom].halo(4), None);
    put(&mut sim, bottom, 3, 31, Material::Sand);
    let before = snapshot(&sim);
    sim.update(FIRST_LIVE_TICK);
    sim.update(FIRST_LIVE_TICK + 1);
    assert_eq!(snapshot(&sim), before);
    assert_eq!(material_at(&sim, bottom, 3, 31), Material::Sand);
}

#[test]
fn nothing_moves_during_warm_up() {
    let mut sim = wired_simulation();
    put(&mut sim, 10, 5, 5, Material::Sand);
    let before = snapshot(&sim);
    for tick in 1..=WARMUP_TICKS {
        assert!(!sim.update(tick));
        assert_eq!(sim.tick(), tick);
    }
    assert_eq!(WARMUP_TICKS, 60);
    assert_eq!(snapshot(&sim), before);
    assert!(sim.update(61));
    assert_eq!(material_at(&sim, 10, 5, 5), Material::Empty);
    assert_eq!(material_at(&sim, 10, 5, 6), Material::Sand);
}

#[test]
fn sand_falls_one_cell_per_tick() {
    let mut sim = wired_simulation();
    put(&mut sim, 20, 9, 0, Material::Sand);
    // rows from the top down (odd tick), then from the bottom up (even tick)
    for (n, tick) in (61..=70).enumerate() {
        sim.update(tick);
        for y in 0..32 {
            let expected = if y == n as i16 + 1 { Material::Sand } else { Material::Empty };
            assert_eq!(material_at(&sim, 20, 9, y), expected, "tick {tick}, row {y}");
        }
        let cell = *sim.get_chunks()[20].get_grid().cell_at(GridPos::new(9, n as i16 + 1));
        assert_eq!(cell.last_processed_in_tick(), tick);
    }
}

#[test]
fn a_cell_moved_in_this_tick_is_not_moved_again() {
    let mut sim = wired_simulation();
    put(&mut sim, 20, 9, 0, Material::Sand);
    sim.update(61);
    let landed = *sim.get_chunks()[20].get_grid().cell_at(GridPos::new(9, 1));
    assert_eq!(landed.last_processed_in_tick(), 61);
    let before = snapshot(&sim);
    // the same tick once more: the cell is marked and stays
    sim.update(61);
    assert_eq!(snapshot(&sim), before);
}

#[test]
fn sweep_order_decides_which_cells_of_a_stack_move() {
    // top-down (odd tick): only the lower cell of the stack has room
    let mut sim = wired_simulation();
    put(&mut sim, 5, 5, 0, Material::Sand);
    put(&mut sim, 5, 5, 1, Material::Sand);
    sim.update(61);
    assert_eq!(material_at(&sim, 5, 5, 0), Material::Sand);
    assert_eq!(material_at(&sim, 5, 5, 1), Material::Empty);
    assert_eq!(material_at(&sim, 5, 5, 2), Material::Sand);
    // bottom-up (even tick): the lower cell makes room for the upper one
    let mut sim = wired_simulation();
    put(&mut sim, 5, 5, 0, Material::Sand);
    put(&mut sim, 5, 5, 1, Material::Sand);
    sim.update(62);
    assert_eq!(material_at(&sim, 5, 5, 0), Material::Empty);
    assert_eq!(material_at(&sim, 5, 5, 1), Material::Sand);
    assert_eq!(material_at(&sim, 5, 5, 2), Material::Sand);
}

#[test]
fn only_sand_moves() {
    let mut sim = wired_simulation();
    put(&mut sim, 1, 2, 2, Material::Red);
    put(&mut sim, 1, 3, 2, Material::Green);
    put(&mut sim, 1, 4, 2, Material::Blue);
    let before = snapshot(&sim);
    sim.update(61);
    sim.update(62);
    assert_eq!(snapshot(&sim), before);
}

#[test]
fn sand_does_not_fall_into_an_occupied_cell() {
    let mut sim = wired_simulation();
    put(&mut sim, 1, 2, 2, Material::Sand);
    put(&mut sim, 1, 2, 3, Material::Red);
    let before = snapshot(&sim);
    sim.update(61);
    assert_eq!(snapshot(&sim), before);
}

#[test]
fn conservation_over_many_ticks() {
    let mut sim = wired_simulation();
    *sim.grid_mut(0) = granular_core::CellGrid::new_uniform(Material::Sand);
    *sim.grid_mut(9) = granular_core::CellGrid::new_uniform(Material::Sand);
    for x in 0..32 {
        put(&mut sim, 36, x, 31, Material::Sand);
        put(&mut sim, 63, x, (x % 7) as i16, Material::Sand);
        put(&mut sim, 44, x, 10, Material::Blue);
    }
    let matter = count_matter(&sim);
    let sand = count_of(&sim, Material::Sand);
    let blue = count_of(&sim, Material::Blue);
    assert_eq!(matter, 2 * 1024 + 3 * 32);
    for tick in 61..160 {
        sim.update(tick);
        assert_eq!(count_matter(&sim), matter);
        assert_eq!(count_of(&sim, Material::Sand), sand);
        assert_eq!(count_of(&sim, Material::Blue), blue);
        assert_consistent(&sim);
    }
}

#[test]
fn a_world_of_sand_is_a_fixed_point() {
    let mut sim = wired_simulation();
    for chunk in 0..NUM_CHUNKS_TOTAL {
        *sim.grid_mut(chunk) = granular_core::CellGrid::new_uniform(Material::Sand);
    }
    let before = snapshot(&sim);
    for tick in 61..66 {
        sim.update(tick);
        assert_eq!(snapshot(&sim), before);
    }
}

#[test]
fn sand_on_a_floor_is_a_fixed_point() {
    let mut sim = wired_simulation();
    for x in 0..32 {
        put(&mut sim, 12, x, 20, Material::Red);
        put(&mut sim, 12, x, 19, Material::Sand);
        put(&mut sim, 12, x, 18, Material::Sand);
    }
    let before = snapshot(&sim);
    for tick in 61..66 {
        sim.update(tick);
        assert_eq!(snapshot(&sim), before);
    }
}

#[test]
fn a_column_crosses_the_chunk_border_bottom_up() {
    let mut sim = wired_simulation();
    let a = 27;
    let b = 35;
    assert_eq!(sim.get_chunks()[a].halo(4), Some(b));
    put(&mut sim, a, 0, 30, Material::Sand);
    put(&mut sim, a, 0, 31, Material::Sand);
    // phase of a is 3 (x = -1, y = -1), phase of b is 1: b is swept before a
    sim.update(62);
    assert_eq!(material_at(&sim, a, 0, 30), Material::Empty);
    assert_eq!(material_at(&sim, a, 0, 31), Material::Sand);
    assert_eq!(material_at(&sim, b, 0, 0), Material::Sand);
    assert_eq!(count_matter(&sim), 2);
}

#[test]
fn update_chunk_alone_moves_only_its_own_cells() {
    let mut chunks = vec![
        Chunk::new(ChunkPos::new(0, 0), granular_core::CellGrid::new()),
        Chunk::new(ChunkPos::new(0, 1), granular_core::CellGrid::new()),
    ];
    chunks[0].set_halo(4, Some(1));
    chunks[1].set_halo(0, Some(0));
    chunks[0].get_grid_mut().place_cell(GridPos::new(2, 31), Cell::new(Material::Sand));
    chunks[1].get_grid_mut().place_cell(GridPos::new(3, 4), Cell::new(Material::Sand));
    Chunk::update(&mut chunks, 0, 5);
    assert_eq!(chunks[0].get_grid().cell_at(GridPos::new(2, 31)).material(), Material::Empty);
    assert_eq!(chunks[1].get_grid().cell_at(GridPos::new(2, 0)).material(), Material::Sand);
    assert_eq!(chunks[1].get_grid().cell_at(GridPos::new(3, 4)).material(), Material::Sand);
    Chunk::update(&mut chunks, 1, 5);
    // the cell that came from chunk 0 is marked and stays; the other falls
    assert_eq!(chunks[1].get_grid().cell_at(GridPos::new(2, 0)).material(), Material::Sand);
    assert_eq!(chunks[1].get_grid().cell_at(GridPos::new(3, 4)).material(), Material::Empty);
    assert_eq!(chunks[1].get_grid().cell_at(GridPos::new(3, 5)).material(), Material::Sand);
}

#[test]
fn update_cell_visits_one_cell() {
    let mut chunks = vec![Chunk::new(ChunkPos::new(0, 0), granular_core::CellGrid::new())];
    chunks[0].get_grid_mut().place_cell(GridPos::new(1, 1), Cell::new(Material::Sand));
    chunks[0].get_grid_mut().place_cell(GridPos::new(2, 1), Cell::new(Material::Sand));
    Chunk::update_cell(&mut chunks, 0, GridPos::new(1, 1), 9);
    let grid = chunks[0].get_grid();
    assert_eq!(grid.cell_at(GridPos::new(1, 1)).material(), Material::Empty);
    assert_eq!(grid.cell_at(GridPos::new(1, 2)).material(), Material::Sand);
    assert_eq!(grid.cell_at(GridPos::new(1, 2)).last_processed_in_tick(), 9);
    assert_eq!(grid.cell_at(GridPos::new(2, 1)).material(), Material::Sand);
    assert_eq!(grid.cell_at(GridPos::new(2, 1)).last_processed_in_tick(), 0);
}

#[test]
fn grid_from_dir_is_own_grid_or_halo_link() {
    let mut chunk = Chunk::new(ChunkPos::new(0, 0), granular_core::CellGrid::new());
    for slot in 0..8 {
        chunk.set_halo(slot, Some(100 + slot));
    }
    assert_eq!(chunk.get_grid_from_dir(42, (0, 0)), Some(42));
    for slot in 0..8 {
        assert_eq!(chunk.get_grid_from_dir(42, HALO_DIRECTIONS[slot]), Some(100 + slot));
    }
    chunk.set_halo(4, None);
    assert_eq!(chunk.get_grid_from_dir(42, (0, 1)), None);
    assert_eq!(chunk.get_grid_from_dir(42, (0, -1)), Some(100));
}

#[test]
fn dirty_marks_follow_the_moves() {
    let mut sim = wired_simulation();
    put(&mut sim, 36, 1, 1, Material::Sand);
    for chunk in 0..NUM_CHUNKS_TOTAL {
        assert!(sim.is_texture_data_dirty(chunk));
        sim.set_texture_data_clean(chunk);
        assert!(!sim.is_texture_data_dirty(chunk));
    }
    sim.update(61);
    for chunk in 0..NUM_CHUNKS_TOTAL {
        assert_eq!(sim.is_texture_data_dirty(chunk), chunk == 36);
    }
}

#[test]
fn center_moves_only_into_another_chunk() {
    let mut sim = Simulation::new();
    assert_eq!(sim.center_position(), WorldPos::new(0, 0));
    assert_eq!(sim.center_chunk_pos(), ChunkPos::new(0, 0));
    sim.set_center_position(WorldPos::new(31, -31));
    assert_eq!(sim.center_position(), WorldPos::new(0, 0));
    assert_eq!(sim.center_chunk_pos(), ChunkPos::new(0, 0));
    sim.set_center_position(WorldPos::new(32, -31));
    assert_eq!(sim.center_position(), WorldPos::new(32, -31));
    assert_eq!(sim.center_chunk_pos(), ChunkPos::new(1, 0));
    sim.set_center_position(WorldPos::new(-65, 100));
    assert_eq!(sim.center_position(), WorldPos::new(-65, 100));
    assert_eq!(sim.center_chunk_pos(), ChunkPos::new(-2, 3));
    sim.set_center_position(WorldPos::new(-64, 127));
    assert_eq!(sim.center_position(), WorldPos::new(-65, 100));
    assert_eq!(sim.get_chunks().len(), NUM_CHUNKS_TOTAL);
    assert_eq!(sim.get_chunks()[0].position(), ChunkPos::new(-4, -4));
}

fn grids_of(chunks: &[Chunk]) -> Vec<(Vec<Cell>, Vec<u8>, bool)> {
    chunks
        .iter()
        .map(|chunk| {
            let mut cells = Vec::new();
            for y in 0..32 {
                for x in 0..32 {
                    cells.push(*chunk.get_grid().cell_at(GridPos::new(x, y)));
                }
            }
            (cells, chunk.get_texture_data().to_vec(), chunk.get_grid().is_texture_data_dirty())
        })
        .collect()
}

fn copy_of(chunks: &[Chunk]) -> Vec<Chunk> {
    chunks.iter().map(|chunk| chunk.duplicate()).collect()
}

fn scattered_simulation() -> Simulation {
    let mut sim = wired_simulation();
    for chunk in 0..NUM_CHUNKS_TOTAL {
        for x in 0..32i16 {
            let y = ((x as usize * 7 + chunk * 3) % 32) as i16;
            put(&mut sim, chunk, x, y, Material::Sand);
            if x % 5 == 0 {
                put(&mut sim, chunk, x, 31, Material::Sand);
            }
            if x % 11 == 0 {
                put(&mut sim, chunk, x, 0, Material::Green);
            }
        }
        sim.set_texture_data_clean(chunk);
    }
    sim
}

#[test]
fn a_phase_is_the_same_as_each_of_its_chunks_alone() {
    for tick in [61usize, 62, 64] {
        let mut sim = scattered_simulation();
        for phase in 0..4u8 {
            let start: Vec<Chunk> = copy_of(sim.get_chunks());
            sim.update_phase(phase, tick);
            let after = grids_of(sim.get_chunks());
            let mut touched = vec![false; NUM_CHUNKS_TOTAL];
            for a in 0..NUM_CHUNKS_TOTAL {
                if !start[a].should_update(phase) {
                    continue;
                }
                let mut alone = copy_of(&start);
                Chunk::update(&mut alone, a, tick);
                let alone = grids_of(&alone);
                assert_eq!(after[a], alone[a]);
                touched[a] = true;
                if let Some(south) = start[a].halo(4) {
                    assert_eq!(after[south], alone[south]);
                    touched[south] = true;
                }
            }
            let before = grids_of(&start);
            for j in 0..NUM_CHUNKS_TOTAL {
                if !touched[j] {
                    assert_eq!(after[j], before[j]);
                }
            }
        }
    }
}

#[test]
fn the_chunks_of_a_phase_can_be_updated_in_any_order() {
    let sim = scattered_simulation();
    let start: Vec<Chunk> = copy_of(sim.get_chunks());
    for phase in 0..4u8 {
        let mut forward = copy_of(&start);
        let mut backward = copy_of(&start);
        for a in 0..NUM_CHUNKS_TOTAL {
            if start[a].should_update(phase) {
                Chunk::update(&mut forward, a, 61);
            }
        }
        for a in (0..NUM_CHUNKS_TOTAL).rev() {
            if start[a].should_update(phase) {
                Chunk::update(&mut backward, a, 61);
            }
        }
        assert_eq!(grids_of(&forward), grids_of(&backward));
    }
}

#[test]
fn a_tick_marks_every_grid_that_it_changes() {
    let mut sim = scattered_simulation();
    let before = grids_of(sim.get_chunks());
    sim.update(61);
    let after = grids_of(sim.get_chunks());
    let mut changed = 0;
    for j in 0..NUM_CHUNKS_TOTAL {
        if after[j].0 != before[j].0 || after[j].1 != before[j].1 {
            assert!(after[j].2, "grid {j} changed and is not marked");
            changed += 1;
        }
    }
    assert!(changed > 0);
}

#[test]
fn update_is_the_four_phases_in_turn() {
    let mut whole = scattered_simulation();
    let mut by_phase = scattered_simulation();
    assert!(whole.update(63));
    for phase in 0..4u8 {
        by_phase.update_phase(phase, 63);
    }
    assert_eq!(grids_of(whole.get_chunks()), grids_of(by_phase.get_chunks()));
    assert_eq!(whole.tick(), 63);
    assert_eq!(by_phase.tick(), 0);
}

#[test]
fn duplicate_copies_a_chunk() {
    let sim = scattered_simulation();
    let chunk = &sim.get_chunks()[36];
    let copy = chunk.duplicate();
    assert_eq!(copy.position(), chunk.position());
    for slot in 0..8 {
        assert_eq!(copy.halo(slot), chunk.halo(slot));
    }
    assert_eq!(grids_of(&[copy]), grids_of(&[chunk.duplicate()]));
    assert_eq!(grids_of(&sim.get_chunks()[36..37]), grids_of(&[chunk.duplicate()]));
}

#[test]
fn a_job_holds_its_chunk_and_the_chunk_to_the_south() {
    let sim = scattered_simulation();
    let chunks = copy_of(sim.get_chunks());
    let job = PhaseJob::cut(&chunks, 36);
    assert_eq!(job.index(), 36);
    assert_eq!(job.south(), Some(44));
    let job = PhaseJob::cut(&chunks, 60);
    assert_eq!(job.index(), 60);
    assert_eq!(job.south(), None);
}

#[test]
fn a_job_run_and_written_back_is_the_update_of_its_chunk() {
    let sim = scattered_simulation();
    for index in [0usize, 7, 36, 59, 63] {
        let mut direct = copy_of(sim.get_chunks());
        let mut staged = copy_of(sim.get_chunks());
        Chunk::update(&mut direct, index, 62);
        let mut job = PhaseJob::cut(&staged, index);
        job.run(62);
        // the world is untouched until the job is written back
        assert_eq!(grids_of(&staged), grids_of(sim.get_chunks()));
        job.commit(&mut staged);
        assert_eq!(grids_of(&staged), grids_of(&direct));
        for (a, b) in staged.iter().zip(direct.iter()) {
            assert_eq!(a.position(), b.position());
            for slot in 0..8 {
                assert_eq!(a.halo(slot), b.halo(slot));
            }
        }
    }
}

#[test]
fn the_jobs_of_a_phase_are_its_chunks_in_order() {
    let sim = scattered_simulation();
    let mut seen = vec![0; NUM_CHUNKS_TOTAL];
    for phase in 0..4u8 {
        let jobs = sim.phase_jobs(phase);
        assert_eq!(jobs.len(), 16);
        let mut last = None;
        let mut grids = Vec::new();
        for job in &jobs {
            assert!(sim.get_chunks()[job.index()].should_update(phase));
            assert_eq!(job.south(), sim.get_chunks()[job.index()].halo(4));
            assert!(last < Some(job.index()));
            last = Some(job.index());
            seen[job.index()] += 1;
            grids.push(job.index());
            grids.extend(job.south());
        }
        let count = grids.len();
        grids.sort();
        grids.dedup();
        assert_eq!(grids.len(), count);
    }
    assert_eq!(seen, vec![1; NUM_CHUNKS_TOTAL]);
}

#[test]
fn jobs_run_in_any_order_make_the_phase() {
    for tick in [61usize, 62, 64] {
        let mut direct = scattered_simulation();
        let mut staged = scattered_simulation();
        let mut by_function = scattered_simulation();
        for phase in 0..4u8 {
            direct.update_phase(phase, tick);
            by_function.update_phase_in_jobs(phase, tick);
            let mut jobs = staged.phase_jobs(phase);
            for job in jobs.iter_mut().rev() {
                job.run(tick);
            }
            staged.commit_jobs(&jobs);
            assert_eq!(grids_of(staged.get_chunks()), grids_of(direct.get_chunks()));
            assert_eq!(grids_of(by_function.get_chunks()), grids_of(direct.get_chunks()));
        }
    }
}

#[test]
fn jobs_make_the_tick() {
    let mut direct = scattered_simulation();
    let mut staged = scattered_simulation();
    for tick in 61..90usize {
        assert!(direct.update(tick));
        assert!(staged.begin_tick(tick));
        for phase in 0..4u8 {
            let mut jobs = staged.phase_jobs(phase);
            // every second job first, then the others
            for job in jobs.iter_mut().skip(1).step_by(2) {
                job.run(tick);
            }
            for job in jobs.iter_mut().step_by(2) {
                job.run(tick);
            }
            staged.commit_jobs(&jobs);
        }
        assert_eq!(staged.tick(), tick);
        assert_eq!(grids_of(staged.get_chunks()), grids_of(direct.get_chunks()));
    }
}

#[test]
fn begin_tick_says_whether_warm_up_is_over() {
    let mut sim = wired_simulation();
    assert!(!sim.begin_tick(0));
    assert!(!sim.begin_tick(60));
    assert_eq!(sim.tick(), 60);
    assert!(sim.begin_tick(61));
    assert_eq!(sim.tick(), 61);
    assert!(sim.begin_tick(usize::MAX));
}
