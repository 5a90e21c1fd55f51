use vstd::prelude::*;
use crate::simulation::cell::Cell;
use crate::simulation::grid::{CellGrid, GridPos, GridView, CHUNK_SIZE};
use crate::simulation::material::Material;
use crate::simulation::rules::{
    arena_wf, axis_hint, can_fall, chunk_below, chunk_updated, landed,
    lemma_below_in_bounds, lemma_step_keeps_frame, lemma_sweep_pos_in_bounds, step_cell,
    sweep_pos, sweep_prefix, vacated,
};

verus! {

/// Where a chunk lies in the layout, counted in chunks: `x` to the right
/// (east) and `y` downwards (south).
#[derive(Clone, Copy, Debug, PartialEq, Eq, Structural)]
pub struct ChunkPos {
    pub x: i32,
    pub y: i32,
}

impl ChunkPos {
    pub fn new(x: i32, y: i32) -> (pos: ChunkPos)
        ensures
            pos == (ChunkPos { x, y }),
    {
        ChunkPos { x, y }
    }
}

/// The offsets of the eight neighbours, clockwise from north:
/// N, NE, E, SE, S, SW, W, NW.
pub const HALO_DIRECTIONS: [(i32, i32); 8] = [
    (0, -1),
    (1, -1),
    (1, 0),
    (1, 1),
    (0, 1),
    (-1, 1),
    (-1, 0),
    (-1, -1),
];

/// Slot of the halo that belongs to the neighbour at offset `(dx, dy)`, each
/// of -1, 0 or 1 and not both 0.
pub open spec fn halo_slot(dx: int, dy: int) -> int {
    if dy < 0 {
        if dx < 0 {
            7
        } else if dx == 0 {
            0
        } else {
            1
        }
    } else if dy == 0 {
        if dx < 0 {
            6
        } else {
            2
        }
    } else {
        if dx < 0 {
            5
        } else if dx == 0 {
            4
        } else {
            3
        }
    }
}

/// The parity of `v`: 0 where `|v|` is even, 1 where it is odd.
pub open spec fn parity(v: int) -> int {
    (if v >= 0 {
        v
    } else {
        -v
    }) % 2
}

/// The checkerboard phase of a position: the parity of `|x|`, plus twice
/// the parity of `|y|`.
pub open spec fn phase_of(pos: ChunkPos) -> int {
    parity(pos.x as int) + 2 * parity(pos.y as int)
}

/// What a chunk holds: its position, its grid, and for each of the eight
/// directions the index of the neighbouring chunk, if there is one.
pub struct ChunkView {
    pub position: ChunkPos,
    pub grid: GridView,
    pub halo: Seq<Option<usize>>,
}

impl ChunkView {
    /// The grid is well formed, and each of the eight halo links names one of
    /// `n` chunks.
    pub open spec fn wf(self, n: nat) -> bool {
        &&& self.grid.wf()
        &&& self.halo.len() == 8
        &&& forall|d: int|
            0 <= d < 8 ==> ((#[trigger] self.halo[d]) matches Some(t) ==> t < n)
    }

    /// The same chunk around another grid.
    pub open spec fn with_grid(self, grid: GridView) -> ChunkView {
        ChunkView { grid, ..self }
    }

    /// The chunk whose grid is looked at in direction `(dx, dy)` from the
    /// chunk at index `own`: that chunk itself for `(0, 0)`, else the
    /// neighbour linked in that direction, if any.
    pub open spec fn grid_in_dir(self, own: int, dx: int, dy: int) -> Option<int> {
        if dx == 0 && dy == 0 {
            Some(own)
        } else {
            match self.halo[halo_slot(dx, dy)] {
                Some(t) => Some(t as int),
                None => None,
            }
        }
    }
}

/// One tile of the simulation: a grid of cells, and links to the grids of the
/// chunks around it, held as indices into the array that owns all chunks.
#[derive(Debug)]
pub struct Chunk {
    pub position: ChunkPos,
    grid: CellGrid,
    halo: [Option<usize>; 8],
}

impl View for Chunk {
    type V = ChunkView;

    closed spec fn view(&self) -> ChunkView {
        ChunkView { position: self.position, grid: self.grid@, halo: self.halo@ }
    }
}

/// The views of the chunks of an array, in order.
pub open spec fn world_of(chunks: Seq<Chunk>) -> Seq<ChunkView> {
    Seq::new(chunks.len(), |i: int| chunks[i]@)
}

impl Chunk {
    /// A chunk at `position` around `grid`, with no neighbour linked yet.
    pub fn new(position: ChunkPos, grid: CellGrid) -> (chunk: Chunk)
        ensures
            chunk@ == (ChunkView { position, grid: grid@, halo: Seq::new(8, |d: int| None) }),
    {
        let chunk = Chunk { position, grid, halo: [None; 8] };
        proof {
            assert(chunk.halo@ =~= Seq::new(8, |d: int| None));
        }
        chunk
    }

    /// The chunk's position in the layout.
    pub fn position(&self) -> (position: ChunkPos)
        ensures
            position == self@.position,
    {
        self.position
    }

    /// The chunk's grid.
    pub fn get_grid(&self) -> (grid: &CellGrid)
        ensures
            grid@ == self@.grid,
    {
        &self.grid
    }

    /// The chunk's grid, to be changed in place.
    pub fn get_grid_mut(&mut self) -> (grid: &mut CellGrid)
        ensures
            grid@ == old(self)@.grid,
            final(self)@ == old(self)@.with_grid(final(grid)@),
    {
        &mut self.grid
    }

    /// Puts `grid` in the place of the chunk's grid.
    pub fn set_grid(&mut self, grid: CellGrid)
        ensures
            final(self)@ == old(self)@.with_grid(grid@),
    {
        self.grid = grid;
    }

    /// A copy of the chunk: the same position, the same grid, the same links.
    pub fn duplicate(&self) -> (copy: Chunk)
        ensures
            copy@ == self@,
    {
        let copy = Chunk { position: self.position, grid: self.grid.duplicate(), halo: self.halo };
        copy
    }

    /// The index of the chunk linked in halo slot `slot`, if any.
    pub fn halo(&self, slot: usize) -> (link: Option<usize>)
        requires
            slot < 8,
        ensures
            self@.halo.len() == 8,
            link == self@.halo[slot as int],
    {
        self.halo[slot]
    }

    /// Links halo slot `slot` to the chunk at index `link`, or to none.
    pub fn set_halo(&mut self, slot: usize, link: Option<usize>)
        requires
            slot < 8,
        ensures
            final(self)@ == (ChunkView {
                halo: old(self)@.halo.update(slot as int, link),
                ..old(self)@
            }),
    {
        self.halo[slot] = link;
    }

    /// Given in which direction of chunk space a cell is looked for (each
    /// component -1, 0 or 1), the index of the chunk whose grid holds it:
    /// `own` for `(0, 0)`, else the halo link of that direction.
    pub fn get_grid_from_dir(&self, own: usize, dir_hint: (i32, i32)) -> (target: Option<usize>)
        requires
            -1 <= dir_hint.0 <= 1,
            -1 <= dir_hint.1 <= 1,
        ensures
            self@.halo.len() == 8,
            match target {
                Some(t) => self@.grid_in_dir(own as int, dir_hint.0 as int, dir_hint.1 as int)
                    == Some(t as int),
                None => self@.grid_in_dir(own as int, dir_hint.0 as int, dir_hint.1 as int)
                    is None,
            },
    {
        if dir_hint.0 == 0 && dir_hint.1 == 0 {
            return Some(own);
        }
        let ghost slot = halo_slot(dir_hint.0 as int, dir_hint.1 as int);
        assert(HALO_DIRECTIONS[slot] == dir_hint);
        for i in 0..8usize
            invariant
                0 <= slot < 8,
                slot == halo_slot(dir_hint.0 as int, dir_hint.1 as int),
                HALO_DIRECTIONS[slot] == dir_hint,
                i <= slot,
        {
            let dir = HALO_DIRECTIONS[i];
            if dir.0 == dir_hint.0 && dir.1 == dir_hint.1 {
                assert(i == slot);
                return self.halo[i];
            }
        }
        None
    }

    /// Whether the chunk is updated in phase `phase` of a tick: whether
    /// `phase` is the parity of `|x|` plus twice the parity of `|y|`.
    /// Chunks next to each other never share a phase.
    pub fn should_update(&self, phase: u8) -> (participates: bool)
        ensures
            participates == (phase_of(self@.position) == phase),
    {
        let px: i32 = if self.position.x % 2 == 0 { 0 } else { 1 };
        let py: i32 = if self.position.y % 2 == 0 { 0 } else { 1 };
        px + 2 * py == phase as i32
    }

    /// Visits cell `pos` of the chunk at `index`: sand that has not moved in
    /// `tick` and has an empty cell under it, in this chunk or in the one
    /// linked to its south, changes places with that cell.
    pub fn update_cell(chunks: &mut Vec<Chunk>, index: usize, pos: GridPos, tick: usize)
        requires
            arena_wf(world_of(old(chunks)@)),
            index < old(chunks)@.len(),
            pos.in_bounds(),
        ensures
            world_of(final(chunks)@) == step_cell(
                world_of(old(chunks)@),
                index as int,
                pos,
                tick,
            ),
    {
        let ghost world = world_of(chunks@);
        proof {
            lemma_below_in_bounds(pos);
            assert(world[index as int].wf(world.len()));
        }
        let cell = *chunks[index].grid.cell_at(pos);
        if cell.last_processed_in_tick == tick {
            return ;
        }
        if cell.material == Material::Sand {
            let below_pos = GridPos::new(pos.x, pos.y + 1);
            let dir_hint = (
                Chunk::dir_hint(below_pos.x),
                Chunk::dir_hint(below_pos.y),
            );
            let target = chunks[index].get_grid_from_dir(index, dir_hint);
            if let Some(t) = target {
                let below_pos = below_pos.wrapped();
                proof {
                    assert(chunk_below(world, index as int, pos) == Some(t as int));
                    if pos.y == 31 {
                        assert(world[index as int].halo[4] == Some(t));
                    }
                    assert(world[t as int].wf(world.len()));
                }
                let under = *chunks[t].grid.cell_at(below_pos);
                if under.material == Material::Empty {
                    assert(can_fall(world, index as int, pos, tick));
                    chunks[index].grid.place_cell(
                        pos,
                        Cell { color: under.material.color(), ..under },
                    );
                    let ghost lifted = world_of(chunks@);
                    assert(lifted =~= world.update(
                        index as int,
                        world[index as int].with_grid(
                            world[index as int].grid.with_cell(pos.index(), vacated(under)),
                        ),
                    ));
                    chunks[t].grid.place_cell(
                        below_pos,
                        Cell {
                            color: cell.material.color(),
                            material: cell.material,
                            last_processed_in_tick: tick,
                        },
                    );
                    assert(world_of(chunks@) =~= lifted.update(
                        t as int,
                        lifted[t as int].with_grid(
                            lifted[t as int].grid.with_cell(below_pos.index(), landed(cell, tick)),
                        ),
                    ));
                }
            }
        }
    }

    /// In which direction a coordinate has left the chunk: -1 below zero,
    /// 1 from the chunk's size on, 0 inside.
    fn dir_hint(v: i16) -> (hint: i32)
        ensures
            hint == axis_hint(v as int),
    {
        if v >= CHUNK_SIZE as i16 {
            1
        } else if v < 0 {
            -1
        } else {
            0
        }
    }

    /// Updates all cells of the chunk at `index`: visits each of them once,
    /// in the order that `tick` sets, and moves those that can fall.
    pub fn update(chunks: &mut Vec<Chunk>, index: usize, tick: usize)
        requires
            arena_wf(world_of(old(chunks)@)),
            index < old(chunks)@.len(),
        ensures
            world_of(final(chunks)@) == chunk_updated(world_of(old(chunks)@), index as int, tick),
    {
        let ghost world = world_of(chunks@);
        let bottom_up = tick % 2 == 0;
        let right_to_left = tick % 4 == 0;
        for row in 0..CHUNK_SIZE as i16
            invariant
                arena_wf(world),
                index < world.len(),
                bottom_up == (tick % 2 == 0),
                right_to_left == (tick % 4 == 0),
                arena_wf(world_of(chunks@)),
                world_of(chunks@).len() == world.len(),
                world_of(chunks@) == sweep_prefix(world, index as int, tick, (row * 32) as nat),
        {
            let y: i16 = if bottom_up { CHUNK_SIZE as i16 - 1 - row } else { row };
            for col in 0..CHUNK_SIZE as i16
                invariant
                    0 <= row < 32,
                    arena_wf(world),
                    index < world.len(),
                    bottom_up == (tick % 2 == 0),
                    right_to_left == (tick % 4 == 0),
                    y == (if bottom_up { 31 - row } else { row as int }),
                    arena_wf(world_of(chunks@)),
                    world_of(chunks@).len() == world.len(),
                    world_of(chunks@) == sweep_prefix(
                        world,
                        index as int,
                        tick,
                        (row * 32 + col) as nat,
                    ),
            {
                let x: i16 = if right_to_left { CHUNK_SIZE as i16 - 1 - col } else { col };
                let pos = GridPos::new(x, y);
                proof {
                    let k = row * 32 + col;
                    assert(k / 32 == row && k % 32 == col);
                    assert(pos == sweep_pos(tick, k));
                    lemma_sweep_pos_in_bounds(tick, k);
                    lemma_step_keeps_frame(world_of(chunks@), index as int, pos, tick);
                    assert(sweep_prefix(world, index as int, tick, (k + 1) as nat) == step_cell(
                        sweep_prefix(world, index as int, tick, k as nat),
                        index as int,
                        pos,
                        tick,
                    ));
                }
                Chunk::update_cell(chunks, index, pos, tick);
            }
        }
    }

    /// The RGBA bytes of the chunk's grid, four per cell in row-major order.
    pub fn get_texture_data(&self) -> (data: &[u8])
        ensures
            data@ == self@.grid.texture,
    {
        self.grid.get_texture_data()
    }
}

} // verus!
