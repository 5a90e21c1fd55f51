//! The simulation: a fixed layout of chunks, wired to their neighbours once,
//! and updated tick by tick in four phases.

use vstd::prelude::*;
use crate::simulation::chunk::{world_of, Chunk, ChunkPos, ChunkView, HALO_DIRECTIONS};
use crate::simulation::grid::{lemma_uniform_is_consistent, CellGrid, GridView, CHUNK_SIZE};
use crate::simulation::jobs::{
    committed_all, job_of, job_views, jobs_of, lemma_commit_all_keeps_frame,
    lemma_job_is_the_update, lemma_jobs_make_the_phase, PhaseJob,
};
use crate::simulation::laws::{
    lemma_phase_safety, lemma_tick_conserves_matter, lemma_tick_keeps_consistency,
    matter_in_world, world_is_consistent,
};
use crate::simulation::material::Material;
use crate::simulation::rules::{
    arena_wf, lemma_phase_keeps_frame, lemma_tick_keeps_frame, phase_prefix, phase_updated,
    same_frame, tick_updated, WARMUP_TICKS,
};

pub mod cell;
pub mod chunk;
pub mod grid;
pub mod jobs;
pub mod laws;
pub mod material;
pub mod rules;

verus! {

/// Number of chunks along each axis of the layout.
pub const NUM_CHUNKS: i32 = 8;

/// Number of chunks in the layout.
pub const NUM_CHUNKS_TOTAL: usize = 64;

/// A position in the world, counted in cells.
#[derive(Clone, Copy, Debug, PartialEq, Eq, Structural)]
pub struct WorldPos {
    pub x: i32,
    pub y: i32,
}

impl WorldPos {
    pub fn new(x: i32, y: i32) -> (pos: WorldPos)
        ensures
            pos == (WorldPos { x, y }),
    {
        WorldPos { x, y }
    }
}

/// The quotient of `a` by a positive `d`, rounded towards zero.
pub open spec fn trunc_div(a: int, d: int) -> int {
    if a >= 0 {
        a / d
    } else {
        -((-a) / d)
    }
}

/// The chunk that holds the cell at `pos`, as far as rounding towards zero
/// tells: both coordinates divided by the side length of a chunk.
pub open spec fn chunk_of(pos: WorldPos) -> ChunkPos {
    ChunkPos { x: trunc_div(pos.x as int, 32) as i32, y: trunc_div(pos.y as int, 32) as i32 }
}

/// The position of the chunk that the layout keeps at index `k`: rows of
/// eight from west to east, the rows from north to south, the chunk at
/// `(0, 0)` in the middle.
pub open spec fn layout_position(k: int) -> ChunkPos {
    ChunkPos { x: (k % 8 - 4) as i32, y: (k / 8 - 4) as i32 }
}

/// The index at which the layout keeps a chunk at `pos`. Positions outside
/// the layout wrap around it.
pub open spec fn layout_index(pos: ChunkPos) -> int {
    ((pos.y + 4) % 8) * 8 + (pos.x + 4) % 8
}

/// The position next to `pos` in the direction of halo slot `slot`.
pub open spec fn neighbor_position(pos: ChunkPos, slot: int) -> ChunkPos {
    ChunkPos {
        x: (pos.x + HALO_DIRECTIONS[slot].0) as i32,
        y: (pos.y + HALO_DIRECTIONS[slot].1) as i32,
    }
}

/// The index of the chunk of `world` that lies at `pos`, if one does.
pub open spec fn occupant(world: Seq<ChunkView>, pos: ChunkPos) -> Option<usize> {
    if world[layout_index(pos)].position == pos {
        Some(layout_index(pos) as usize)
    } else {
        None
    }
}

/// The world holds the chunks of the layout, each at its index.
pub open spec fn is_laid_out(world: Seq<ChunkView>) -> bool {
    &&& world.len() == 64
    &&& forall|k: int| 0 <= k < 64 ==> (#[trigger] world[k]).position == layout_position(k)
}

/// The links that chunk `c` of `world` has once it is wired: in each slot
/// the chunk that lies next to it in that direction, if one does.
pub open spec fn wired_halo(world: Seq<ChunkView>, c: int) -> Seq<Option<usize>> {
    Seq::new(8, |slot: int| occupant(world, neighbor_position(world[c].position, slot)))
}

/// Every chunk of the world is linked to exactly the chunks around it.
pub open spec fn is_wired(world: Seq<ChunkView>) -> bool {
    forall|c: int| 0 <= c < world.len() ==> (#[trigger] world[c]).halo == wired_halo(world, c)
}

/// The world with every chunk linked to the chunks around it.
pub open spec fn wired(world: Seq<ChunkView>) -> Seq<ChunkView> {
    Seq::new(world.len(), |c: int| ChunkView { halo: wired_halo(world, c), ..world[c] })
}

/// The chunk array, the number of the last tick, and the centre that the
/// chunks would follow if they were streamed.
pub struct Simulation {
    chunks: Vec<Chunk>,
    tick: usize,
    wired: bool,
    center_position: WorldPos,
    center_chunk_pos: ChunkPos,
}

/// The index at which the layout keeps a chunk at `pos`.
pub fn chunk_index(pos: ChunkPos) -> (idx: usize)
    ensures
        idx == layout_index(pos),
        idx < NUM_CHUNKS_TOTAL,
{
    let halfsize: i64 = (NUM_CHUNKS / 2) as i64;
    let size: i64 = NUM_CHUNKS as i64;
    let rem_x: i64 = (pos.x as i64 + halfsize) % size;
    let rem_y: i64 = (pos.y as i64 + halfsize) % size;
    let arr_x: i64 = if rem_x < 0 { rem_x + size } else { rem_x };
    let arr_y: i64 = if rem_y < 0 { rem_y + size } else { rem_y };
    (arr_y * size + arr_x) as usize
}

/// Wiring depends on positions and links alone: a world that has both from
/// a wired world is wired.
pub proof fn lemma_frame_keeps_wiring(before: Seq<ChunkView>, after: Seq<ChunkView>)
    requires
        is_laid_out(before),
        is_wired(before),
        same_frame(before, after),
    ensures
        is_laid_out(after),
        is_wired(after),
{
    assert forall|c: int| 0 <= c < after.len() implies (#[trigger] after[c]).halo == wired_halo(
        after,
        c,
    ) by {
        assert(before[c].halo == wired_halo(before, c));
        assert(wired_halo(after, c) =~= wired_halo(before, c)) by {
            assert forall|d: int| 0 <= d < 8 implies occupant(
                after,
                neighbor_position(after[c].position, d),
            ) == occupant(before, neighbor_position(before[c].position, d)) by {
                let pos = neighbor_position(before[c].position, d);
                assert(after[layout_index(pos)].position == before[layout_index(pos)].position);
            }
        }
    }
}

/// The world with `chunk` in place of chunk `index` holds the chunks of the
/// layout, is well formed, and is wired if `world` is.
pub open spec fn regridded_is_wf(world: Seq<ChunkView>, index: int, chunk: ChunkView) -> bool {
    &&& is_laid_out(world.update(index, chunk))
    &&& arena_wf(world.update(index, chunk))
    &&& is_wired(world) ==> is_wired(world.update(index, chunk))
}

/// A chunk of a laid-out, well-formed world can be given any well-formed
/// grid: the world stays laid out and well formed, and wired if it was.
pub proof fn lemma_regrid_keeps_layout(world: Seq<ChunkView>, index: int, grid: GridView)
    requires
        is_laid_out(world),
        arena_wf(world),
        0 <= index < world.len(),
        grid.wf(),
    ensures
        regridded_is_wf(world, index, world[index].with_grid(grid)),
{
    let after = world.update(index, world[index].with_grid(grid));
    assert forall|c: int| 0 <= c < after.len() implies (#[trigger] after[c]).wf(after.len()) by {
        assert(world[c].wf(world.len()));
    }
    if is_wired(world) {
        assert(same_frame(world, after));
        lemma_frame_keeps_wiring(world, after);
    }
}

impl Simulation {
    /// What the chunks hold, in the order of the layout.
    pub closed spec fn world(&self) -> Seq<ChunkView> {
        world_of(self.chunks@)
    }

    /// The number of the tick that was handed in last, 0 before the first.
    pub closed spec fn tick_spec(&self) -> usize {
        self.tick
    }

    /// Whether the chunks have been linked to their neighbours.
    pub closed spec fn is_setup_spec(&self) -> bool {
        self.wired
    }

    /// The centre that was set last, in cells.
    pub closed spec fn center_position_spec(&self) -> WorldPos {
        self.center_position
    }

    /// The chunk that holds the centre.
    pub closed spec fn center_chunk_pos_spec(&self) -> ChunkPos {
        self.center_chunk_pos
    }

    /// Whether a centre at `pos` differs from the present one and lies in
    /// another chunk.
    pub open spec fn recentres_on(&self, pos: WorldPos) -> bool {
        pos != self.center_position_spec() && chunk_of(pos) != self.center_chunk_pos_spec()
    }

    /// The chunks are those of the layout, well formed, and linked to their
    /// neighbours once `setup` has run.
    pub open spec fn wf(&self) -> bool {
        &&& is_laid_out(self.world())
        &&& arena_wf(self.world())
        &&& self.is_setup_spec() ==> is_wired(self.world())
    }

    /// A simulation of empty chunks, not yet linked, before its first tick.
    pub fn new() -> (sim: Simulation)
        ensures
            sim.wf(),
            !sim.is_setup_spec(),
            sim.tick_spec() == 0,
            sim.center_position_spec() == (WorldPos { x: 0, y: 0 }),
            sim.center_chunk_pos_spec() == (ChunkPos { x: 0, y: 0 }),
            world_is_consistent(sim.world()),
            forall|k: int|
                0 <= k < 64 ==> (#[trigger] sim.world()[k]) == (ChunkView {
                    position: layout_position(k),
                    grid: GridView::uniform(Material::Empty),
                    halo: Seq::new(8, |d: int| None),
                }),
    {
        let mut chunks: Vec<Chunk> = Vec::with_capacity(NUM_CHUNKS_TOTAL);
        let half: i32 = NUM_CHUNKS / 2;
        for row in 0..NUM_CHUNKS
            invariant
                half == 4,
                chunks@.len() == row * 8,
                forall|k: int|
                    0 <= k < chunks@.len() ==> (#[trigger] chunks@[k])@ == (ChunkView {
                        position: layout_position(k),
                        grid: GridView::uniform(Material::Empty),
                        halo: Seq::new(8, |d: int| None),
                    }),
        {
            for col in 0..NUM_CHUNKS
                invariant
                    half == 4,
                    0 <= row < 8,
                    chunks@.len() == row * 8 + col,
                    forall|k: int|
                        0 <= k < chunks@.len() ==> (#[trigger] chunks@[k])@ == (ChunkView {
                            position: layout_position(k),
                            grid: GridView::uniform(Material::Empty),
                            halo: Seq::new(8, |d: int| None),
                        }),
            {
                let chunk = Chunk::new(ChunkPos::new(col - half, row - half), CellGrid::empty());
                proof {
                    let k = row * 8 + col;
                    assert(k % 8 == col && k / 8 == row);
                }
                chunks.push(chunk);
            }
        }
        let sim = Simulation {
            chunks,
            tick: 0,
            wired: false,
            center_position: WorldPos::new(0, 0),
            center_chunk_pos: ChunkPos::new(0, 0),
        };
        proof {
            lemma_uniform_is_consistent(Material::Empty);
            assert forall|c: int| 0 <= c < sim.world().len() implies (#[trigger] sim.world()[c]).wf(
                sim.world().len(),
            ) && sim.world()[c].grid.is_consistent() by {
                assert(sim.world()[c] == sim.chunks@[c]@);
            }
        }
        sim
    }

    /// The number of the tick that was handed in last, 0 before the first.
    pub fn tick(&self) -> (tick: usize)
        ensures
            tick == self.tick_spec(),
    {
        self.tick
    }

    /// Whether `setup` has run.
    pub fn is_setup(&self) -> (done: bool)
        ensures
            done == self.is_setup_spec(),
    {
        self.wired
    }

    /// The chunks in the order of the layout, each with its position, its
    /// grid and the grid's display buffer, as the last tick left them.
    pub fn get_chunks(&self) -> (chunks: &[Chunk])
        ensures
            world_of(chunks@) == self.world(),
    {
        self.chunks.as_slice()
    }

    /// Links every chunk to the chunks around it: for each of the eight
    /// directions, to the chunk that the layout has at the neighbouring
    /// position, or to none at the edge of the world. Grids are not touched.
    pub fn setup(&mut self)
        requires
            old(self).wf(),
        ensures
            final(self).wf(),
            final(self).is_setup_spec(),
            final(self).world() == wired(old(self).world()),
            final(self).tick_spec() == old(self).tick_spec(),
            final(self).center_position_spec() == old(self).center_position_spec(),
            final(self).center_chunk_pos_spec() == old(self).center_chunk_pos_spec(),
            world_is_consistent(old(self).world()) ==> world_is_consistent(final(self).world()),
    {
        let ghost before = self.world();
        self.wired = false;
        for c in 0..NUM_CHUNKS_TOTAL
            invariant
                is_laid_out(before),
                arena_wf(before),
                !self.wired,
                self.wf(),
                self.tick == old(self).tick,
                self.center_position == old(self).center_position,
                self.center_chunk_pos == old(self).center_chunk_pos,
                forall|k: int|
                    0 <= k < 64 ==> (#[trigger] self.world()[k]).position == before[k].position
                        && self.world()[k].grid == before[k].grid,
                forall|k: int| 0 <= k < c ==> (#[trigger] self.world()[k]).halo == wired_halo(before, k),
                forall|k: int| c <= k < 64 ==> (#[trigger] self.world()[k]).halo == before[k].halo,
        {
            for slot in 0..8usize
                invariant
                    c < 64,
                    is_laid_out(before),
                    arena_wf(before),
                    !self.wired,
                    self.wf(),
                    self.tick == old(self).tick,
                    self.center_position == old(self).center_position,
                    self.center_chunk_pos == old(self).center_chunk_pos,
                    forall|k: int|
                        0 <= k < 64 ==> (#[trigger] self.world()[k]).position == before[k].position
                            && self.world()[k].grid == before[k].grid,
                    forall|k: int|
                        0 <= k < c ==> (#[trigger] self.world()[k]).halo == wired_halo(before, k),
                    forall|k: int|
                        c < k < 64 ==> (#[trigger] self.world()[k]).halo == before[k].halo,
                    self.world()[c as int].halo.len() == 8,
                    forall|d: int|
                        0 <= d < slot ==> (#[trigger] self.world()[c as int].halo[d]) == wired_halo(
                            before,
                            c as int,
                        )[d],
            {
                let ghost now = self.world();
                assert(now[c as int] == self.chunks@[c as int]@);
                assert(now[c as int].position == layout_position(c as int));
                let position = self.chunks[c].position();
                let dir = HALO_DIRECTIONS[slot];
                let expected = ChunkPos::new(position.x + dir.0, position.y + dir.1);
                let link = self.find_chunk(expected);
                proof {
                    assert(expected == neighbor_position(before[c as int].position, slot as int));
                    assert(now[layout_index(expected)].position == before[layout_index(
                        expected,
                    )].position);
                    assert(link == occupant(before, expected));
                }
                self.chunks[c].set_halo(slot, link);
                proof {
                    let after = self.world();
                    assert(after =~= now.update(
                        c as int,
                        ChunkView { halo: now[c as int].halo.update(slot as int, link), ..now[c as int] },
                    ));
                    assert forall|k: int| 0 <= k < after.len() implies (#[trigger] after[k]).wf(
                        after.len(),
                    ) by {
                        assert(now[k].wf(now.len()));
                    }
                }
            }
            proof {
                assert(self.world()[c as int].halo =~= wired_halo(before, c as int));
            }
        }
        self.wired = true;
        proof {
            assert(self.world() =~= wired(before));
            let after = self.world();
            assert forall|k: int| 0 <= k < after.len() implies (#[trigger] after[k]).halo
                == wired_halo(after, k) by {
                assert(wired_halo(after, k) =~= wired_halo(before, k)) by {
                    assert forall|d: int| 0 <= d < 8 implies occupant(
                        after,
                        neighbor_position(after[k].position, d),
                    ) == occupant(before, neighbor_position(before[k].position, d)) by {
                        let pos = neighbor_position(before[k].position, d);
                        assert(after[layout_index(pos)].position == before[layout_index(
                            pos,
                        )].position);
                    }
                }
            }
        }
    }

    /// Runs tick number `tick`. During warm-up, up to tick `WARMUP_TICKS`,
    /// nothing moves. After it the four phases run one after the other, and
    /// in each the chunks of that phase are updated. Returns whether the
    /// phases ran, which is whether each chunk was updated in this tick.
    ///
    /// Matter is neither made nor lost, and a world whose display buffers
    /// show its cells before the tick has them show its cells after it.
    pub fn update(&mut self, tick: usize) -> (ran: bool)
        requires
            old(self).wf(),
            old(self).is_setup_spec(),
        ensures
            final(self).wf(),
            final(self).is_setup_spec(),
            final(self).world() == tick_updated(old(self).world(), tick),
            final(self).tick_spec() == tick,
            ran == (tick > WARMUP_TICKS),
            final(self).center_position_spec() == old(self).center_position_spec(),
            final(self).center_chunk_pos_spec() == old(self).center_chunk_pos_spec(),
            matter_in_world(final(self).world()) == matter_in_world(old(self).world()),
            world_is_consistent(old(self).world()) ==> world_is_consistent(final(self).world()),
    {
        proof {
            lemma_tick_conserves_matter(self.world(), tick);
            if world_is_consistent(self.world()) {
                lemma_tick_keeps_consistency(self.world(), tick);
            }
        }
        self.tick = tick;
        if tick > WARMUP_TICKS {
            proof {
                lemma_tick_keeps_frame(self.world(), tick);
            }
            self.update_phase(0, tick);
            self.update_phase(1, tick);
            self.update_phase(2, tick);
            self.update_phase(3, tick);
            true
        } else {
            false
        }
    }

    /// Runs one phase of tick `tick`: updates each chunk that takes part in
    /// `phase`, and finishes all of them before it returns.
    pub fn update_phase(&mut self, phase: u8, tick: usize)
        requires
            old(self).wf(),
            old(self).is_setup_spec(),
        ensures
            final(self).wf(),
            final(self).is_setup_spec(),
            final(self).world() == phase_updated(old(self).world(), phase as int, tick),
            final(self).tick_spec() == old(self).tick_spec(),
            final(self).center_position_spec() == old(self).center_position_spec(),
            final(self).center_chunk_pos_spec() == old(self).center_chunk_pos_spec(),
    {
        let ghost before = self.world();
        for c in 0..NUM_CHUNKS_TOTAL
            invariant
                is_laid_out(before),
                arena_wf(before),
                is_wired(before),
                self.wired,
                self.tick == old(self).tick,
                self.center_position == old(self).center_position,
                self.center_chunk_pos == old(self).center_chunk_pos,
                self.world() == phase_prefix(before, phase as int, tick, c as nat),
        {
            proof {
                lemma_phase_keeps_frame(before, phase as int, tick, c as nat);
                assert(self.world()[c as int] == self.chunks@[c as int]@);
            }
            if self.chunks[c].should_update(phase) {
                Chunk::update(&mut self.chunks, c, tick);
            }
        }
        proof {
            lemma_phase_keeps_frame(before, phase as int, tick, 64);
            lemma_frame_keeps_wiring(before, self.world());
        }
    }

    /// Takes note that tick number `tick` begins, and says whether chunks are
    /// to be updated in it: whether warm-up is over.
    pub fn begin_tick(&mut self, tick: usize) -> (live: bool)
        ensures
            live == (tick > WARMUP_TICKS),
            final(self).tick_spec() == tick,
            final(self).world() == old(self).world(),
            final(self).is_setup_spec() == old(self).is_setup_spec(),
            final(self).center_position_spec() == old(self).center_position_spec(),
            final(self).center_chunk_pos_spec() == old(self).center_chunk_pos_spec(),
    {
        self.tick = tick;
        tick > WARMUP_TICKS
    }

    /// Cuts `phase` into its jobs: one for each chunk that takes part in it,
    /// in the order of the layout. No two of them share a grid, so that they
    /// can be run side by side.
    pub fn phase_jobs(&self, phase: u8) -> (jobs: Vec<PhaseJob>)
        requires
            self.wf(),
            self.is_setup_spec(),
        ensures
            job_views(jobs@) == jobs_of(self.world(), phase as int, 64),
            forall|i: int|
                0 <= i < jobs@.len() ==> (#[trigger] jobs@[i])@.wf() && jobs@[i]@.fits(64),
    {
        let ghost world = self.world();
        let mut jobs: Vec<PhaseJob> = Vec::new();
        for c in 0..NUM_CHUNKS_TOTAL
            invariant
                world == self.world(),
                self.wf(),
                self.is_setup_spec(),
                job_views(jobs@) == jobs_of(world, phase as int, c as nat),
                forall|i: int|
                    0 <= i < jobs@.len() ==> (#[trigger] jobs@[i])@.wf() && jobs@[i]@.fits(64),
        {
            proof {
                assert(world[c as int] == self.chunks@[c as int]@);
            }
            if self.chunks[c].should_update(phase) {
                let job = PhaseJob::cut(&self.chunks, c);
                proof {
                    lemma_phase_safety(world, c as int, c as int, 4);
                    lemma_job_is_the_update(world, c as int, 0);
                }
                let ghost before = jobs@;
                jobs.push(job);
                proof {
                    assert(job_views(jobs@) =~= job_views(before).push(job_of(world, c as int)));
                }
            }
        }
        jobs
    }

    /// Writes the grids of `jobs` back to the chunks that they were cut from,
    /// one job after the other.
    pub fn commit_jobs(&mut self, jobs: &Vec<PhaseJob>)
        requires
            old(self).wf(),
            forall|i: int|
                0 <= i < jobs@.len() ==> (#[trigger] jobs@[i])@.wf() && jobs@[i]@.fits(64),
        ensures
            final(self).wf(),
            final(self).world() == committed_all(
                old(self).world(),
                job_views(jobs@),
                jobs@.len(),
            ),
            final(self).is_setup_spec() == old(self).is_setup_spec(),
            final(self).tick_spec() == old(self).tick_spec(),
            final(self).center_position_spec() == old(self).center_position_spec(),
            final(self).center_chunk_pos_spec() == old(self).center_chunk_pos_spec(),
    {
        let ghost before = self.world();
        let ghost views = job_views(jobs@);
        for i in 0..jobs.len()
            invariant
                is_laid_out(before),
                arena_wf(before),
                views == job_views(jobs@),
                forall|k: int|
                    0 <= k < jobs@.len() ==> (#[trigger] jobs@[k])@.wf() && jobs@[k]@.fits(64),
                self.wired == old(self).wired,
                self.tick == old(self).tick,
                self.center_position == old(self).center_position,
                self.center_chunk_pos == old(self).center_chunk_pos,
                self.world() == committed_all(before, views, i as nat),
        {
            proof {
                assert forall|k: int| 0 <= k < views.len() implies (#[trigger] views[k]).wf()
                    && views[k].fits(before.len()) by {
                    assert(jobs@[k]@.wf());
                }
                lemma_commit_all_keeps_frame(before, views, i as nat);
                assert(views[i as int] == jobs@[i as int]@);
            }
            jobs[i].commit(&mut self.chunks);
        }
        proof {
            assert forall|k: int| 0 <= k < views.len() implies (#[trigger] views[k]).wf()
                && views[k].fits(before.len()) by {
                assert(jobs@[k]@.wf());
            }
            lemma_commit_all_keeps_frame(before, views, jobs@.len());
            if self.wired {
                lemma_frame_keeps_wiring(before, self.world());
            }
        }
    }

    /// Runs one phase of tick `tick` by way of its jobs: cuts the phase into
    /// jobs, runs each, and writes them back. The world that results is that
    /// of `update_phase`.
    pub fn update_phase_in_jobs(&mut self, phase: u8, tick: usize)
        requires
            old(self).wf(),
            old(self).is_setup_spec(),
        ensures
            final(self).wf(),
            final(self).is_setup_spec(),
            final(self).world() == phase_updated(old(self).world(), phase as int, tick),
            final(self).tick_spec() == old(self).tick_spec(),
            final(self).center_position_spec() == old(self).center_position_spec(),
            final(self).center_chunk_pos_spec() == old(self).center_chunk_pos_spec(),
    {
        let ghost world = self.world();
        let mut jobs = self.phase_jobs(phase);
        let ghost cut = job_views(jobs@);
        let count = jobs.len();
        for i in 0..count
            invariant
                count == cut.len(),
                jobs@.len() == cut.len(),
                forall|k: int| 0 <= k < i ==> (#[trigger] jobs@[k])@ == cut[k].ran(tick),
                forall|k: int| i <= k < jobs@.len() ==> (#[trigger] jobs@[k])@ == cut[k],
                forall|k: int|
                    0 <= k < jobs@.len() ==> (#[trigger] jobs@[k])@.wf() && jobs@[k]@.fits(64),
        {
            jobs[i].run(tick);
        }
        proof {
            let ran = job_views(jobs@);
            assert forall|k: int| 0 <= k < ran.len() implies #[trigger] ran[k] == jobs_of(
                world,
                phase as int,
                64,
            )[k].ran(tick) by {
                assert(jobs@[k]@ == cut[k].ran(tick));
            }
            lemma_jobs_make_the_phase(world, phase as int, tick, ran);
        }
        self.commit_jobs(&jobs);
    }

    /// The grid of the chunk at `index`, to be changed in place: the way to
    /// seed the world.
    pub fn grid_mut(&mut self, index: usize) -> (grid: &mut CellGrid)
        requires
            index < old(self).world().len(),
        ensures
            grid@ == old(self).world()[index as int].grid,
            final(self).world() == old(self).world().update(
                index as int,
                old(self).world()[index as int].with_grid(final(grid)@),
            ),
            final(self).is_setup_spec() == old(self).is_setup_spec(),
            final(self).tick_spec() == old(self).tick_spec(),
            final(self).center_position_spec() == old(self).center_position_spec(),
            final(self).center_chunk_pos_spec() == old(self).center_chunk_pos_spec(),
            old(self).wf() && final(grid)@.wf() ==> final(self).wf(),
    {
        proof {
            let world = self.world();
            assert(world[index as int] == self.chunks@[index as int]@);
            if self.wf() {
                let chunks = self.chunks@;
                assert forall|chunk: Chunk|
                    chunk@.grid.wf() && chunk@ == world[index as int].with_grid(
                        chunk@.grid,
                    ) implies regridded_is_wf(
                    world,
                    index as int,
                    world_of(#[trigger] chunks.update(index as int, chunk))[index as int],
                ) && world_of(chunks.update(index as int, chunk)) == world.update(
                    index as int,
                    chunk@,
                ) by {
                    lemma_regrid_keeps_layout(world, index as int, chunk@.grid);
                    assert(world_of(chunks.update(index as int, chunk)) =~= world.update(
                        index as int,
                        chunk@,
                    ));
                }
            }
        }
        self.chunks[index].get_grid_mut()
    }

    /// Whether the display buffer of the chunk at `index` changed since it
    /// was last marked clean.
    pub fn is_texture_data_dirty(&self, index: usize) -> (dirty: bool)
        requires
            index < self.world().len(),
        ensures
            dirty == self.world()[index as int].grid.dirty,
    {
        proof {
            assert(self.world()[index as int] == self.chunks@[index as int]@);
        }
        self.chunks[index].get_grid().is_texture_data_dirty()
    }

    /// Marks the display buffer of the chunk at `index` as consumed.
    pub fn set_texture_data_clean(&mut self, index: usize)
        requires
            index < old(self).world().len(),
        ensures
            final(self).world() == old(self).world().update(
                index as int,
                old(self).world()[index as int].with_grid(
                    old(self).world()[index as int].grid.cleaned(),
                ),
            ),
            final(self).is_setup_spec() == old(self).is_setup_spec(),
            final(self).tick_spec() == old(self).tick_spec(),
            final(self).center_position_spec() == old(self).center_position_spec(),
            final(self).center_chunk_pos_spec() == old(self).center_chunk_pos_spec(),
            old(self).wf() ==> final(self).wf(),
    {
        proof {
            if self.wf() {
                assert(self.world()[index as int].wf(self.world().len()));
            }
        }
        self.grid_mut(index).set_texture_data_clean();
    }

    /// The centre that was set last, in cells.
    pub fn center_position(&self) -> (pos: WorldPos)
        ensures
            pos == self.center_position_spec(),
    {
        self.center_position
    }

    /// The chunk that holds the centre.
    pub fn center_chunk_pos(&self) -> (pos: ChunkPos)
        ensures
            pos == self.center_chunk_pos_spec(),
    {
        self.center_chunk_pos
    }

    /// Moves the centre to `pos`, given in cells, if that takes it into
    /// another chunk; a move inside the chunk that holds the centre is not
    /// recorded. The set of chunks is fixed: no chunk is added or dropped.
    pub fn set_center_position(&mut self, pos: WorldPos)
        ensures
            final(self).world() == old(self).world(),
            final(self).is_setup_spec() == old(self).is_setup_spec(),
            final(self).tick_spec() == old(self).tick_spec(),
            final(self).center_position_spec() == (if old(self).recentres_on(pos) {
                pos
            } else {
                old(self).center_position_spec()
            }),
            final(self).center_chunk_pos_spec() == (if old(self).recentres_on(pos) {
                chunk_of(pos)
            } else {
                old(self).center_chunk_pos_spec()
            }),
    {
        if pos.x != self.center_position.x || pos.y != self.center_position.y {
            let size: i32 = CHUNK_SIZE as i32;
            let new_chunk_pos = ChunkPos::new(pos.x / size, pos.y / size);
            if new_chunk_pos.x != self.center_chunk_pos.x || new_chunk_pos.y
                != self.center_chunk_pos.y {
                self.center_chunk_pos = new_chunk_pos;
                self.center_position = pos;
            }
        }
    }

    /// The index of the chunk that lies at `pos`, if the layout has one there.
    pub fn find_chunk(&self, pos: ChunkPos) -> (found: Option<usize>)
        requires
            self.wf(),
        ensures
            found == occupant(self.world(), pos),
            found matches Some(k) ==> k < 64 && self.world()[k as int].position == pos,
    {
        let idx = chunk_index(pos);
        assert(self.world()[idx as int] == self.chunks@[idx as int]@);
        let there = self.chunks[idx].position();
        if there.x == pos.x && there.y == pos.y {
            Some(idx)
        } else {
            None
        }
    }
}

} // verus!
