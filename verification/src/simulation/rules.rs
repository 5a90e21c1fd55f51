//! The movement rules as a mathematical model: one step for one cell, the
//! sweep of one chunk, one phase, and one tick, each a function from a world
//! to a world.

use vstd::prelude::*;
use crate::simulation::cell::Cell;
use crate::simulation::chunk::{phase_of, ChunkView};
use crate::simulation::grid::GridPos;
use crate::simulation::material::Material;

verus! {

/// Ticks up to this one leave the world as it is.
pub const WARMUP_TICKS: usize = 60;

/// Every chunk of the world is well formed, and links only into the world.
pub open spec fn arena_wf(world: Seq<ChunkView>) -> bool {
    forall|c: int| 0 <= c < world.len() ==> (#[trigger] world[c]).wf(world.len())
}

/// In which direction a coordinate has left the chunk: -1, 0 or 1.
pub open spec fn axis_hint(v: int) -> int {
    if v >= 32 {
        1
    } else if v < 0 {
        -1
    } else {
        0
    }
}

/// The position one row further down, which may lie outside the chunk.
pub open spec fn below(pos: GridPos) -> GridPos {
    GridPos { x: pos.x, y: (pos.y + 1) as i16 }
}

/// The index of the chunk that holds the cell under cell `pos` of chunk `c`,
/// if the world has one there.
pub open spec fn chunk_below(world: Seq<ChunkView>, c: int, pos: GridPos) -> Option<int> {
    world[c].grid_in_dir(c, axis_hint(below(pos).x as int), axis_hint(below(pos).y as int))
}

/// The cell under cell `pos` of chunk `c`, where `t` is the chunk that holds it.
pub open spec fn cell_below(world: Seq<ChunkView>, t: int, pos: GridPos) -> Cell {
    world[t].grid.cells[below(pos).wrapped().index()]
}

/// A cell as it arrives where it moved to: in its material's colour and
/// marked as moved in `tick`.
pub open spec fn landed(cell: Cell, tick: usize) -> Cell {
    Cell { color: cell.material.color_spec(), material: cell.material, last_processed_in_tick: tick }
}

/// A cell as it arrives in the place of the cell that moved: in its
/// material's colour, and otherwise as it was.
pub open spec fn vacated(cell: Cell) -> Cell {
    Cell { color: cell.material.color_spec(), ..cell }
}

/// Whether cell `pos` of chunk `c` moves when it is visited in `tick`: it is
/// sand that has not moved in this tick, the world has a chunk for the place
/// under it, and that place is empty.
pub open spec fn can_fall(world: Seq<ChunkView>, c: int, pos: GridPos, tick: usize) -> bool {
    let cell = world[c].grid.cells[pos.index()];
    &&& cell.last_processed_in_tick != tick
    &&& cell.material == Material::Sand
    &&& chunk_below(world, c, pos) matches Some(t) && cell_below(world, t, pos).material
        == Material::Empty
}

/// The world after cell `pos` of chunk `c` was visited in `tick`. Where the
/// cell can fall, it changes places with the empty cell under it; both
/// pixels are repainted and both grids marked dirty. Else nothing changes.
pub open spec fn step_cell(world: Seq<ChunkView>, c: int, pos: GridPos, tick: usize) -> Seq<
    ChunkView,
> {
    if can_fall(world, c, pos, tick) {
        let t = chunk_below(world, c, pos).unwrap();
        let cell = world[c].grid.cells[pos.index()];
        let under = cell_below(world, t, pos);
        let lifted = world.update(
            c,
            world[c].with_grid(world[c].grid.with_cell(pos.index(), vacated(under))),
        );
        lifted.update(
            t,
            lifted[t].with_grid(
                lifted[t].grid.with_cell(below(pos).wrapped().index(), landed(cell, tick)),
            ),
        )
    } else {
        world
    }
}

/// The `k`-th position that a sweep in `tick` visits, `k` from 0 to 1023.
/// Rows are taken from the bottom up in even ticks and from the top down in
/// odd ones; within a row, cells are taken from right to left in ticks
/// divisible by 4 and from left to right in all others.
pub open spec fn sweep_pos(tick: usize, k: int) -> GridPos {
    let row = k / 32;
    let col = k % 32;
    GridPos {
        x: (if tick % 4 == 0 {
            31 - col
        } else {
            col
        }) as i16,
        y: (if tick % 2 == 0 {
            31 - row
        } else {
            row
        }) as i16,
    }
}

/// The world after the first `k` visits of the sweep of chunk `c` in `tick`.
pub open spec fn sweep_prefix(world: Seq<ChunkView>, c: int, tick: usize, k: nat) -> Seq<
    ChunkView,
>
    decreases k,
{
    if k == 0 {
        world
    } else {
        step_cell(
            sweep_prefix(world, c, tick, (k - 1) as nat),
            c,
            sweep_pos(tick, k - 1),
            tick,
        )
    }
}

/// The world after chunk `c` was updated in `tick`: after all 1024 visits.
pub open spec fn chunk_updated(world: Seq<ChunkView>, c: int, tick: usize) -> Seq<ChunkView> {
    sweep_prefix(world, c, tick, 1024)
}

/// The world after those of its first `n` chunks that take part in `phase`
/// were updated in `tick`, in the order of their indices.
pub open spec fn phase_prefix(world: Seq<ChunkView>, phase: int, tick: usize, n: nat) -> Seq<
    ChunkView,
>
    decreases n,
{
    if n == 0 {
        world
    } else {
        let before = phase_prefix(world, phase, tick, (n - 1) as nat);
        if phase_of(before[n - 1].position) == phase {
            chunk_updated(before, n - 1, tick)
        } else {
            before
        }
    }
}

/// The world after `phase` of `tick`.
pub open spec fn phase_updated(world: Seq<ChunkView>, phase: int, tick: usize) -> Seq<ChunkView> {
    phase_prefix(world, phase, tick, world.len())
}

/// The world after `tick`: unchanged during warm-up, and after it the result
/// of the four phases, one after the other.
pub open spec fn tick_updated(world: Seq<ChunkView>, tick: usize) -> Seq<ChunkView> {
    if tick > WARMUP_TICKS {
        phase_updated(
            phase_updated(phase_updated(phase_updated(world, 0, tick), 1, tick), 2, tick),
            3,
            tick,
        )
    } else {
        world
    }
}

/// Two worlds have the same chunks in the same places with the same links;
/// only what their grids hold may differ.
pub open spec fn same_frame(before: Seq<ChunkView>, after: Seq<ChunkView>) -> bool {
    &&& after.len() == before.len()
    &&& forall|c: int|
        0 <= c < before.len() ==> (#[trigger] after[c]).position == before[c].position
            && after[c].halo == before[c].halo
}

/// A sweep visits only positions inside the chunk.
pub proof fn lemma_sweep_pos_in_bounds(tick: usize, k: int)
    requires
        0 <= k < 1024,
    ensures
        sweep_pos(tick, k).in_bounds(),
{
}

/// The place under a cell of a chunk lies in that chunk or, from the last
/// row, at the top of the chunk to its south.
pub proof fn lemma_below_in_bounds(pos: GridPos)
    requires
        pos.in_bounds(),
    ensures
        below(pos).wrapped().in_bounds(),
        axis_hint(below(pos).x as int) == 0,
        pos.y < 31 ==> axis_hint(below(pos).y as int) == 0 && below(pos).wrapped() == below(pos),
        pos.y == 31 ==> axis_hint(below(pos).y as int) == 1 && below(pos).wrapped() == (GridPos {
            x: pos.x,
            y: 0,
        }),
{
}

/// A visit keeps the world well formed, and keeps every chunk's position
/// and links.
pub proof fn lemma_step_keeps_frame(world: Seq<ChunkView>, c: int, pos: GridPos, tick: usize)
    requires
        arena_wf(world),
        0 <= c < world.len(),
        pos.in_bounds(),
    ensures
        arena_wf(step_cell(world, c, pos, tick)),
        same_frame(world, step_cell(world, c, pos, tick)),
{
    let after = step_cell(world, c, pos, tick);
    lemma_below_in_bounds(pos);
    assert(world[c].wf(world.len()));
    if can_fall(world, c, pos, tick) {
        let t = chunk_below(world, c, pos).unwrap();
        assert(0 <= t < world.len()) by {
            if pos.y == 31 {
                assert(world[c].halo[4] == Some(t as usize));
            }
        }
        assert(world[t].wf(world.len()));
        assert forall|k: int| 0 <= k < after.len() implies (#[trigger] after[k]).wf(
            after.len(),
        ) by {
            assert(world[k].wf(world.len()));
        }
    }
}

/// A sweep, as far as it has come, keeps the world well formed, and keeps
/// every chunk's position and links.
pub proof fn lemma_sweep_keeps_frame(world: Seq<ChunkView>, c: int, tick: usize, k: nat)
    requires
        arena_wf(world),
        0 <= c < world.len(),
        k <= 1024,
    ensures
        arena_wf(sweep_prefix(world, c, tick, k)),
        same_frame(world, sweep_prefix(world, c, tick, k)),
    decreases k,
{
    if k > 0 {
        lemma_sweep_keeps_frame(world, c, tick, (k - 1) as nat);
        lemma_sweep_pos_in_bounds(tick, k - 1);
        lemma_step_keeps_frame(
            sweep_prefix(world, c, tick, (k - 1) as nat),
            c,
            sweep_pos(tick, k - 1),
            tick,
        );
    }
}

/// A phase, as far as it has come, keeps the world well formed, and keeps
/// every chunk's position and links.
pub proof fn lemma_phase_keeps_frame(world: Seq<ChunkView>, phase: int, tick: usize, n: nat)
    requires
        arena_wf(world),
        n <= world.len(),
    ensures
        arena_wf(phase_prefix(world, phase, tick, n)),
        same_frame(world, phase_prefix(world, phase, tick, n)),
    decreases n,
{
    if n > 0 {
        lemma_phase_keeps_frame(world, phase, tick, (n - 1) as nat);
        let before = phase_prefix(world, phase, tick, (n - 1) as nat);
        lemma_sweep_keeps_frame(before, n - 1, tick, 1024);
    }
}

/// A tick keeps the world well formed, and keeps every chunk's position and
/// links.
pub proof fn lemma_tick_keeps_frame(world: Seq<ChunkView>, tick: usize)
    requires
        arena_wf(world),
    ensures
        arena_wf(tick_updated(world, tick)),
        same_frame(world, tick_updated(world, tick)),
{
    let after_first = phase_updated(world, 0, tick);
    let after_second = phase_updated(after_first, 1, tick);
    let after_third = phase_updated(after_second, 2, tick);
    lemma_phase_keeps_frame(world, 0, tick, world.len());
    lemma_phase_keeps_frame(after_first, 1, tick, after_first.len());
    lemma_phase_keeps_frame(after_second, 2, tick, after_second.len());
    lemma_phase_keeps_frame(after_third, 3, tick, after_third.len());
}

} // verus!
