//! What holds of every world, every tick and every order of visits.

use vstd::prelude::*;
use crate::simulation::cell::Cell;
use crate::simulation::chunk::{phase_of, ChunkPos, ChunkView};
use crate::simulation::grid::{lemma_with_cell_keeps_sync, GridPos};
use crate::simulation::material::Material;
use crate::simulation::rules::{
    arena_wf, below, can_fall, cell_below, chunk_below, chunk_updated, landed,
    lemma_below_in_bounds, lemma_phase_keeps_frame, lemma_step_keeps_frame,
    lemma_sweep_keeps_frame, lemma_sweep_pos_in_bounds, phase_prefix, phase_updated, step_cell,
    sweep_pos, sweep_prefix, tick_updated, vacated,
};
use crate::simulation::{is_laid_out, is_wired, neighbor_position, wired_halo};

verus! {

/// Two positions next to each other, in any of the eight directions, differ
/// in their phase.
pub proof fn lemma_neighbors_differ_in_phase(pos: ChunkPos, slot: int)
    requires
        0 <= slot < 8,
        i32::MIN < pos.x < i32::MAX,
        i32::MIN < pos.y < i32::MAX,
    ensures
        phase_of(neighbor_position(pos, slot)) != phase_of(pos),
{
}

/// Phase safety: in a wired layout, two chunks that are updated in the same
/// phase are never linked to each other, and no chunk is linked to itself.
pub proof fn lemma_phase_safety(world: Seq<ChunkView>, a: int, b: int, slot: int)
    requires
        is_laid_out(world),
        is_wired(world),
        0 <= a < 64,
        0 <= b < 64,
        0 <= slot < 8,
        phase_of(world[a].position) == phase_of(world[b].position),
    ensures
        world[a].halo[slot] != Some(b as usize),
        world[b].halo[slot] != Some(a as usize),
{
    assert(world[a].halo == wired_halo(world, a));
    assert(world[b].halo == wired_halo(world, b));
    lemma_neighbors_differ_in_phase(world[a].position, slot);
    lemma_neighbors_differ_in_phase(world[b].position, slot);
}

/// Every chunk takes part in exactly one of the four phases of a tick.
pub proof fn lemma_phase_in_range(pos: ChunkPos)
    ensures
        0 <= phase_of(pos) < 4,
{
}

/// Every grid of the world is consistent: its display buffer shows each
/// cell in the cell's colour, and that is the colour of the cell's material.
pub open spec fn world_is_consistent(world: Seq<ChunkView>) -> bool {
    forall|c: int| 0 <= c < world.len() ==> (#[trigger] world[c]).grid.is_consistent()
}

/// A visit keeps every grid consistent.
pub proof fn lemma_step_keeps_consistency(
    world: Seq<ChunkView>,
    c: int,
    pos: GridPos,
    tick: usize,
)
    requires
        arena_wf(world),
        0 <= c < world.len(),
        pos.in_bounds(),
        world_is_consistent(world),
    ensures
        world_is_consistent(step_cell(world, c, pos, tick)),
{
    let after = step_cell(world, c, pos, tick);
    lemma_step_keeps_frame(world, c, pos, tick);
    lemma_below_in_bounds(pos);
    if can_fall(world, c, pos, tick) {
        let t = chunk_below(world, c, pos).unwrap();
        let cell = world[c].grid.cells[pos.index()];
        let under = cell_below(world, t, pos);
        let q = below(pos).wrapped();
        assert(world[c].grid.is_consistent());
        lemma_with_cell_keeps_sync(world[c].grid, pos.index(), vacated(under));
        let lifted = world.update(
            c,
            world[c].with_grid(world[c].grid.with_cell(pos.index(), vacated(under))),
        );
        assert(0 <= t < world.len()) by {
            assert(world[c].wf(world.len()));
            if pos.y == 31 {
                assert(world[c].halo[4] == Some(t as usize));
            }
        }
        assert(world[t].grid.is_consistent());
        assert(lifted[t].grid.is_consistent());
        lemma_with_cell_keeps_sync(lifted[t].grid, q.index(), landed(cell, tick));
        assert forall|k: int| 0 <= k < after.len() implies (#[trigger] after[k]).grid.is_consistent() by {
            assert(world[k].grid.is_consistent());
        }
    }
}

/// A sweep, as far as it has come, keeps every grid consistent.
pub proof fn lemma_sweep_keeps_consistency(world: Seq<ChunkView>, c: int, tick: usize, k: nat)
    requires
        arena_wf(world),
        0 <= c < world.len(),
        k <= 1024,
        world_is_consistent(world),
    ensures
        world_is_consistent(sweep_prefix(world, c, tick, k)),
    decreases k,
{
    if k > 0 {
        lemma_sweep_keeps_consistency(world, c, tick, (k - 1) as nat);
        lemma_sweep_keeps_frame(world, c, tick, (k - 1) as nat);
        lemma_sweep_pos_in_bounds(tick, k - 1);
        lemma_step_keeps_consistency(
            sweep_prefix(world, c, tick, (k - 1) as nat),
            c,
            sweep_pos(tick, k - 1),
            tick,
        );
    }
}

/// A phase, as far as it has come, keeps every grid consistent.
pub proof fn lemma_phase_keeps_consistency(world: Seq<ChunkView>, phase: int, tick: usize, n: nat)
    requires
        arena_wf(world),
        n <= world.len(),
        world_is_consistent(world),
    ensures
        world_is_consistent(phase_prefix(world, phase, tick, n)),
    decreases n,
{
    if n > 0 {
        lemma_phase_keeps_consistency(world, phase, tick, (n - 1) as nat);
        lemma_phase_keeps_frame(world, phase, tick, (n - 1) as nat);
        lemma_sweep_keeps_consistency(
            phase_prefix(world, phase, tick, (n - 1) as nat),
            n - 1,
            tick,
            1024,
        );
    }
}

/// Consistency of display and cells: after a completed tick every grid of a
/// consistent world is consistent again.
pub proof fn lemma_tick_keeps_consistency(world: Seq<ChunkView>, tick: usize)
    requires
        arena_wf(world),
        world_is_consistent(world),
    ensures
        world_is_consistent(tick_updated(world, tick)),
{
    let after_first = phase_updated(world, 0, tick);
    let after_second = phase_updated(after_first, 1, tick);
    let after_third = phase_updated(after_second, 2, tick);
    lemma_phase_keeps_frame(world, 0, tick, world.len());
    lemma_phase_keeps_consistency(world, 0, tick, world.len());
    lemma_phase_keeps_frame(after_first, 1, tick, after_first.len());
    lemma_phase_keeps_consistency(after_first, 1, tick, after_first.len());
    lemma_phase_keeps_frame(after_second, 2, tick, after_second.len());
    lemma_phase_keeps_consistency(after_second, 2, tick, after_second.len());
    lemma_phase_keeps_consistency(after_third, 3, tick, after_third.len());
}

/// Cell `pos` of chunk `a` holds matter that has moved in `tick`.
pub open spec fn has_moved(world: Seq<ChunkView>, a: int, pos: GridPos, tick: usize) -> bool {
    let cell = world[a].grid.cells[pos.index()];
    cell.holds_matter() && cell.last_processed_in_tick == tick
}

/// A visit to a cell that has moved in this tick changes nothing.
pub proof fn lemma_moved_cell_is_skipped(world: Seq<ChunkView>, c: int, pos: GridPos, tick: usize)
    requires
        world[c].grid.cells[pos.index()].last_processed_in_tick == tick,
    ensures
        step_cell(world, c, pos, tick) == world,
{
}

/// A visit that moves a cell leaves it, marked as moved in this tick, in the
/// place under where it was, and leaves the empty cell from there in its place.
pub proof fn lemma_step_marks_the_mover(world: Seq<ChunkView>, c: int, pos: GridPos, tick: usize)
    requires
        arena_wf(world),
        0 <= c < world.len(),
        pos.in_bounds(),
        can_fall(world, c, pos, tick),
    ensures
        chunk_below(world, c, pos) matches Some(t) && 0 <= t < world.len() && step_cell(
            world,
            c,
            pos,
            tick,
        )[t].grid.cells[below(pos).wrapped().index()] == landed(
            world[c].grid.cells[pos.index()],
            tick,
        ) && has_moved(step_cell(world, c, pos, tick), t, below(pos).wrapped(), tick),
        step_cell(world, c, pos, tick)[c].grid.cells[pos.index()].material == Material::Empty,
{
    lemma_below_in_bounds(pos);
    assert(world[c].wf(world.len()));
    let t = chunk_below(world, c, pos).unwrap();
    if pos.y == 31 {
        assert(world[c].halo[4] == Some(t as usize));
    }
    assert(world[t].wf(world.len()));
}

/// No double move, one visit: a cell that has moved in this tick is where it
/// was, and as it was, after any visit to any cell in the same tick.
pub proof fn lemma_step_keeps_moved_cells(
    world: Seq<ChunkView>,
    c: int,
    pos: GridPos,
    tick: usize,
    a: int,
    at: GridPos,
)
    requires
        arena_wf(world),
        0 <= c < world.len(),
        pos.in_bounds(),
        0 <= a < world.len(),
        at.in_bounds(),
        has_moved(world, a, at, tick),
    ensures
        step_cell(world, c, pos, tick)[a].grid.cells[at.index()] == world[a].grid.cells[at.index()],
        has_moved(step_cell(world, c, pos, tick), a, at, tick),
{
    lemma_below_in_bounds(pos);
    assert(world[c].wf(world.len()));
    assert(world[a].wf(world.len()));
    if can_fall(world, c, pos, tick) {
        let t = chunk_below(world, c, pos).unwrap();
        if pos.y == 31 {
            assert(world[c].halo[4] == Some(t as usize));
        }
        assert(world[t].wf(world.len()));
    }
}

/// No double move, one sweep: a cell that has moved in this tick by the time
/// a sweep has made `from` visits is where it was, and as it was, after each
/// later visit of that sweep.
pub proof fn lemma_sweep_keeps_moved_cells(
    world: Seq<ChunkView>,
    c: int,
    tick: usize,
    from: nat,
    to: nat,
    a: int,
    at: GridPos,
)
    requires
        arena_wf(world),
        0 <= c < world.len(),
        from <= to <= 1024,
        0 <= a < world.len(),
        at.in_bounds(),
        has_moved(sweep_prefix(world, c, tick, from), a, at, tick),
    ensures
        sweep_prefix(world, c, tick, to)[a].grid.cells[at.index()] == sweep_prefix(
            world,
            c,
            tick,
            from,
        )[a].grid.cells[at.index()],
        has_moved(sweep_prefix(world, c, tick, to), a, at, tick),
    decreases to,
{
    if from < to {
        lemma_sweep_keeps_moved_cells(world, c, tick, from, (to - 1) as nat, a, at);
        lemma_sweep_keeps_frame(world, c, tick, (to - 1) as nat);
        lemma_sweep_pos_in_bounds(tick, to - 1);
        lemma_step_keeps_moved_cells(
            sweep_prefix(world, c, tick, (to - 1) as nat),
            c,
            sweep_pos(tick, to - 1),
            tick,
            a,
            at,
        );
    }
}

/// No double move, one phase: a cell that has moved in this tick by the time
/// a phase has come to chunk `from` is where it was, and as it was, after the
/// update of each later chunk of that phase.
pub proof fn lemma_phase_keeps_moved_cells(
    world: Seq<ChunkView>,
    phase: int,
    tick: usize,
    from: nat,
    to: nat,
    a: int,
    at: GridPos,
)
    requires
        arena_wf(world),
        from <= to <= world.len(),
        0 <= a < world.len(),
        at.in_bounds(),
        has_moved(phase_prefix(world, phase, tick, from), a, at, tick),
    ensures
        phase_prefix(world, phase, tick, to)[a].grid.cells[at.index()] == phase_prefix(
            world,
            phase,
            tick,
            from,
        )[a].grid.cells[at.index()],
        has_moved(phase_prefix(world, phase, tick, to), a, at, tick),
    decreases to,
{
    if from < to {
        lemma_phase_keeps_moved_cells(world, phase, tick, from, (to - 1) as nat, a, at);
        lemma_phase_keeps_frame(world, phase, tick, (to - 1) as nat);
        let before = phase_prefix(world, phase, tick, (to - 1) as nat);
        lemma_sweep_keeps_moved_cells(before, to - 1, tick, 0, 1024, a, at);
    }
}

/// No double move, one tick: a cell that has moved in tick `tick` is where
/// it was, and as it was, when the update for that tick is complete.
pub proof fn lemma_tick_keeps_moved_cells(world: Seq<ChunkView>, tick: usize, a: int, at: GridPos)
    requires
        arena_wf(world),
        0 <= a < world.len(),
        at.in_bounds(),
        has_moved(world, a, at, tick),
    ensures
        tick_updated(world, tick)[a].grid.cells[at.index()] == world[a].grid.cells[at.index()],
        has_moved(tick_updated(world, tick), a, at, tick),
{
    let after_first = phase_updated(world, 0, tick);
    let after_second = phase_updated(after_first, 1, tick);
    let after_third = phase_updated(after_second, 2, tick);
    lemma_phase_keeps_frame(world, 0, tick, world.len());
    lemma_phase_keeps_moved_cells(world, 0, tick, 0, world.len(), a, at);
    lemma_phase_keeps_frame(after_first, 1, tick, after_first.len());
    lemma_phase_keeps_moved_cells(after_first, 1, tick, 0, after_first.len(), a, at);
    lemma_phase_keeps_frame(after_second, 2, tick, after_second.len());
    lemma_phase_keeps_moved_cells(after_second, 2, tick, 0, after_second.len(), a, at);
    lemma_phase_keeps_moved_cells(after_third, 3, tick, 0, after_third.len(), a, at);
}

/// Cell `pos` of chunk `c` is held up: it is no sand, or the world ends under
/// it, or the place under it is not empty.
pub open spec fn is_held_up(world: Seq<ChunkView>, c: int, pos: GridPos) -> bool {
    world[c].grid.cells[pos.index()].material == Material::Sand ==> (chunk_below(world, c, pos)
        matches Some(t) ==> cell_below(world, t, pos).material != Material::Empty)
}

/// The world is at rest: every cell of it is held up.
pub open spec fn is_at_rest(world: Seq<ChunkView>) -> bool {
    forall|c: int, pos: GridPos|
        0 <= c < world.len() && pos.in_bounds() ==> #[trigger] is_held_up(world, c, pos)
}

/// A sweep, as far as it has come, leaves a world at rest as it is.
pub proof fn lemma_sweep_at_rest(world: Seq<ChunkView>, c: int, tick: usize, k: nat)
    requires
        0 <= c < world.len(),
        k <= 1024,
        is_at_rest(world),
    ensures
        sweep_prefix(world, c, tick, k) == world,
    decreases k,
{
    if k > 0 {
        lemma_sweep_at_rest(world, c, tick, (k - 1) as nat);
        lemma_sweep_pos_in_bounds(tick, k - 1);
        assert(is_held_up(world, c, sweep_pos(tick, k - 1)));
    }
}

/// A phase, as far as it has come, leaves a world at rest as it is.
pub proof fn lemma_phase_at_rest(world: Seq<ChunkView>, phase: int, tick: usize, n: nat)
    requires
        n <= world.len(),
        is_at_rest(world),
    ensures
        phase_prefix(world, phase, tick, n) == world,
    decreases n,
{
    if n > 0 {
        lemma_phase_at_rest(world, phase, tick, (n - 1) as nat);
        lemma_sweep_at_rest(world, n - 1, tick, 1024);
    }
}

/// Settling: a world at rest is a fixed point of every tick, so that any
/// number of updates leaves it as it is.
pub proof fn lemma_tick_at_rest(world: Seq<ChunkView>, tick: usize)
    requires
        is_at_rest(world),
    ensures
        tick_updated(world, tick) == world,
{
    lemma_phase_at_rest(world, 0, tick, world.len());
    lemma_phase_at_rest(world, 1, tick, world.len());
    lemma_phase_at_rest(world, 2, tick, world.len());
    lemma_phase_at_rest(world, 3, tick, world.len());
}

/// A world without an empty cell is at rest: sand lies on sand, or on the
/// edge of the world.
pub proof fn lemma_full_world_is_at_rest(world: Seq<ChunkView>)
    requires
        arena_wf(world),
        forall|c: int, i: int|
            0 <= c < world.len() && 0 <= i < 1024 ==> (#[trigger] world[c].grid.cells[i]).material
                != Material::Empty,
    ensures
        is_at_rest(world),
{
    assert forall|c: int, pos: GridPos|
        0 <= c < world.len() && pos.in_bounds() implies #[trigger] is_held_up(world, c, pos) by {
        lemma_below_in_bounds(pos);
        assert(world[c].wf(world.len()));
        if chunk_below(world, c, pos) is Some {
            let t = chunk_below(world, c, pos).unwrap();
            if pos.y == 31 {
                assert(world[c].halo[4] == Some(t as usize));
            }
            let q = below(pos).wrapped();
            assert(world[t].grid.cells[q.index()].material != Material::Empty);
        }
    }
}

/// 1 where `kind` holds of the cell's material, else 0.
pub open spec fn counts_as(cell: Cell, kind: spec_fn(Material) -> bool) -> nat {
    if kind(cell.material) {
        1
    } else {
        0
    }
}

/// The number of cells whose material is of the kind `kind`.
pub open spec fn count_in_cells(cells: Seq<Cell>, kind: spec_fn(Material) -> bool) -> nat
    decreases cells.len(),
{
    if cells.len() == 0 {
        0
    } else {
        count_in_cells(cells.drop_last(), kind) + counts_as(cells.last(), kind)
    }
}

/// The number of cells, over all chunks, whose material is of the kind `kind`.
pub open spec fn count_in_world(world: Seq<ChunkView>, kind: spec_fn(Material) -> bool) -> nat
    decreases world.len(),
{
    if world.len() == 0 {
        0
    } else {
        count_in_world(world.drop_last(), kind) + count_in_cells(world.last().grid.cells, kind)
    }
}

/// The number of cells, over all chunks, that are not empty.
pub open spec fn matter_in_world(world: Seq<ChunkView>) -> nat {
    count_in_world(world, |material: Material| material != Material::Empty)
}

/// Replacing one cell changes a count by what the new cell adds and the old
/// one took with it.
pub proof fn lemma_count_after_cell_update(
    cells: Seq<Cell>,
    i: int,
    cell: Cell,
    kind: spec_fn(Material) -> bool,
)
    requires
        0 <= i < cells.len(),
    ensures
        count_in_cells(cells.update(i, cell), kind) + counts_as(cells[i], kind) == count_in_cells(
            cells,
            kind,
        ) + counts_as(cell, kind),
    decreases cells.len(),
{
    let after = cells.update(i, cell);
    if i == cells.len() - 1 {
        assert(after.drop_last() =~= cells.drop_last());
    } else {
        assert(after.drop_last() =~= cells.drop_last().update(i, cell));
        lemma_count_after_cell_update(cells.drop_last(), i, cell, kind);
    }
}

/// Replacing one chunk changes a count by what the new chunk adds and the
/// old one took with it.
pub proof fn lemma_count_after_chunk_update(
    world: Seq<ChunkView>,
    c: int,
    chunk: ChunkView,
    kind: spec_fn(Material) -> bool,
)
    requires
        0 <= c < world.len(),
    ensures
        count_in_world(world.update(c, chunk), kind) + count_in_cells(world[c].grid.cells, kind)
            == count_in_world(world, kind) + count_in_cells(chunk.grid.cells, kind),
    decreases world.len(),
{
    let after = world.update(c, chunk);
    if c == world.len() - 1 {
        assert(after.drop_last() =~= world.drop_last());
    } else {
        assert(after.drop_last() =~= world.drop_last().update(c, chunk));
        lemma_count_after_chunk_update(world.drop_last(), c, chunk, kind);
    }
}

/// A visit keeps the number of cells of every kind of material.
pub proof fn lemma_step_conserves(
    world: Seq<ChunkView>,
    c: int,
    pos: GridPos,
    tick: usize,
    kind: spec_fn(Material) -> bool,
)
    requires
        arena_wf(world),
        0 <= c < world.len(),
        pos.in_bounds(),
    ensures
        count_in_world(step_cell(world, c, pos, tick), kind) == count_in_world(world, kind),
{
    lemma_below_in_bounds(pos);
    assert(world[c].wf(world.len()));
    if can_fall(world, c, pos, tick) {
        let t = chunk_below(world, c, pos).unwrap();
        if pos.y == 31 {
            assert(world[c].halo[4] == Some(t as usize));
        }
        assert(world[t].wf(world.len()));
        let q = below(pos).wrapped();
        let cell = world[c].grid.cells[pos.index()];
        let under = cell_below(world, t, pos);
        let raised = world[c].with_grid(world[c].grid.with_cell(pos.index(), vacated(under)));
        let lifted = world.update(c, raised);
        let lowered = lifted[t].with_grid(lifted[t].grid.with_cell(q.index(), landed(cell, tick)));
        assert(lifted[t].grid.cells[q.index()] == under);
        lemma_count_after_cell_update(world[c].grid.cells, pos.index(), vacated(under), kind);
        lemma_count_after_chunk_update(world, c, raised, kind);
        lemma_count_after_cell_update(lifted[t].grid.cells, q.index(), landed(cell, tick), kind);
        lemma_count_after_chunk_update(lifted, t, lowered, kind);
    }
}

/// A sweep, as far as it has come, keeps the number of cells of every kind
/// of material.
pub proof fn lemma_sweep_conserves(
    world: Seq<ChunkView>,
    c: int,
    tick: usize,
    k: nat,
    kind: spec_fn(Material) -> bool,
)
    requires
        arena_wf(world),
        0 <= c < world.len(),
        k <= 1024,
    ensures
        count_in_world(sweep_prefix(world, c, tick, k), kind) == count_in_world(world, kind),
    decreases k,
{
    if k > 0 {
        lemma_sweep_conserves(world, c, tick, (k - 1) as nat, kind);
        lemma_sweep_keeps_frame(world, c, tick, (k - 1) as nat);
        lemma_sweep_pos_in_bounds(tick, k - 1);
        lemma_step_conserves(
            sweep_prefix(world, c, tick, (k - 1) as nat),
            c,
            sweep_pos(tick, k - 1),
            tick,
            kind,
        );
    }
}

/// A phase, as far as it has come, keeps the number of cells of every kind
/// of material.
pub proof fn lemma_phase_conserves(
    world: Seq<ChunkView>,
    phase: int,
    tick: usize,
    n: nat,
    kind: spec_fn(Material) -> bool,
)
    requires
        arena_wf(world),
        n <= world.len(),
    ensures
        count_in_world(phase_prefix(world, phase, tick, n), kind) == count_in_world(world, kind),
    decreases n,
{
    if n > 0 {
        lemma_phase_conserves(world, phase, tick, (n - 1) as nat, kind);
        lemma_phase_keeps_frame(world, phase, tick, (n - 1) as nat);
        lemma_sweep_conserves(
            phase_prefix(world, phase, tick, (n - 1) as nat),
            n - 1,
            tick,
            1024,
            kind,
        );
    }
}

/// A tick keeps the number of cells of every kind of material: cells move,
/// and none turns into another.
pub proof fn lemma_tick_conserves(
    world: Seq<ChunkView>,
    tick: usize,
    kind: spec_fn(Material) -> bool,
)
    requires
        arena_wf(world),
    ensures
        count_in_world(tick_updated(world, tick), kind) == count_in_world(world, kind),
{
    let after_first = phase_updated(world, 0, tick);
    let after_second = phase_updated(after_first, 1, tick);
    let after_third = phase_updated(after_second, 2, tick);
    lemma_phase_keeps_frame(world, 0, tick, world.len());
    lemma_phase_conserves(world, 0, tick, world.len(), kind);
    lemma_phase_keeps_frame(after_first, 1, tick, after_first.len());
    lemma_phase_conserves(after_first, 1, tick, after_first.len(), kind);
    lemma_phase_keeps_frame(after_second, 2, tick, after_second.len());
    lemma_phase_conserves(after_second, 2, tick, after_second.len(), kind);
    lemma_phase_conserves(after_third, 3, tick, after_third.len(), kind);
}

/// Conservation: a tick keeps the number of cells that are not empty, over
/// all chunks together.
pub proof fn lemma_tick_conserves_matter(world: Seq<ChunkView>, tick: usize)
    requires
        arena_wf(world),
    ensures
        matter_in_world(tick_updated(world, tick)) == matter_in_world(world),
{
    lemma_tick_conserves(world, tick, |material: Material| material != Material::Empty);
}

/// Whether the update of chunk `c` may read or write the grid of chunk `j`:
/// whether `j` is `c` itself or the chunk linked to the south of `c`.
pub open spec fn touches(world: Seq<ChunkView>, c: int, j: int) -> bool {
    j == c || (world[c].halo[4] matches Some(t) && t == j)
}

/// The updates of chunks `a` and `b` touch no grid in common.
pub open spec fn touch_apart(world: Seq<ChunkView>, a: int, b: int) -> bool {
    forall|j: int| 0 <= j < world.len() ==> !(#[trigger] touches(world, a, j) && touches(world, b, j))
}

/// Two worlds agree on every chunk that the update of chunk `c` touches.
pub open spec fn agree_where_touched(first: Seq<ChunkView>, second: Seq<ChunkView>, c: int) -> bool {
    &&& first.len() == second.len()
    &&& forall|j: int|
        0 <= j < first.len() && #[trigger] touches(first, c, j) ==> first[j] == second[j]
}

/// A visit to a cell of chunk `c` leaves every chunk that the update of `c`
/// does not touch as it is.
pub proof fn lemma_step_leaves_others(
    world: Seq<ChunkView>,
    c: int,
    pos: GridPos,
    tick: usize,
    j: int,
)
    requires
        arena_wf(world),
        0 <= c < world.len(),
        0 <= j < world.len(),
        pos.in_bounds(),
        !touches(world, c, j),
    ensures
        step_cell(world, c, pos, tick)[j] == world[j],
{
    lemma_below_in_bounds(pos);
    assert(world[c].wf(world.len()));
    if can_fall(world, c, pos, tick) {
        let t = chunk_below(world, c, pos).unwrap();
        if pos.y == 31 {
            assert(world[c].halo[4] == Some(t as usize));
        }
    }
}

/// The update of chunk `c`, as far as it has come, leaves every chunk that
/// it does not touch as it is.
pub proof fn lemma_sweep_leaves_others(
    world: Seq<ChunkView>,
    c: int,
    tick: usize,
    k: nat,
    j: int,
)
    requires
        arena_wf(world),
        0 <= c < world.len(),
        0 <= j < world.len(),
        k <= 1024,
        !touches(world, c, j),
    ensures
        sweep_prefix(world, c, tick, k)[j] == world[j],
    decreases k,
{
    if k > 0 {
        let before = sweep_prefix(world, c, tick, (k - 1) as nat);
        lemma_sweep_leaves_others(world, c, tick, (k - 1) as nat, j);
        lemma_sweep_keeps_frame(world, c, tick, (k - 1) as nat);
        lemma_sweep_pos_in_bounds(tick, k - 1);
        assert(before[c].halo == world[c].halo);
        lemma_step_leaves_others(before, c, sweep_pos(tick, k - 1), tick, j);
    }
}

/// What a visit to a cell of chunk `c` does to the chunks that the update of
/// `c` touches depends on those chunks alone.
pub proof fn lemma_step_is_local(
    first: Seq<ChunkView>,
    second: Seq<ChunkView>,
    c: int,
    pos: GridPos,
    tick: usize,
)
    requires
        arena_wf(first),
        arena_wf(second),
        0 <= c < first.len(),
        pos.in_bounds(),
        agree_where_touched(first, second, c),
    ensures
        agree_where_touched(step_cell(first, c, pos, tick), step_cell(second, c, pos, tick), c),
{
    lemma_below_in_bounds(pos);
    lemma_step_keeps_frame(first, c, pos, tick);
    lemma_step_keeps_frame(second, c, pos, tick);
    assert(first[c].wf(first.len()));
    assert(touches(first, c, c));
    assert(first[c] == second[c]);
    let after_first = step_cell(first, c, pos, tick);
    let after_second = step_cell(second, c, pos, tick);
    if chunk_below(first, c, pos) is Some {
        let t = chunk_below(first, c, pos).unwrap();
        if pos.y == 31 {
            assert(first[c].halo[4] == Some(t as usize));
        }
        assert(touches(first, c, t));
        assert(first[t] == second[t]);
        assert(can_fall(first, c, pos, tick) == can_fall(second, c, pos, tick));
    }
    assert forall|j: int|
        0 <= j < after_first.len() && #[trigger] touches(after_first, c, j) implies after_first[j]
        == after_second[j] by {
        assert(after_first[c].halo == first[c].halo);
        assert(touches(first, c, j));
        assert(first[j] == second[j]);
    }
}

/// What the update of chunk `c`, as far as it has come, does to the chunks
/// that it touches depends on those chunks alone.
pub proof fn lemma_sweep_is_local(
    first: Seq<ChunkView>,
    second: Seq<ChunkView>,
    c: int,
    tick: usize,
    k: nat,
)
    requires
        arena_wf(first),
        arena_wf(second),
        0 <= c < first.len(),
        k <= 1024,
        agree_where_touched(first, second, c),
    ensures
        agree_where_touched(
            sweep_prefix(first, c, tick, k),
            sweep_prefix(second, c, tick, k),
            c,
        ),
    decreases k,
{
    if k > 0 {
        lemma_sweep_is_local(first, second, c, tick, (k - 1) as nat);
        lemma_sweep_keeps_frame(first, c, tick, (k - 1) as nat);
        lemma_sweep_keeps_frame(second, c, tick, (k - 1) as nat);
        lemma_sweep_pos_in_bounds(tick, k - 1);
        lemma_step_is_local(
            sweep_prefix(first, c, tick, (k - 1) as nat),
            sweep_prefix(second, c, tick, (k - 1) as nat),
            c,
            sweep_pos(tick, k - 1),
            tick,
        );
    }
}

/// Two chunks whose updates touch no grid in common can be updated in
/// either order: the world that results is the same.
pub proof fn lemma_updates_apart_commute(world: Seq<ChunkView>, a: int, b: int, tick: usize)
    requires
        arena_wf(world),
        0 <= a < world.len(),
        0 <= b < world.len(),
        touch_apart(world, a, b),
    ensures
        chunk_updated(chunk_updated(world, a, tick), b, tick) == chunk_updated(
            chunk_updated(world, b, tick),
            a,
            tick,
        ),
{
    let after_a = chunk_updated(world, a, tick);
    let after_b = chunk_updated(world, b, tick);
    let a_then_b = chunk_updated(after_a, b, tick);
    let b_then_a = chunk_updated(after_b, a, tick);
    lemma_sweep_keeps_frame(world, a, tick, 1024);
    lemma_sweep_keeps_frame(world, b, tick, 1024);
    lemma_sweep_keeps_frame(after_a, b, tick, 1024);
    lemma_sweep_keeps_frame(after_b, a, tick, 1024);
    assert(touches(world, a, a));
    assert(touches(world, b, b));
    // the update of one chunk leaves alone what the update of the other touches
    assert forall|j: int| 0 <= j < world.len() && #[trigger] touches(world, a, j) implies after_b[j]
        == world[j] by {
        assert(!(touches(world, a, j) && touches(world, b, j)));
        lemma_sweep_leaves_others(world, b, tick, 1024, j);
    }
    assert forall|j: int| 0 <= j < world.len() && #[trigger] touches(world, b, j) implies after_a[j]
        == world[j] by {
        assert(!(touches(world, a, j) && touches(world, b, j)));
        lemma_sweep_leaves_others(world, a, tick, 1024, j);
    }
    assert(agree_where_touched(world, after_b, a));
    assert(agree_where_touched(world, after_a, b));
    lemma_sweep_is_local(world, after_b, a, tick, 1024);
    lemma_sweep_is_local(world, after_a, b, tick, 1024);
    assert(after_a[a].halo == world[a].halo);
    assert(after_b[b].halo == world[b].halo);
    assert(after_a[b].halo == world[b].halo);
    assert(after_b[a].halo == world[a].halo);
    assert forall|j: int| 0 <= j < world.len() implies a_then_b[j] == b_then_a[j] by {
        assert(!(touches(world, a, j) && touches(world, b, j)));
        if touches(world, a, j) {
            assert(touches(after_a, a, j));
            assert(after_a[j] == b_then_a[j]);
            assert(!touches(after_a, b, j));
            lemma_sweep_leaves_others(after_a, b, tick, 1024, j);
        } else if touches(world, b, j) {
            assert(touches(after_b, b, j));
            assert(after_b[j] == a_then_b[j]);
            assert(!touches(after_b, a, j));
            lemma_sweep_leaves_others(after_b, a, tick, 1024, j);
        } else {
            lemma_sweep_leaves_others(world, a, tick, 1024, j);
            lemma_sweep_leaves_others(world, b, tick, 1024, j);
            assert(!touches(after_a, b, j));
            assert(!touches(after_b, a, j));
            lemma_sweep_leaves_others(after_a, b, tick, 1024, j);
            lemma_sweep_leaves_others(after_b, a, tick, 1024, j);
        }
    }
    assert(a_then_b =~= b_then_a);
}

/// In a wired layout, the updates of two different chunks of one phase touch
/// no grid in common.
pub proof fn lemma_same_phase_touch_apart(world: Seq<ChunkView>, a: int, b: int)
    requires
        is_laid_out(world),
        is_wired(world),
        0 <= a < 64,
        0 <= b < 64,
        a != b,
        phase_of(world[a].position) == phase_of(world[b].position),
    ensures
        touch_apart(world, a, b),
{
    assert(world[a].halo == wired_halo(world, a));
    assert(world[b].halo == wired_halo(world, b));
    lemma_phase_safety(world, a, b, 4);
    assert forall|j: int| 0 <= j < world.len() implies !(#[trigger] touches(world, a, j) && touches(
        world,
        b,
        j,
    )) by {
        if touches(world, a, j) && touches(world, b, j) {
            assert(j != a && j != b);
            assert(world[j].position == neighbor_position(world[a].position, 4));
            assert(world[j].position == neighbor_position(world[b].position, 4));
            assert(world[a].position == world[b].position);
            assert(false);
        }
    }
}

/// Phase safety, as it bears on the result: in a wired layout, two different
/// chunks of one phase can be updated in either order, hence side by side.
pub proof fn lemma_same_phase_updates_commute(
    world: Seq<ChunkView>,
    a: int,
    b: int,
    tick: usize,
)
    requires
        is_laid_out(world),
        is_wired(world),
        arena_wf(world),
        0 <= a < 64,
        0 <= b < 64,
        a != b,
        phase_of(world[a].position) == phase_of(world[b].position),
    ensures
        chunk_updated(chunk_updated(world, a, tick), b, tick) == chunk_updated(
            chunk_updated(world, b, tick),
            a,
            tick,
        ),
{
    lemma_same_phase_touch_apart(world, a, b);
    lemma_updates_apart_commute(world, a, b, tick);
}

/// Each grid of `after` is as it is in `before`, or is marked dirty.
pub open spec fn changes_are_marked(before: Seq<ChunkView>, after: Seq<ChunkView>) -> bool {
    &&& after.len() == before.len()
    &&& forall|j: int|
        0 <= j < before.len() ==> (#[trigger] after[j]).grid == before[j].grid || after[j].grid.dirty
}

/// A visit marks every grid that it changes as dirty, and clears no mark.
pub proof fn lemma_step_marks_changes(world: Seq<ChunkView>, c: int, pos: GridPos, tick: usize)
    requires
        arena_wf(world),
        0 <= c < world.len(),
        pos.in_bounds(),
    ensures
        changes_are_marked(world, step_cell(world, c, pos, tick)),
{
    lemma_below_in_bounds(pos);
    assert(world[c].wf(world.len()));
    if can_fall(world, c, pos, tick) {
        let t = chunk_below(world, c, pos).unwrap();
        if pos.y == 31 {
            assert(world[c].halo[4] == Some(t as usize));
        }
    }
}

/// A sweep, as far as it has come, has marked every grid that it changed.
pub proof fn lemma_sweep_marks_changes(world: Seq<ChunkView>, c: int, tick: usize, k: nat)
    requires
        arena_wf(world),
        0 <= c < world.len(),
        k <= 1024,
    ensures
        changes_are_marked(world, sweep_prefix(world, c, tick, k)),
    decreases k,
{
    if k > 0 {
        let before = sweep_prefix(world, c, tick, (k - 1) as nat);
        lemma_sweep_marks_changes(world, c, tick, (k - 1) as nat);
        lemma_sweep_keeps_frame(world, c, tick, (k - 1) as nat);
        lemma_sweep_pos_in_bounds(tick, k - 1);
        lemma_step_marks_changes(before, c, sweep_pos(tick, k - 1), tick);
        let after = sweep_prefix(world, c, tick, k);
        assert forall|j: int| 0 <= j < world.len() implies (#[trigger] after[j]).grid
            == world[j].grid || after[j].grid.dirty by {
            assert(before[j].grid == world[j].grid || before[j].grid.dirty);
        }
    }
}

/// A phase, as far as it has come, has marked every grid that it changed.
pub proof fn lemma_phase_marks_changes(world: Seq<ChunkView>, phase: int, tick: usize, n: nat)
    requires
        arena_wf(world),
        n <= world.len(),
    ensures
        changes_are_marked(world, phase_prefix(world, phase, tick, n)),
    decreases n,
{
    if n > 0 {
        let before = phase_prefix(world, phase, tick, (n - 1) as nat);
        lemma_phase_marks_changes(world, phase, tick, (n - 1) as nat);
        lemma_phase_keeps_frame(world, phase, tick, (n - 1) as nat);
        lemma_sweep_marks_changes(before, n - 1, tick, 1024);
        let after = phase_prefix(world, phase, tick, n);
        assert forall|j: int| 0 <= j < world.len() implies (#[trigger] after[j]).grid
            == world[j].grid || after[j].grid.dirty by {
            assert(before[j].grid == world[j].grid || before[j].grid.dirty);
        }
    }
}

/// Dirty tracking: after a tick every grid that the tick changed, be it
/// through its own chunk's update or through a neighbour's, is marked dirty.
pub proof fn lemma_tick_marks_changes(world: Seq<ChunkView>, tick: usize)
    requires
        arena_wf(world),
    ensures
        changes_are_marked(world, tick_updated(world, tick)),
{
    let after_first = phase_updated(world, 0, tick);
    let after_second = phase_updated(after_first, 1, tick);
    let after_third = phase_updated(after_second, 2, tick);
    let after = phase_updated(after_third, 3, tick);
    lemma_phase_keeps_frame(world, 0, tick, world.len());
    lemma_phase_marks_changes(world, 0, tick, world.len());
    lemma_phase_keeps_frame(after_first, 1, tick, after_first.len());
    lemma_phase_marks_changes(after_first, 1, tick, after_first.len());
    lemma_phase_keeps_frame(after_second, 2, tick, after_second.len());
    lemma_phase_marks_changes(after_second, 2, tick, after_second.len());
    lemma_phase_marks_changes(after_third, 3, tick, after_third.len());
    assert forall|j: int| 0 <= j < world.len() implies (#[trigger] after[j]).grid
        == world[j].grid || after[j].grid.dirty by {
        assert(after_first[j].grid == world[j].grid || after_first[j].grid.dirty);
        assert(after_second[j].grid == after_first[j].grid || after_second[j].grid.dirty);
        assert(after_third[j].grid == after_second[j].grid || after_third[j].grid.dirty);
    }
}

/// Chunk `a` takes part in `phase`, comes before chunk `n` in the layout,
/// and its update touches the grid of chunk `j`.
pub open spec fn is_updated_by(
    world: Seq<ChunkView>,
    phase: int,
    n: int,
    a: int,
    j: int,
) -> bool {
    0 <= a < n && phase_of(world[a].position) == phase && touches(world, a, j)
}

/// What a phase, as far as it has come, has made of the grid of chunk `j`
/// is what the update of one chunk alone makes of it, starting from the
/// world as it was before the phase; and a grid that no update of the phase
/// has touched is as it was.
pub proof fn lemma_phase_prefix_is_parallel(
    world: Seq<ChunkView>,
    phase: int,
    tick: usize,
    n: nat,
    j: int,
)
    requires
        is_laid_out(world),
        is_wired(world),
        arena_wf(world),
        n <= 64,
        0 <= j < 64,
    ensures
        forall|a: int| #[trigger]
            is_updated_by(world, phase, n as int, a, j) ==> phase_prefix(world, phase, tick, n)[j]
                == chunk_updated(world, a, tick)[j],
        (forall|a: int| !#[trigger] is_updated_by(world, phase, n as int, a, j)) ==> phase_prefix(
            world,
            phase,
            tick,
            n,
        )[j] == world[j],
    decreases n,
{
    if n > 0 {
        let c = n - 1;
        let before = phase_prefix(world, phase, tick, c as nat);
        let after = phase_prefix(world, phase, tick, n);
        lemma_phase_prefix_is_parallel(world, phase, tick, c as nat, j);
        lemma_phase_keeps_frame(world, phase, tick, c as nat);
        assert(before[c].position == world[c].position && before[c].halo == world[c].halo);
        // no chunk of the phase before `c` touches what `c` touches
        assert forall|a: int, i: int|
            0 <= i < 64 && touches(world, c, i) && phase_of(world[c].position) == phase
                && #[trigger] is_updated_by(world, phase, c, a, i) implies false by {
            lemma_same_phase_touch_apart(world, a, c);
            assert(!(touches(world, a, i) && touches(world, c, i)));
        }
        if phase_of(world[c].position) == phase {
            assert(after == chunk_updated(before, c, tick));
            if touches(world, c, j) {
                assert forall|i: int| 0 <= i < world.len() && #[trigger] touches(
                    world,
                    c,
                    i,
                ) implies world[i] == before[i] by {
                    lemma_phase_prefix_is_parallel(world, phase, tick, c as nat, i);
                    assert forall|a: int| !#[trigger] is_updated_by(world, phase, c, a, i) by {
                        if is_updated_by(world, phase, c, a, i) {
                            assert(false);
                        }
                    }
                }
                assert(agree_where_touched(world, before, c));
                lemma_sweep_is_local(world, before, c, tick, 1024);
                lemma_sweep_keeps_frame(world, c, tick, 1024);
                let alone = chunk_updated(world, c, tick);
                assert(alone[c].halo == world[c].halo);
                assert(touches(alone, c, j));
                assert(after[j] == alone[j]);
                assert forall|a: int| #[trigger]
                    is_updated_by(world, phase, n as int, a, j) implies after[j] == chunk_updated(
                    world,
                    a,
                    tick,
                )[j] by {
                    if a != c {
                        assert(is_updated_by(world, phase, c, a, j));
                        assert(false);
                    }
                }
                assert(is_updated_by(world, phase, n as int, c, j));
            } else {
                assert(!touches(before, c, j));
                lemma_sweep_leaves_others(before, c, tick, 1024, j);
                assert(after[j] == before[j]);
                assert forall|a: int| #[trigger]
                    is_updated_by(world, phase, n as int, a, j) implies after[j] == chunk_updated(
                    world,
                    a,
                    tick,
                )[j] by {
                    assert(is_updated_by(world, phase, c, a, j));
                }
                if forall|a: int| !#[trigger] is_updated_by(world, phase, n as int, a, j) {
                    assert forall|a: int| !#[trigger] is_updated_by(world, phase, c, a, j) by {
                        assert(!is_updated_by(world, phase, n as int, a, j));
                    }
                }
            }
        } else {
            assert(after == before);
            assert forall|a: int| #[trigger]
                is_updated_by(world, phase, n as int, a, j) implies after[j] == chunk_updated(
                world,
                a,
                tick,
            )[j] by {
                assert(is_updated_by(world, phase, c, a, j));
            }
            if forall|a: int| !#[trigger] is_updated_by(world, phase, n as int, a, j) {
                assert forall|a: int| !#[trigger] is_updated_by(world, phase, c, a, j) by {
                    assert(!is_updated_by(world, phase, n as int, a, j));
                }
            }
        }
    }
}

/// Phase safety, as it bears on the result: in a wired layout, what a phase
/// makes of a grid is what the update of the one chunk of that phase that
/// touches it makes of it, starting from the world as it was before the
/// phase. The chunks of a phase can therefore be updated side by side.
pub proof fn lemma_phase_is_parallel(
    world: Seq<ChunkView>,
    phase: int,
    tick: usize,
    a: int,
    j: int,
)
    requires
        is_laid_out(world),
        is_wired(world),
        arena_wf(world),
        0 <= a < 64,
        0 <= j < 64,
        phase_of(world[a].position) == phase,
        touches(world, a, j),
    ensures
        phase_updated(world, phase, tick)[j] == chunk_updated(world, a, tick)[j],
{
    lemma_phase_prefix_is_parallel(world, phase, tick, 64, j);
    assert(is_updated_by(world, phase, 64, a, j));
}

/// A phase leaves a grid that none of its chunks touches as it is.
pub proof fn lemma_phase_leaves_untouched(world: Seq<ChunkView>, phase: int, tick: usize, j: int)
    requires
        is_laid_out(world),
        is_wired(world),
        arena_wf(world),
        0 <= j < 64,
        forall|a: int|
            0 <= a < 64 && phase_of(world[a].position) == phase ==> !#[trigger] touches(
                world,
                a,
                j,
            ),
    ensures
        phase_updated(world, phase, tick)[j] == world[j],
{
    lemma_phase_prefix_is_parallel(world, phase, tick, 64, j);
    assert forall|a: int| !#[trigger] is_updated_by(world, phase, 64, a, j) by {
        if 0 <= a < 64 && phase_of(world[a].position) == phase {
            assert(!touches(world, a, j));
        }
    }
}

} // verus!
