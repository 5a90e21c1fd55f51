//! A phase cut into jobs: each chunk of the phase is copied out of the world
//! together with the chunk to its south, updated apart from all others, and
//! written back. The jobs of one phase share no grid, so that they can run
//! side by side; the world that results is that of the phase.

use vstd::prelude::*;
use crate::simulation::chunk::{phase_of, world_of, Chunk, ChunkView};
use crate::simulation::grid::GridPos;
use crate::simulation::laws::{
    lemma_phase_prefix_is_parallel, lemma_phase_safety, lemma_sweep_leaves_others, touches,
    is_updated_by, lemma_same_phase_touch_apart,
};
use crate::simulation::rules::{
    arena_wf, can_fall, chunk_below, chunk_updated, lemma_below_in_bounds,
    lemma_phase_keeps_frame, lemma_step_keeps_frame, lemma_sweep_keeps_frame,
    lemma_sweep_pos_in_bounds, phase_prefix, phase_updated, same_frame, step_cell, sweep_pos,
    sweep_prefix,
};
use crate::simulation::{is_laid_out, is_wired};

verus! {

/// What a job holds: the index of its chunk in the world, the index of the
/// chunk to the south of it, if there is one, and copies of the two, the
/// first linked to the second and to nothing else.
pub struct JobView {
    pub index: usize,
    pub south: Option<usize>,
    pub arena: Seq<ChunkView>,
}

/// The links of a chunk that was cut out of the world: to the chunk to its
/// south, which is then the second of the two, and to nothing else.
pub open spec fn cut_halo(has_south: bool) -> Seq<Option<usize>> {
    Seq::new(
        8,
        |slot: int|
            if slot == 4 && has_south {
                Some(1usize)
            } else {
                None
            },
    )
}

/// The job for chunk `c` of `world`.
pub open spec fn job_of(world: Seq<ChunkView>, c: int) -> JobView {
    match world[c].halo[4] {
        Some(t) => JobView {
            index: c as usize,
            south: Some(t),
            arena: seq![
                ChunkView { halo: cut_halo(true), ..world[c] },
                ChunkView { halo: cut_halo(false), ..world[t as int] },
            ],
        },
        None => JobView {
            index: c as usize,
            south: None,
            arena: seq![ChunkView { halo: cut_halo(false), ..world[c] }],
        },
    }
}

impl JobView {
    /// The job holds one chunk, or two where its chunk has one to the south;
    /// their grids are well formed, and the first is linked as a cut-out
    /// chunk is.
    pub open spec fn wf(self) -> bool {
        &&& self.arena.len() == (if self.south is Some {
            2int
        } else {
            1int
        })
        &&& forall|i: int| 0 <= i < self.arena.len() ==> (#[trigger] self.arena[i]).grid.wf()
        &&& self.arena[0].halo == cut_halo(self.south is Some)
        &&& self.south is Some ==> self.arena[1].halo == cut_halo(false)
    }

    /// The job fits a world of `n` chunks: it names two different chunks of
    /// that world.
    pub open spec fn fits(self, n: nat) -> bool {
        &&& self.index < n
        &&& self.south matches Some(t) ==> t < n && t != self.index
    }

    /// The job after its chunk was updated in `tick`.
    pub open spec fn ran(self, tick: usize) -> JobView {
        JobView { arena: chunk_updated(self.arena, 0, tick), ..self }
    }
}

/// The world after the grids of `job` were written back to it.
pub open spec fn committed(world: Seq<ChunkView>, job: JobView) -> Seq<ChunkView> {
    let own = world.update(
        job.index as int,
        world[job.index as int].with_grid(job.arena[0].grid),
    );
    match job.south {
        Some(t) => own.update(t as int, own[t as int].with_grid(job.arena[1].grid)),
        None => own,
    }
}

/// The world after the grids of the first `n` of `jobs` were written back
/// to it, one job after the other.
pub open spec fn committed_all(world: Seq<ChunkView>, jobs: Seq<JobView>, n: nat) -> Seq<
    ChunkView,
>
    decreases n,
{
    if n == 0 {
        world
    } else {
        committed(committed_all(world, jobs, (n - 1) as nat), jobs[n - 1])
    }
}

/// The jobs of `phase` among the first `n` chunks of `world`, in the order
/// of the chunks.
pub open spec fn jobs_of(world: Seq<ChunkView>, phase: int, n: nat) -> Seq<JobView>
    decreases n,
{
    if n == 0 {
        Seq::empty()
    } else {
        let before = jobs_of(world, phase, (n - 1) as nat);
        if phase_of(world[n - 1].position) == phase {
            before.push(job_of(world, n - 1))
        } else {
            before
        }
    }
}

/// Chunk `c` of `first` and chunk `d` of `second` hold the same grid; both
/// have a chunk to the south, or neither has; and where they have, it is
/// another chunk, and the two to the south hold the same grid.
pub open spec fn same_cut(first: Seq<ChunkView>, c: int, second: Seq<ChunkView>, d: int) -> bool {
    &&& first[c].grid == second[d].grid
    &&& first[c].halo[4] is Some <==> second[d].halo[4] is Some
    &&& first[c].halo[4] matches Some(t) ==> {
        &&& t != c
        &&& second[d].halo[4].unwrap() != d
        &&& first[t as int].grid == second[second[d].halo[4].unwrap() as int].grid
    }
}

/// A visit to the same cell does the same to two chunks that are cut alike.
pub proof fn lemma_step_on_same_cut(
    first: Seq<ChunkView>,
    c: int,
    second: Seq<ChunkView>,
    d: int,
    pos: GridPos,
    tick: usize,
)
    requires
        arena_wf(first),
        arena_wf(second),
        0 <= c < first.len(),
        0 <= d < second.len(),
        pos.in_bounds(),
        same_cut(first, c, second, d),
    ensures
        same_cut(step_cell(first, c, pos, tick), c, step_cell(second, d, pos, tick), d),
{
    lemma_below_in_bounds(pos);
    lemma_step_keeps_frame(first, c, pos, tick);
    lemma_step_keeps_frame(second, d, pos, tick);
    assert(first[c].wf(first.len()));
    assert(second[d].wf(second.len()));
    if first[c].halo[4] is Some {
        let t = first[c].halo[4].unwrap() as int;
        let u = second[d].halo[4].unwrap() as int;
        assert(first[t].wf(first.len()));
        assert(second[u].wf(second.len()));
    }
    if chunk_below(first, c, pos) is Some {
        assert(can_fall(first, c, pos, tick) == can_fall(second, d, pos, tick));
    }
}

/// The update of a chunk, as far as it has come, has done the same to two
/// chunks that were cut alike.
pub proof fn lemma_sweep_on_same_cut(
    first: Seq<ChunkView>,
    c: int,
    second: Seq<ChunkView>,
    d: int,
    tick: usize,
    k: nat,
)
    requires
        arena_wf(first),
        arena_wf(second),
        0 <= c < first.len(),
        0 <= d < second.len(),
        k <= 1024,
        same_cut(first, c, second, d),
    ensures
        same_cut(sweep_prefix(first, c, tick, k), c, sweep_prefix(second, d, tick, k), d),
    decreases k,
{
    if k > 0 {
        lemma_sweep_on_same_cut(first, c, second, d, tick, (k - 1) as nat);
        lemma_sweep_keeps_frame(first, c, tick, (k - 1) as nat);
        lemma_sweep_keeps_frame(second, d, tick, (k - 1) as nat);
        lemma_sweep_pos_in_bounds(tick, k - 1);
        lemma_step_on_same_cut(
            sweep_prefix(first, c, tick, (k - 1) as nat),
            c,
            sweep_prefix(second, d, tick, (k - 1) as nat),
            d,
            sweep_pos(tick, k - 1),
            tick,
        );
    }
}

/// The job for a chunk is well formed and fits the world, and to run it and
/// write it back is to update the chunk in the world.
pub proof fn lemma_job_is_the_update(world: Seq<ChunkView>, c: int, tick: usize)
    requires
        arena_wf(world),
        0 <= c < world.len(),
        c <= usize::MAX,
        world[c].halo[4] != Some(c as usize),
    ensures
        job_of(world, c).wf(),
        job_of(world, c).fits(world.len()),
        arena_wf(job_of(world, c).arena),
        committed(world, job_of(world, c).ran(tick)) == chunk_updated(world, c, tick),
{
    let job = job_of(world, c);
    let updated = chunk_updated(world, c, tick);
    let result = committed(world, job.ran(tick));
    assert(world[c].wf(world.len()));
    if world[c].halo[4] is Some {
        let t = world[c].halo[4].unwrap() as int;
        assert(world[t].wf(world.len()));
    }
    assert forall|i: int| 0 <= i < job.arena.len() implies (#[trigger] job.arena[i]).wf(
        job.arena.len(),
    ) by {}
    assert(same_cut(world, c, job.arena, 0));
    lemma_sweep_on_same_cut(world, c, job.arena, 0, tick, 1024);
    lemma_sweep_keeps_frame(world, c, tick, 1024);
    lemma_sweep_keeps_frame(job.arena, 0, tick, 1024);
    let ran = job.ran(tick);
    assert(same_cut(updated, c, ran.arena, 0));
    assert(updated[c].position == world[c].position && updated[c].halo == world[c].halo);
    assert(ran.arena[0].halo == job.arena[0].halo);
    assert forall|j: int| 0 <= j < world.len() implies result[j] == updated[j] by {
        assert(updated[j].position == world[j].position && updated[j].halo == world[j].halo);
        if j == c {
            assert(updated[c].grid == ran.arena[0].grid);
        } else if touches(world, c, j) {
            assert(world[c].halo[4] matches Some(t) && t == j);
            assert(job.arena[0].halo[4] == Some(1usize));
            assert(ran.arena[0].halo[4] == Some(1usize));
            assert(updated[j].grid == ran.arena[1].grid);
        } else {
            lemma_sweep_leaves_others(world, c, tick, 1024, j);
        }
    }
    assert(result =~= updated);
}

/// The jobs of `phase` among the first `n` chunks of `world`, each after
/// it ran in `tick`.
pub open spec fn ran_jobs_of(world: Seq<ChunkView>, phase: int, tick: usize, n: nat) -> Seq<
    JobView,
>
    decreases n,
{
    if n == 0 {
        Seq::empty()
    } else {
        let before = ran_jobs_of(world, phase, tick, (n - 1) as nat);
        if phase_of(world[n - 1].position) == phase {
            before.push(job_of(world, n - 1).ran(tick))
        } else {
            before
        }
    }
}

/// The jobs after they ran are the jobs, each after it ran.
pub proof fn lemma_ran_jobs_are_jobs_ran(world: Seq<ChunkView>, phase: int, tick: usize, n: nat)
    ensures
        ran_jobs_of(world, phase, tick, n).len() == jobs_of(world, phase, n).len(),
        jobs_of(world, phase, n).len() <= n,
        forall|i: int|
            0 <= i < jobs_of(world, phase, n).len() ==> #[trigger] ran_jobs_of(
                world,
                phase,
                tick,
                n,
            )[i] == jobs_of(world, phase, n)[i].ran(tick),
    decreases n,
{
    if n > 0 {
        lemma_ran_jobs_are_jobs_ran(world, phase, tick, (n - 1) as nat);
    }
}

/// What is written back depends on the jobs that are written back alone.
pub proof fn lemma_committed_all_prefix(
    world: Seq<ChunkView>,
    first: Seq<JobView>,
    second: Seq<JobView>,
    n: nat,
)
    requires
        n <= first.len(),
        n <= second.len(),
        forall|i: int| 0 <= i < n ==> first[i] == second[i],
    ensures
        committed_all(world, first, n) == committed_all(world, second, n),
    decreases n,
{
    if n > 0 {
        lemma_committed_all_prefix(world, first, second, (n - 1) as nat);
    }
}

/// In a wired layout, when a phase comes to one of its chunks, it has left
/// alone every grid that the update of that chunk touches.
pub proof fn lemma_phase_spares_what_comes(world: Seq<ChunkView>, phase: int, tick: usize, c: int)
    requires
        is_laid_out(world),
        is_wired(world),
        arena_wf(world),
        0 <= c < 64,
        phase_of(world[c].position) == phase,
    ensures
        forall|i: int|
            0 <= i < 64 && #[trigger] touches(world, c, i) ==> phase_prefix(
                world,
                phase,
                tick,
                c as nat,
            )[i] == world[i],
{
    assert forall|i: int| 0 <= i < 64 && #[trigger] touches(world, c, i) implies phase_prefix(
        world,
        phase,
        tick,
        c as nat,
    )[i] == world[i] by {
        lemma_phase_prefix_is_parallel(world, phase, tick, c as nat, i);
        assert forall|a: int| !#[trigger] is_updated_by(world, phase, c, a, i) by {
            if is_updated_by(world, phase, c, a, i) {
                lemma_same_phase_touch_apart(world, a, c);
                assert(!(touches(world, a, i) && touches(world, c, i)));
            }
        }
    }
}

/// In a wired layout, the jobs of a phase, as far as the phase has come,
/// make the same world when they are run and written back as the updates of
/// the chunks make one after the other.
pub proof fn lemma_jobs_make_the_phase_prefix(
    world: Seq<ChunkView>,
    phase: int,
    tick: usize,
    n: nat,
)
    requires
        is_laid_out(world),
        is_wired(world),
        arena_wf(world),
        n <= 64,
    ensures
        committed_all(
            world,
            ran_jobs_of(world, phase, tick, n),
            ran_jobs_of(world, phase, tick, n).len(),
        ) == phase_prefix(world, phase, tick, n),
    decreases n,
{
    if n > 0 {
        let c = n - 1;
        let jobs_before = ran_jobs_of(world, phase, tick, c as nat);
        let jobs = ran_jobs_of(world, phase, tick, n);
        let before = phase_prefix(world, phase, tick, c as nat);
        lemma_jobs_make_the_phase_prefix(world, phase, tick, c as nat);
        lemma_phase_keeps_frame(world, phase, tick, c as nat);
        assert(before[c].position == world[c].position);
        if phase_of(world[c].position) == phase {
            lemma_phase_spares_what_comes(world, phase, tick, c);
            lemma_phase_safety(world, c, c, 4);
            assert(touches(world, c, c));
            assert(before[c] == world[c]);
            assert(world[c].wf(world.len()));
            if world[c].halo[4] is Some {
                let t = world[c].halo[4].unwrap() as int;
                assert(touches(world, c, t));
                assert(before[t] == world[t]);
            }
            assert(job_of(before, c) == job_of(world, c));
            lemma_job_is_the_update(before, c, tick);
            lemma_committed_all_prefix(world, jobs_before, jobs, jobs_before.len());
            assert(jobs == jobs_before.push(job_of(world, c).ran(tick)));
            assert(jobs.len() == jobs_before.len() + 1);
            assert(jobs[jobs.len() - 1] == job_of(world, c).ran(tick));
            assert(committed_all(world, jobs, (jobs.len() - 1) as nat) == before);
            assert(committed_all(world, jobs, jobs.len()) == committed(
                before,
                job_of(world, c).ran(tick),
            ));
            assert(phase_prefix(world, phase, tick, n) == chunk_updated(before, c, tick));
        }
    }
}

/// The jobs of a phase make the phase: in a wired layout, to cut a phase
/// into its jobs, run each of them, in any order or side by side, and write
/// them back is to run the phase.
pub proof fn lemma_jobs_make_the_phase(
    world: Seq<ChunkView>,
    phase: int,
    tick: usize,
    jobs: Seq<JobView>,
)
    requires
        is_laid_out(world),
        is_wired(world),
        arena_wf(world),
        jobs.len() == jobs_of(world, phase, 64).len(),
        forall|i: int|
            0 <= i < jobs.len() ==> #[trigger] jobs[i] == jobs_of(world, phase, 64)[i].ran(tick),
    ensures
        committed_all(world, jobs, jobs.len()) == phase_updated(world, phase, tick),
{
    lemma_ran_jobs_are_jobs_ran(world, phase, tick, 64);
    lemma_jobs_make_the_phase_prefix(world, phase, tick, 64);
    assert(jobs =~= ran_jobs_of(world, phase, tick, 64));
}

/// To write a job back keeps the world well formed, and keeps every chunk's
/// position and links.
pub proof fn lemma_commit_keeps_frame(world: Seq<ChunkView>, job: JobView)
    requires
        arena_wf(world),
        job.wf(),
        job.fits(world.len()),
    ensures
        arena_wf(committed(world, job)),
        same_frame(world, committed(world, job)),
{
    let after = committed(world, job);
    assert(job.arena[0].grid.wf());
    if job.south is Some {
        assert(job.arena[1].grid.wf());
    }
    assert forall|c: int| 0 <= c < after.len() implies (#[trigger] after[c]).wf(after.len()) by {
        assert(world[c].wf(world.len()));
    }
}

/// To write jobs back, one after the other, keeps the world well formed,
/// and keeps every chunk's position and links.
pub proof fn lemma_commit_all_keeps_frame(world: Seq<ChunkView>, jobs: Seq<JobView>, n: nat)
    requires
        arena_wf(world),
        n <= jobs.len(),
        forall|i: int| 0 <= i < jobs.len() ==> (#[trigger] jobs[i]).wf() && jobs[i].fits(world.len()),
    ensures
        arena_wf(committed_all(world, jobs, n)),
        same_frame(world, committed_all(world, jobs, n)),
    decreases n,
{
    if n > 0 {
        lemma_commit_all_keeps_frame(world, jobs, (n - 1) as nat);
        assert(jobs[n - 1].wf() && jobs[n - 1].fits(world.len()));
        lemma_commit_keeps_frame(committed_all(world, jobs, (n - 1) as nat), jobs[n - 1]);
    }
}

/// One chunk of a phase, copied out of the world together with the chunk to
/// its south, to be updated apart from all other chunks.
#[derive(Debug)]
pub struct PhaseJob {
    index: usize,
    south: Option<usize>,
    arena: Vec<Chunk>,
}

impl View for PhaseJob {
    type V = JobView;

    closed spec fn view(&self) -> JobView {
        JobView { index: self.index, south: self.south, arena: world_of(self.arena@) }
    }
}

/// The views of the jobs of an array, in order.
pub open spec fn job_views(jobs: Seq<PhaseJob>) -> Seq<JobView> {
    Seq::new(jobs.len(), |i: int| jobs[i]@)
}

impl PhaseJob {
    /// Cuts the job for the chunk at `index` out of `chunks`: copies that
    /// chunk and the chunk linked to its south, if there is one.
    pub fn cut(chunks: &Vec<Chunk>, index: usize) -> (job: PhaseJob)
        requires
            arena_wf(world_of(chunks@)),
            index < chunks@.len(),
        ensures
            job@ == job_of(world_of(chunks@), index as int),
    {
        let ghost world = world_of(chunks@);
        proof {
            assert(world[index as int] == chunks@[index as int]@);
            assert(world[index as int].wf(world.len()));
        }
        let own = &chunks[index];
        let south = own.halo(4);
        let mut arena: Vec<Chunk> = Vec::new();
        let mut copy = Chunk::new(own.position(), own.get_grid().duplicate());
        match south {
            Some(t) => {
                proof {
                    assert(world[t as int] == chunks@[t as int]@);
                }
                copy.set_halo(4, Some(1));
                arena.push(copy);
                let under = &chunks[t];
                arena.push(Chunk::new(under.position(), under.get_grid().duplicate()));
                proof {
                    assert(arena@[0]@.halo =~= cut_halo(true));
                    assert(arena@[1]@.halo =~= cut_halo(false));
                    assert(world_of(arena@) =~= job_of(world, index as int).arena);
                }
            },
            None => {
                arena.push(copy);
                proof {
                    assert(arena@[0]@.halo =~= cut_halo(false));
                    assert(world_of(arena@) =~= job_of(world, index as int).arena);
                }
            },
        }
        PhaseJob { index, south, arena }
    }

    /// The index, in the world, of the chunk that the job updates.
    pub fn index(&self) -> (index: usize)
        ensures
            index == self@.index,
    {
        self.index
    }

    /// The index, in the world, of the chunk to the south, if there is one.
    pub fn south(&self) -> (south: Option<usize>)
        ensures
            south == self@.south,
    {
        self.south
    }

    /// Updates the job's chunk in `tick`: what `Chunk::update` does to the
    /// chunk in the world, done to the copies.
    pub fn run(&mut self, tick: usize)
        requires
            old(self)@.wf(),
        ensures
            final(self)@ == old(self)@.ran(tick),
            final(self)@.wf(),
    {
        proof {
            let arena = world_of(self.arena@);
            assert forall|i: int| 0 <= i < arena.len() implies (#[trigger] arena[i]).wf(
                arena.len(),
            ) by {
                assert(arena[i].grid.wf());
            }
            lemma_sweep_keeps_frame(arena, 0, tick, 1024);
            let after = chunk_updated(arena, 0, tick);
            assert forall|i: int| 0 <= i < after.len() implies (#[trigger] after[i]).grid.wf() by {
                assert(after[i].wf(after.len()));
            }
        }
        Chunk::update(&mut self.arena, 0, tick);
    }

    /// Writes the grids of the job back to the chunks that they were copied
    /// from.
    pub fn commit(&self, chunks: &mut Vec<Chunk>)
        requires
            self@.wf(),
            self@.fits(old(chunks)@.len()),
        ensures
            world_of(final(chunks)@) == committed(world_of(old(chunks)@), self@),
    {
        let ghost world = world_of(chunks@);
        proof {
            assert(world[self.index as int] == chunks@[self.index as int]@);
            assert(world_of(self.arena@)[0] == self.arena@[0]@);
        }
        chunks[self.index].set_grid(self.arena[0].get_grid().duplicate());
        let ghost own = world_of(chunks@);
        proof {
            assert(own =~= world.update(
                self.index as int,
                world[self.index as int].with_grid(self@.arena[0].grid),
            ));
        }
        match self.south {
            Some(t) => {
                proof {
                    assert(own[t as int] == chunks@[t as int]@);
                    assert(world_of(self.arena@)[1] == self.arena@[1]@);
                }
                chunks[t].set_grid(self.arena[1].get_grid().duplicate());
                proof {
                    assert(world_of(chunks@) =~= own.update(
                        t as int,
                        own[t as int].with_grid(self@.arena[1].grid),
                    ));
                }
            },
            None => {},
        }
    }
}

} // verus!
