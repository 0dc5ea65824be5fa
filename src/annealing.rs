use rand::Rng;
use rand::rngs::ThreadRng;
use vstd::prelude::*;
use crate::model::{TimetableInput, sat};
use crate::penalty::{fits, total_penalty};
use crate::schedule::Schedule;

verus! {

/// Declares rand's `ThreadRng`, the random source a search draws from, so
/// that it can be handed to the draws below; nothing is assumed of it.
#[verifier::external_type_specification]
#[verifier::external_body]
pub struct ExThreadRng(ThreadRng);

/// Relies on `rand::Rng::gen_range`: a value drawn from `0..bound`. It panics
/// on an empty range, which `requires` rules out.
#[verifier::external_body]
fn draw_below(rng: &mut ThreadRng, bound: usize) -> (r: usize)
    requires
        bound > 0,
    ensures
        r < bound,
{
    rng.gen_range(0..bound)
}

/// One proposed change: course `course` moves to (`day`, `slot`, `room`).
#[derive(Debug, Clone, Copy, PartialEq, Eq)]
pub struct Move {
    pub course: usize,
    pub day: u32,
    pub slot: u32,
    pub room: usize,
}

/// One iteration of the search: a move, and the tolerance the temperature
/// and a uniform draw give it. A neighbour that scores `w` points worse than
/// the current schedule is accepted exactly when `w < tolerance`.
#[derive(Debug, Clone, Copy, PartialEq, Eq)]
pub struct Step {
    pub mv: Move,
    pub tolerance: u64,
}

/// A schedule with one entry replaced as `m` says.
pub open spec fn moved(a: Seq<(u32, u32, usize)>, m: Move) -> Seq<(u32, u32, usize)> {
    a.update(m.course as int, (m.day, m.slot, m.room))
}

/// Whether `m` names a course of `input` and a place in its week and rooms.
pub open spec fn move_fits(input: TimetableInput, m: Move) -> bool {
    &&& m.course < input.courses@.len()
    &&& m.day < 5
    &&& m.slot < 6
    &&& m.room < input.rooms@.len()
}

/// Whether every step's move fits `input`.
pub open spec fn steps_fit(input: TimetableInput, steps: Seq<Step>) -> bool {
    forall|i: int| 0 <= i < steps.len() ==> move_fits(input, (#[trigger] steps[i]).mv)
}

/// Whether the walk moves from a schedule scoring `current` to a neighbour
/// scoring `neighbour`: always when it improves, else when the worsening
/// stays under the tolerance.
pub open spec fn accepts(current: int, neighbour: int, tolerance: int) -> bool {
    neighbour < current || neighbour - current < tolerance
}

/// What a search holds between iterations.
pub struct SearchView {
    pub current: Seq<(u32, u32, usize)>,
    pub current_penalty: int,
    pub best: Seq<(u32, u32, usize)>,
    pub best_penalty: int,
    pub finished: bool,
}

/// A search that starts from `initial`.
pub open spec fn start_view(input: TimetableInput, initial: Seq<(u32, u32, usize)>) -> SearchView {
    let p = sat(total_penalty(input, initial));
    SearchView { current: initial, current_penalty: p, best: initial, best_penalty: p, finished: false }
}

/// One iteration: score the neighbour; stop on a zero score; otherwise move
/// to it if accepted, and keep it as best if it beats the best so far. A
/// finished search stays as it is.
pub open spec fn step_view(input: TimetableInput, v: SearchView, st: Step) -> SearchView {
    let n = moved(v.current, st.mv);
    let np = sat(total_penalty(input, n));
    if v.finished {
        v
    } else if np == 0 {
        SearchView { current: n, current_penalty: 0, best: n, best_penalty: 0, finished: true }
    } else if accepts(v.current_penalty, np, st.tolerance as int) {
        if np < v.best_penalty {
            SearchView { current: n, current_penalty: np, best: n, best_penalty: np, finished: false }
        } else {
            SearchView { current: n, current_penalty: np, ..v }
        }
    } else {
        v
    }
}

/// The search after running `steps` in order.
pub open spec fn run_view(input: TimetableInput, v: SearchView, steps: Seq<Step>) -> SearchView
    decreases steps.len(),
{
    if steps.len() == 0 {
        v
    } else {
        step_view(input, run_view(input, v, steps.drop_last()), steps.last())
    }
}

/// The state of a simulated-annealing walk over schedules of one input: the
/// current schedule, the best one seen, their penalties, and whether a
/// schedule scoring zero has ended the walk.
pub struct AnnealingSearch {
    pub current: Schedule,
    pub current_penalty: u64,
    pub best: Schedule,
    pub best_penalty: u64,
    pub finished: bool,
}

impl View for AnnealingSearch {
    type V = SearchView;

    open spec fn view(&self) -> SearchView {
        SearchView {
            current: self.current.assignments@,
            current_penalty: self.current_penalty as int,
            best: self.best.assignments@,
            best_penalty: self.best_penalty as int,
            finished: self.finished,
        }
    }
}

/// A copy of a schedule.
fn copy_schedule(s: &Schedule) -> (r: Schedule)
    ensures
        r.assignments@ == s.assignments@,
{
    let mut out: Vec<(u32, u32, usize)> = Vec::with_capacity(s.assignments.len());
    let mut i: usize = 0;
    while i < s.assignments.len()
        invariant
            i <= s.assignments@.len(),
            out@ == s.assignments@.take(i as int),
        decreases s.assignments@.len() - i,
    {
        out.push(s.assignments[i]);
        assert(s.assignments@.take(i + 1) =~= s.assignments@.take(i as int).push(s.assignments@[i as int]));
        i = i + 1;
    }
    assert(s.assignments@.take(i as int) =~= s.assignments@);
    Schedule { assignments: out }
}

/// `current` with course `m.course` moved as `m` says.
pub fn generate_neighbour(current: &Schedule, m: Move) -> (r: Schedule)
    requires
        m.course < current.assignments@.len(),
    ensures
        r.assignments@ == moved(current.assignments@, m),
{
    let mut r = copy_schedule(current);
    r.assignments.set(m.course, (m.day, m.slot, m.room));
    r
}

/// A schedule drawn at random: for each course, a day, a slot and a room
/// drawn independently.
pub fn generate_first_schedule(input: &TimetableInput, rng: &mut ThreadRng) -> (r: Schedule)
    requires
        input.courses@.len() == 0 || input.rooms@.len() > 0,
    ensures
        fits(*input, r.assignments@),
{
    let mut assignments: Vec<(u32, u32, usize)> = Vec::new();
    let mut i: usize = 0;
    while i < input.courses.len()
        invariant
            i <= input.courses@.len(),
            input.courses@.len() == 0 || input.rooms@.len() > 0,
            assignments@.len() == i,
            forall|j: int| 0 <= j < i ==> (#[trigger] assignments@[j]).0 < 5 && assignments@[j].1 < 6
                && assignments@[j].2 < input.rooms@.len(),
        decreases input.courses@.len() - i,
    {
        let day = draw_below(rng, 5) as u32;
        let slot = draw_below(rng, 6) as u32;
        let room = draw_below(rng, input.rooms.len());
        assignments.push((day, slot, room));
        i = i + 1;
    }
    Schedule { assignments }
}

/// A move drawn at random: a course, then a day, a slot and a room, each
/// drawn independently.
pub fn random_move(input: &TimetableInput, rng: &mut ThreadRng) -> (m: Move)
    requires
        input.courses@.len() > 0,
        input.rooms@.len() > 0,
    ensures
        move_fits(*input, m),
{
    let course = draw_below(rng, input.courses.len());
    let day = draw_below(rng, 5) as u32;
    let slot = draw_below(rng, 6) as u32;
    let room = draw_below(rng, input.rooms.len());
    Move { course, day, slot, room }
}

impl AnnealingSearch {
    /// Whether the penalties held are those of the schedules held, for
    /// `input`, and the best is no worse than the current.
    pub open spec fn wf(&self, input: TimetableInput) -> bool {
        &&& fits(input, self.current.assignments@)
        &&& fits(input, self.best.assignments@)
        &&& self.current_penalty == sat(total_penalty(input, self.current.assignments@))
        &&& self.best_penalty == sat(total_penalty(input, self.best.assignments@))
        &&& self.best_penalty <= self.current_penalty
    }

    /// A search that starts from `initial`, which is both current and best.
    pub fn new(input: &TimetableInput, initial: Schedule) -> (r: AnnealingSearch)
        requires
            input.is_normalized(),
            fits(*input, initial.assignments@),
        ensures
            r@ == start_view(*input, initial.assignments@),
            r.wf(*input),
    {
        let p = initial.calculate_penalty(input);
        let best = copy_schedule(&initial);
        AnnealingSearch { current: initial, current_penalty: p, best, best_penalty: p, finished: false }
    }

    /// One iteration of the walk; see `step_view`.
    pub fn step(&mut self, input: &TimetableInput, st: Step)
        requires
            input.is_normalized(),
            old(self).wf(*input),
            move_fits(*input, st.mv),
        ensures
            final(self)@ == step_view(*input, old(self)@, st),
            final(self).wf(*input),
            final(self).best_penalty <= old(self).best_penalty,
    {
        if self.finished {
            return;
        }
        let neighbour = generate_neighbour(&self.current, st.mv);
        let np = neighbour.calculate_penalty(input);
        if np == 0 {
            self.best = copy_schedule(&neighbour);
            self.current = neighbour;
            self.current_penalty = 0;
            self.best_penalty = 0;
            self.finished = true;
        } else if np < self.current_penalty || np - self.current_penalty < st.tolerance {
            if np < self.best_penalty {
                self.best = copy_schedule(&neighbour);
                self.best_penalty = np;
            }
            self.current = neighbour;
            self.current_penalty = np;
        }
    }

    /// Runs `steps` in order, stopping early once a schedule scores zero.
    pub fn run(&mut self, input: &TimetableInput, steps: &Vec<Step>)
        requires
            input.is_normalized(),
            old(self).wf(*input),
            steps_fit(*input, steps@),
        ensures
            final(self)@ == run_view(*input, old(self)@, steps@),
            final(self).wf(*input),
            final(self).best_penalty <= old(self).best_penalty,
    {
        let ghost start = self@;
        let ghost start_best = self.best_penalty;
        let mut i: usize = 0;
        while i < steps.len()
            invariant
                i <= steps@.len(),
                input.is_normalized(),
                steps_fit(*input, steps@),
                self.wf(*input),
                self.best_penalty <= start_best,
                start == old(self)@,
                start_best == old(self).best_penalty,
                self@ == run_view(*input, start, steps@.take(i as int)),
            decreases steps@.len() - i,
        {
            if self.finished {
                proof {
                    lemma_finished_stays(*input, self@, steps@.skip(i as int));
                    lemma_run_split(*input, start, steps@, i as int);
                }
                return;
            }
            self.step(input, steps[i]);
            assert(steps@.take(i + 1).drop_last() =~= steps@.take(i as int));
            i = i + 1;
        }
        assert(steps@.take(i as int) =~= steps@);
    }
}

/// With no iteration at all, the search returns the schedule it started
/// from, scored as that schedule scores.
pub proof fn lemma_no_iterations_keep_initial(input: TimetableInput, initial: Seq<(u32, u32, usize)>)
    ensures
        run_view(input, start_view(input, initial), Seq::<Step>::empty()).best == initial,
        run_view(input, start_view(input, initial), Seq::<Step>::empty()).best_penalty == sat(
            total_penalty(input, initial),
        ),
{
}

/// Once a neighbour scores zero, the search ends on it: whatever steps
/// follow, the result is that neighbour, as current and as best.
pub proof fn lemma_zero_neighbour_ends_search(
    input: TimetableInput,
    v: SearchView,
    steps: Seq<Step>,
    k: int,
)
    requires
        0 <= k < steps.len(),
        !run_view(input, v, steps.take(k)).finished,
        sat(total_penalty(input, moved(run_view(input, v, steps.take(k)).current, steps[k].mv)))
            == 0,
    ensures
        ({
            let n = moved(run_view(input, v, steps.take(k)).current, steps[k].mv);
            run_view(input, v, steps) == SearchView {
                current: n,
                current_penalty: 0,
                best: n,
                best_penalty: 0,
                finished: true,
            }
        }),
{
    assert(steps.take(k + 1).drop_last() =~= steps.take(k));
    lemma_run_split(input, v, steps, k + 1);
    lemma_finished_stays(input, run_view(input, v, steps.take(k + 1)), steps.skip(k + 1));
}

/// Running more steps on a finished search changes nothing.
pub proof fn lemma_finished_stays(input: TimetableInput, v: SearchView, steps: Seq<Step>)
    requires
        v.finished,
    ensures
        run_view(input, v, steps) == v,
    decreases steps.len(),
{
    if steps.len() > 0 {
        lemma_finished_stays(input, v, steps.drop_last());
    }
}

/// Running `steps` is running its first `k` steps, then the rest.
pub proof fn lemma_run_split(input: TimetableInput, v: SearchView, steps: Seq<Step>, k: int)
    requires
        0 <= k <= steps.len(),
    ensures
        run_view(input, v, steps) == run_view(input, run_view(input, v, steps.take(k)), steps.skip(k)),
    decreases steps.len(),
{
    if steps.len() == k {
        assert(steps.take(k) =~= steps);
        assert(steps.skip(k) =~= Seq::<Step>::empty());
    } else {
        lemma_run_split(input, v, steps.drop_last(), k);
        assert(steps.drop_last().take(k) =~= steps.take(k));
        assert(steps.skip(k).drop_last() =~= steps.drop_last().skip(k));
        assert(steps.skip(k).last() == steps.last());
    }
}

} // verus!
