use vstd::prelude::*;
use vstd::std_specs::cmp::PartialOrdSpec;

use crate::project::{
    is_scheduled, project_wf, push_task_result, queue_duration, solution_duration,
    solution_entries, solution_work, Project, ProjectView, QueueView, Solution, Task,
};
use crate::validity::{
    complete_solution, lemma_empty_solution_valid, lemma_push_keeps_room, lemma_push_keeps_valid,
    lemma_room_bounds, lemma_valid_full, lemma_valid_room, search_room, total_days, valid_solution,
};

verus! {

/// How good a solution is, kept exactly: the value is `work + work / duration`, with
/// `0 / 0` counting as 0 and `work / 0` (for work above 0) as infinitely good.
#[derive(Debug, Clone, Copy, PartialEq, Eq, Structural)]
pub struct Score {
    pub work: usize,
    pub duration: usize,
}

/// The score is infinitely large.
pub open spec fn score_infinite(s: Score) -> bool {
    s.duration == 0 && s.work > 0
}

/// Numerator of a finite score's value.
pub open spec fn score_num(s: Score) -> int {
    if s.duration == 0 {
        0
    } else {
        s.work * (s.duration + 1)
    }
}

/// Denominator of a finite score's value.
pub open spec fn score_den(s: Score) -> int {
    if s.duration == 0 {
        1
    } else {
        s.duration as int
    }
}

/// `a` is strictly better than `b`.
pub open spec fn score_gt(a: Score, b: Score) -> bool {
    if score_infinite(a) {
        !score_infinite(b)
    } else if score_infinite(b) {
        false
    } else {
        score_num(a) * score_den(b) > score_num(b) * score_den(a)
    }
}

/// `a` and `b` are equally good.
pub open spec fn score_same(a: Score, b: Score) -> bool {
    if score_infinite(a) || score_infinite(b) {
        score_infinite(a) && score_infinite(b)
    } else {
        score_num(a) * score_den(b) == score_num(b) * score_den(a)
    }
}

proof fn lemma_mixed_compare(q1: int, r1: int, d1: int, q2: int, r2: int, d2: int)
    requires
        d1 > 0,
        d2 > 0,
        0 <= r1 < d1,
        0 <= r2 < d2,
    ensures
        ((q1 * d1 + r1) * d2 > (q2 * d2 + r2) * d1) == (q1 > q2 || (q1 == q2 && r1 * d2 > r2 * d1)),
        ((q1 * d1 + r1) * d2 == (q2 * d2 + r2) * d1) == (q1 == q2 && r1 * d2 == r2 * d1),
{
    let x = r1 * d2 - r2 * d1;
    assert((q1 * d1 + r1) * d2 - (q2 * d2 + r2) * d1 == (q1 - q2) * (d1 * d2) + x) by (nonlinear_arith)
        requires
            x == r1 * d2 - r2 * d1,
    ;
    assert(d1 * d2 > 0) by (nonlinear_arith)
        requires
            d1 > 0,
            d2 > 0,
    ;
    assert(0 <= r1 * d2 < d1 * d2) by (nonlinear_arith)
        requires
            0 <= r1 < d1,
            d2 > 0,
    ;
    assert(0 <= r2 * d1 < d1 * d2) by (nonlinear_arith)
        requires
            0 <= r2 < d2,
            d1 > 0,
    ;
    assert(-(d1 * d2) < x < d1 * d2);
    if q1 > q2 {
        assert((q1 - q2) * (d1 * d2) >= d1 * d2) by (nonlinear_arith)
            requires
                q1 - q2 >= 1,
                d1 * d2 > 0,
        ;
    } else if q1 < q2 {
        assert((q1 - q2) * (d1 * d2) <= -(d1 * d2)) by (nonlinear_arith)
            requires
                q1 - q2 <= -1,
                d1 * d2 > 0,
        ;
    } else {
        assert((q1 - q2) * (d1 * d2) == 0) by (nonlinear_arith)
            requires
                q1 == q2,
        ;
    }
}

/// For a finite score with a positive duration, the numerator splits into a whole part and a
/// remainder below the duration.
proof fn lemma_score_parts(s: Score)
    requires
        s.duration > 0,
    ensures
        score_num(s) == (s.work + s.work / s.duration) * score_den(s) + s.work % s.duration,
        0 <= s.work % s.duration < s.duration,
{
    let w = s.work as int;
    let d = s.duration as int;
    vstd::arithmetic::div_mod::lemma_fundamental_div_mod(w, d);
    assert(w * (d + 1) == (w + w / d) * d + w % d) by (nonlinear_arith)
        requires
            w == d * (w / d) + (w % d),
    ;
}

impl Score {
    /// Whole part and remainder of the value, and the denominator: value = whole + rem / den.
    fn parts(&self) -> (r: (u128, u128, u128))
        ensures
            r.2 == score_den(*self),
            0 <= r.1 < r.2,
            !score_infinite(*self) ==> score_num(*self) == r.0 * r.2 + r.1,
            r.0 <= 2 * (u64::MAX as int),
            r.2 <= u64::MAX,
    {
        if self.duration == 0 {
            (0, 0, 1)
        } else {
            proof {
                lemma_score_parts(*self);
            }
            let w: u128 = self.work as u128;
            let d: u128 = self.duration as u128;
            (w + w / d, w % d, d)
        }
    }

    /// This score is strictly better than `other`.
    pub fn greater_than(&self, other: &Score) -> (r: bool)
        ensures
            r == score_gt(*self, *other),
    {
        let a_inf: bool = self.duration == 0 && self.work > 0;
        let b_inf: bool = other.duration == 0 && other.work > 0;
        if a_inf {
            return !b_inf;
        }
        if b_inf {
            return false;
        }
        let (q1, r1, d1) = self.parts();
        let (q2, r2, d2) = other.parts();
        proof {
            lemma_mixed_compare(q1 as int, r1 as int, d1 as int, q2 as int, r2 as int, d2 as int);
            assert(r1 * d2 <= u128::MAX) by (nonlinear_arith)
                requires
                    r1 < d1,
                    d1 <= u64::MAX,
                    d2 <= u64::MAX,
            ;
            assert(r2 * d1 <= u128::MAX) by (nonlinear_arith)
                requires
                    r2 < d2,
                    d1 <= u64::MAX,
                    d2 <= u64::MAX,
            ;
        }
        q1 > q2 || (q1 == q2 && r1 * d2 > r2 * d1)
    }

    /// This score is exactly as good as `other`.
    pub fn same_as(&self, other: &Score) -> (r: bool)
        ensures
            r == score_same(*self, *other),
    {
        let a_inf: bool = self.duration == 0 && self.work > 0;
        let b_inf: bool = other.duration == 0 && other.work > 0;
        if a_inf || b_inf {
            return a_inf && b_inf;
        }
        let (q1, r1, d1) = self.parts();
        let (q2, r2, d2) = other.parts();
        proof {
            lemma_mixed_compare(q1 as int, r1 as int, d1 as int, q2 as int, r2 as int, d2 as int);
            assert(r1 * d2 <= u128::MAX) by (nonlinear_arith)
                requires
                    r1 < d1,
                    d1 <= u64::MAX,
                    d2 <= u64::MAX,
            ;
            assert(r2 * d1 <= u128::MAX) by (nonlinear_arith)
                requires
                    r2 < d2,
                    d1 <= u64::MAX,
                    d2 <= u64::MAX,
            ;
        }
        q1 == q2 && r1 * d2 == r2 * d1
    }
}


/// `a` is at least as good as `b`.
pub open spec fn score_ge(a: Score, b: Score) -> bool {
    score_gt(a, b) || score_same(a, b)
}

proof fn lemma_cross_trans(na: int, da: int, nb: int, db: int, nc: int, dc: int)
    requires
        da > 0,
        db > 0,
        dc > 0,
    ensures
        na * db >= nb * da && nb * dc >= nc * db ==> na * dc >= nc * da,
        na * db > nb * da && nb * dc >= nc * db ==> na * dc > nc * da,
        na * db >= nb * da && nb * dc > nc * db ==> na * dc > nc * da,
{
    if na * db >= nb * da && nb * dc >= nc * db {
        assert(na * db * dc >= nb * da * dc) by (nonlinear_arith)
            requires
                na * db >= nb * da,
                dc > 0,
        ;
        assert(nb * dc * da >= nc * db * da) by (nonlinear_arith)
            requires
                nb * dc >= nc * db,
                da > 0,
        ;
        assert(na * dc * db >= nc * da * db) by (nonlinear_arith)
            requires
                na * db * dc >= nb * da * dc,
                nb * dc * da >= nc * db * da,
        ;
        assert(na * dc >= nc * da) by (nonlinear_arith)
            requires
                na * dc * db >= nc * da * db,
                db > 0,
        ;
        if na * db > nb * da {
            assert(na * db * dc > nb * da * dc) by (nonlinear_arith)
                requires
                    na * db > nb * da,
                    dc > 0,
            ;
            assert(na * dc * db > nc * da * db) by (nonlinear_arith)
                requires
                    na * db * dc > nb * da * dc,
                    nb * dc * da >= nc * db * da,
            ;
            assert(na * dc > nc * da) by (nonlinear_arith)
                requires
                    na * dc * db > nc * da * db,
                    db > 0,
            ;
        }
        if nb * dc > nc * db {
            assert(nb * dc * da > nc * db * da) by (nonlinear_arith)
                requires
                    nb * dc > nc * db,
                    da > 0,
            ;
            assert(na * dc * db > nc * da * db) by (nonlinear_arith)
                requires
                    na * db * dc >= nb * da * dc,
                    nb * dc * da > nc * db * da,
            ;
            assert(na * dc > nc * da) by (nonlinear_arith)
                requires
                    na * dc * db > nc * da * db,
                    db > 0,
            ;
        }
    }
}

proof fn lemma_score_cross(a: Score, b: Score, c: Score)
    requires
        !score_infinite(a),
        !score_infinite(b),
        !score_infinite(c),
    ensures
        score_ge(a, b) && score_ge(b, c) ==> score_ge(a, c),
        score_gt(a, b) && score_ge(b, c) ==> score_gt(a, c),
        score_ge(a, b) && score_gt(b, c) ==> score_gt(a, c),
{
    lemma_cross_trans(score_num(a), score_den(a), score_num(b), score_den(b), score_num(c), score_den(c));
}

/// Scores are ordered like the numbers they stand for: `score_same` is an equivalence and
/// `score_gt` a strict total order on its classes.
pub proof fn lemma_score_order(a: Score, b: Score, c: Score)
    ensures
        score_same(a, a),
        !score_gt(a, a),
        score_same(a, b) ==> score_same(b, a),
        score_same(a, b) && score_same(b, c) ==> score_same(a, c),
        score_gt(a, b) ==> !score_gt(b, a) && !score_same(a, b),
        !score_gt(a, b) && !score_same(a, b) ==> score_gt(b, a),
        score_ge(a, b) && score_ge(b, c) ==> score_ge(a, c),
        score_gt(a, b) && score_ge(b, c) ==> score_gt(a, c),
        score_ge(a, b) && score_gt(b, c) ==> score_gt(a, c),
        !score_gt(a, b) <==> score_ge(b, a),
{
    if !score_infinite(a) && !score_infinite(b) && !score_infinite(c) {
        lemma_score_cross(a, b, c);
        lemma_score_cross(c, b, a);
        lemma_score_cross(b, a, c);
        lemma_score_cross(a, c, b);
        lemma_score_cross(b, c, a);
        lemma_score_cross(c, a, b);
    }
}

/// The score of a solution.
pub open spec fn score_of(qs: Seq<QueueView>) -> Score {
    Score { work: solution_work(qs) as usize, duration: solution_duration(qs) as usize }
}

/// The first best score: `init`, replaced by each later value that beats the best so far.
pub open spec fn best_of(init: Score, vals: Seq<Score>) -> Score
    decreases vals.len(),
{
    if vals.len() == 0 {
        init
    } else {
        let b = best_of(init, vals.drop_last());
        if score_gt(vals.last(), b) {
            vals.last()
        } else {
            b
        }
    }
}

/// The solutions whose value is as good as `best`, in order.
pub open spec fn ties(cs: Seq<Seq<QueueView>>, vals: Seq<Score>, best: Score) -> Seq<Seq<QueueView>>
    decreases cs.len(),
{
    if cs.len() == 0 || vals.len() == 0 {
        Seq::empty()
    } else {
        let rest = ties(cs.drop_last(), vals.drop_last(), best);
        if score_same(vals.last(), best) {
            rest.push(cs.last())
        } else {
            rest
        }
    }
}

/// The positions of the first `k` tasks that the solution does not hold yet.
pub open spec fn unscheduled_positions(p: ProjectView, qs: Seq<QueueView>, k: int) -> Seq<int>
    decreases k,
{
    if k <= 0 {
        Seq::empty()
    } else {
        let rest = unscheduled_positions(p, qs, k - 1);
        if !is_scheduled(qs, p.tasks[k - 1].id) {
            rest.push(k - 1)
        } else {
            rest
        }
    }
}

/// Every (resource position, task position) pair to try, resource by resource.
pub open spec fn candidates_upto(p: ProjectView, qs: Seq<QueueView>, r: int) -> Seq<(int, int)>
    decreases r,
{
    if r <= 0 {
        Seq::empty()
    } else {
        candidates_upto(p, qs, r - 1) + unscheduled_positions(p, qs, p.tasks.len() as int).map_values(
            |t: int| (r - 1, t),
        )
    }
}

/// Every pair of a resource and an unscheduled task, resource by resource.
pub open spec fn candidates(p: ProjectView, qs: Seq<QueueView>) -> Seq<(int, int)> {
    candidates_upto(p, qs, p.resources.len() as int)
}

/// The solutions reached by the candidate pushes that succeed, in candidate order.
pub open spec fn children(p: ProjectView, qs: Seq<QueueView>, cands: Seq<(int, int)>) -> Seq<Seq<QueueView>>
    decreases cands.len(),
{
    if cands.len() == 0 {
        Seq::empty()
    } else {
        let rest = children(p, qs, cands.drop_last());
        let c = cands.last();
        match push_task_result(qs, p.resources[c.0].id, p.tasks[c.1]) {
            Ok((child, _start)) => rest.push(child),
            Err(_) => rest,
        }
    }
}

/// The best score reachable from the solution in at most `depth` further pushes.
pub open spec fn minimax_value(p: ProjectView, qs: Seq<QueueView>, depth: nat) -> Score
    decreases depth, 0nat,
{
    if depth == 0 {
        score_of(qs)
    } else {
        best_of(score_of(qs), child_values(p, children(p, qs, candidates(p, qs)), (depth - 1) as nat))
    }
}

/// The values of each solution, searched `depth` pushes deep.
pub open spec fn child_values(p: ProjectView, cs: Seq<Seq<QueueView>>, depth: nat) -> Seq<Score>
    decreases depth, cs.len(),
{
    if cs.len() == 0 {
        Seq::empty()
    } else {
        child_values(p, cs.drop_last(), depth).push(minimax_value(p, cs.last(), depth))
    }
}

/// The solutions the search keeps: the solution itself if nothing beats it, and every child
/// whose value matches the best.
pub open spec fn minimax_winners(p: ProjectView, qs: Seq<QueueView>, depth: nat) -> Seq<Seq<QueueView>> {
    if depth == 0 {
        seq![qs]
    } else {
        let cs = children(p, qs, candidates(p, qs));
        let vals = child_values(p, cs, (depth - 1) as nat);
        let best = best_of(score_of(qs), vals);
        (if score_same(score_of(qs), best) {
            seq![qs]
        } else {
            Seq::empty()
        }) + ties(cs, vals, best)
    }
}

/// Why the solver gave up.
#[derive(Debug, Clone, Copy, PartialEq, Eq, Structural)]
pub enum SolveError {
    /// No task could be added to the solution found so far.
    AllChildrenFailed,
    /// A round kept no solution.
    NoSolutions,
    /// The rounds ended with only this many tasks scheduled.
    NotAllScheduled { scheduled: usize },
}

/// One round of the search from a solution: the best value over the children searched
/// `depth` deep and the children that reach it, or an error when no push succeeds.
pub open spec fn round_result(p: ProjectView, qs: Seq<QueueView>, depth: nat) -> Result<
    (Score, Seq<Seq<QueueView>>),
    SolveError,
> {
    if depth == 0 {
        Ok((score_of(qs), seq![qs]))
    } else {
        let cs = children(p, qs, candidates(p, qs));
        if cs.len() == 0 {
            Err(SolveError::AllChildrenFailed)
        } else {
            let vals = child_values(p, cs, (depth - 1) as nat);
            let best = best_of(vals[0], vals);
            Ok((best, ties(cs, vals, best)))
        }
    }
}

/// `k` rounds of the search, each continuing from the last solution kept by the previous one.
pub open spec fn solve_rounds(p: ProjectView, qs: Seq<QueueView>, depth: nat, k: nat) -> Result<
    Seq<QueueView>,
    SolveError,
>
    decreases k,
{
    if k == 0 {
        Ok(qs)
    } else {
        match round_result(p, qs, depth) {
            Err(e) => Err(e),
            Ok((_s, kept)) => if kept.len() == 0 {
                Err(SolveError::NoSolutions)
            } else {
                solve_rounds(p, kept.last(), depth, (k - 1) as nat)
            },
        }
    }
}

/// An empty queue for each resource.
pub open spec fn empty_solution(p: ProjectView) -> Seq<QueueView> {
    p.resources.map_values(|a: crate::project::Resource| QueueView { assignee: a, tasks: Seq::empty() })
}

/// What the search returns for a project: one round per task from the empty solution, and
/// the final solution only when it holds as many entries as there are tasks.
pub open spec fn solve_result(p: ProjectView, depth: nat) -> Result<Seq<QueueView>, SolveError> {
    match solve_rounds(p, empty_solution(p), depth, p.tasks.len()) {
        Err(e) => Err(e),
        Ok(qs) => if solution_entries(qs).len() == p.tasks.len() {
            Ok(qs)
        } else {
            Err(SolveError::NotAllScheduled { scheduled: solution_entries(qs).len() as usize })
        },
    }
}


/// The first best value is at least as good as the start and every value.
pub proof fn lemma_best_of_max(init: Score, vals: Seq<Score>)
    ensures
        score_ge(best_of(init, vals), init),
        forall|j: int| 0 <= j < vals.len() ==> score_ge(best_of(init, vals), #[trigger] vals[j]),
        best_of(init, vals) == init || exists|j: int| 0 <= j < vals.len() && best_of(init, vals) == vals[j],
    decreases vals.len(),
{
    lemma_score_order(init, init, init);
    if vals.len() > 0 {
        let rest = vals.drop_last();
        lemma_best_of_max(init, rest);
        let b = best_of(init, rest);
        let v = vals.last();
        lemma_score_order(v, b, init);
        lemma_score_order(v, v, v);
        assert forall|j: int| 0 <= j < vals.len() implies score_ge(best_of(init, vals), #[trigger] vals[j]) by {
            if j < vals.len() - 1 {
                assert(rest[j] == vals[j]);
                lemma_score_order(v, b, vals[j]);
                lemma_score_order(b, vals[j], v);
            } else {
                lemma_score_order(b, v, v);
            }
        }
        if best_of(init, vals) != init {
            if best_of(init, vals) == v {
                assert(best_of(init, vals) == vals[vals.len() - 1]);
            } else {
                let j = choose|j: int| 0 <= j < rest.len() && b == rest[j];
                assert(best_of(init, vals) == vals[j]);
            }
        }
    }
}

proof fn lemma_ties_none(cs: Seq<Seq<QueueView>>, vals: Seq<Score>, b: Score)
    requires
        forall|j: int| 0 <= j < vals.len() ==> !score_same(#[trigger] vals[j], b),
    ensures
        ties(cs, vals, b) == Seq::<Seq<QueueView>>::empty(),
    decreases cs.len(),
{
    if cs.len() > 0 && vals.len() > 0 {
        assert forall|j: int| 0 <= j < vals.drop_last().len() implies !score_same(#[trigger] vals.drop_last()[j], b) by {
            assert(vals.drop_last()[j] == vals[j]);
        }
        lemma_ties_none(cs.drop_last(), vals.drop_last(), b);
        assert(vals[vals.len() - 1] == vals.last());
    }
}

/// Every unscheduled position names a task that the solution does not hold.
proof fn lemma_unscheduled_positions(p: ProjectView, qs: Seq<QueueView>, k: int)
    requires
        k <= p.tasks.len(),
    ensures
        forall|j: int|
            0 <= j < unscheduled_positions(p, qs, k).len() ==> 0 <= #[trigger] unscheduled_positions(p, qs, k)[j]
                < k && !is_scheduled(qs, p.tasks[unscheduled_positions(p, qs, k)[j]].id),
    decreases k,
{
    if k > 0 {
        lemma_unscheduled_positions(p, qs, k - 1);
        let rest = unscheduled_positions(p, qs, k - 1);
        assert forall|j: int| 0 <= j < unscheduled_positions(p, qs, k).len() implies 0
            <= #[trigger] unscheduled_positions(p, qs, k)[j] < k && !is_scheduled(
            qs,
            p.tasks[unscheduled_positions(p, qs, k)[j]].id,
        ) by {
            if j < rest.len() {
                assert(unscheduled_positions(p, qs, k)[j] == rest[j]);
            }
        }
    }
}

/// The views of a vector of solutions.
pub open spec fn solution_views(v: Seq<Solution>) -> Seq<Seq<QueueView>> {
    v.map_values(|s: Solution| s@)
}

/// Searches for schedules with a minimax search that looks `search_depth` pushes ahead.
#[derive(Copy, Clone, Debug, Default)]
pub struct MiniMax {
    pub search_depth: usize,
}

/// A way of finding the best schedule for a project.
pub trait Solver {
    type Error;

    /// The projects this solver can be asked to solve.
    spec fn can_solve(&self, project: ProjectView) -> bool;

    /// Get the most optimal schedule for the given project.
    fn solve(&self, project: &Project) -> Result<Solution, Self::Error>
        requires
            self.can_solve(project@),
    ;

    /// Determines how optimal the solution is. The higher the score, the more optimal.
    fn score(&self, solution: &Solution) -> Score
        requires
            solution@.len() > 0,
            solution_work(solution@) <= usize::MAX,
            forall|i: int| 0 <= i < solution@.len() ==> queue_duration(#[trigger] solution@[i].tasks) <= usize::MAX,
    ;
}

/// The project's tasks fit in a `usize` count of days, and a search of depth 0 is not asked
/// to score a project without resources that has tasks.
pub open spec fn minimax_can_solve(depth: usize, p: ProjectView) -> bool {
    &&& total_days(p, p.tasks.len() as int) <= usize::MAX
    &&& (depth == 0 && p.tasks.len() > 0 ==> p.resources.len() > 0)
}

impl Solver for MiniMax {
    type Error = SolveError;

    open spec fn can_solve(&self, project: ProjectView) -> bool {
        minimax_can_solve(self.search_depth, project)
    }

    fn solve(&self, project: &Project) -> (r: Result<Solution, SolveError>)
        ensures
            match solve_result(project@, self.search_depth as nat) {
                Ok(qs) => r matches Ok(s) && s@ == qs,
                Err(e) => r == Err::<Solution, SolveError>(e),
            },
            r matches Ok(s) ==> complete_solution(project@, s@),
    {
        let resources = project.resources();
        let tasks = project.tasks();
        let ghost p = project@;
        let mut solution = Solution::new(resources.as_slice());
        proof {
            lemma_empty_solution_valid(p, solution@);
            assert(solution@ =~= empty_solution(p));
        }
        let n: usize = tasks.len();
        let mut i: usize = 0;
        while i < n
            invariant
                i <= n,
                n == p.tasks.len(),
                p == project@,
                project_wf(p),
                self.can_solve(p),
                valid_solution(p, solution@),
                solve_rounds(p, empty_solution(p), self.search_depth as nat, n as nat)
                    == solve_rounds(p, solution@, self.search_depth as nat, (n - i) as nat),
            decreases n - i,
        {
            proof {
                lemma_valid_room(p, solution@);
            }
            let (_next_score, mut next_solutions) = self.par_minimax(project, &solution, self.search_depth)?;
            solution = match next_solutions.pop() {
                Some(s) => s,
                None => {
                    return Err(SolveError::NoSolutions);
                },
            };
            i = i + 1;
        }
        let count: usize = solution.task_entries().len();
        if count == n {
            proof {
                lemma_valid_full(p, solution@);
            }
            Ok(solution)
        } else {
            Err(SolveError::NotAllScheduled { scheduled: count })
        }
    }

    fn score(&self, solution: &Solution) -> (r: Score)
        ensures
            r == score_of(solution@),
    {
        let work: usize = solution.work();
        let duration: usize = solution.duration();
        Score { work, duration }
    }
}

impl MiniMax {
    pub fn new(search_depth: usize) -> (r: Self)
        ensures
            r.search_depth == search_depth,
    {
        MiniMax { search_depth }
    }

    /// The positions of the tasks the solution does not hold yet.
    fn unscheduled_list(project: &Project, solution: &Solution) -> (r: Vec<usize>)
        ensures
            r@.len() == unscheduled_positions(project@, solution@, project@.tasks.len() as int).len(),
            forall|j: int| 0 <= j < r@.len() ==> r@[j] == unscheduled_positions(project@, solution@, project@.tasks.len() as int)[j],
    {
        let tasks = project.tasks();
        let ghost p = project@;
        let mut r: Vec<usize> = Vec::new();
        let mut k: usize = 0;
        while k < tasks.len()
            invariant
                k <= tasks@.len(),
                tasks@.map_values(|t: Task| t@) == p.tasks,
                r@.len() == unscheduled_positions(p, solution@, k as int).len(),
                forall|j: int| 0 <= j < r@.len() ==> r@[j] == unscheduled_positions(p, solution@, k as int)[j],
            decreases tasks@.len() - k,
        {
            proof {
                assert(tasks[k as int]@ == p.tasks[k as int]);
            }
            if !solution.has_task(tasks[k].id) {
                r.push(k);
            }
            k = k + 1;
        }
        r
    }

    /// Search `depth` pushes deep from `root_solution`: the best value and the solutions that
    /// reach it (the root itself when no child beats it).
    pub fn inner_minimax(&self, project: &Project, root_solution: &Solution, depth: usize) -> (r: (Score, Vec<Solution>))
        requires
            project_wf(project@),
            search_room(project@, root_solution@),
            root_solution@.len() > 0,
        ensures
            r.0 == minimax_value(project@, root_solution@, depth as nat),
            solution_views(r.1@) == minimax_winners(project@, root_solution@, depth as nat),
        decreases depth,
    {
        let ghost p = project@;
        let ghost qs = root_solution@;
        proof {
            lemma_room_bounds(p, qs);
        }
        if depth == 0 {
            let s = self.score(root_solution);
            let v = vec![root_solution.clone()];
            proof {
                assert(solution_views(v@) =~= seq![qs]);
            }
            return (s, v);
        }
        let ghost d = (depth - 1) as nat;
        let resources = project.resources();
        let tasks = project.tasks();
        let unscheduled = MiniMax::unscheduled_list(project, root_solution);
        let ghost us = unscheduled_positions(p, qs, p.tasks.len() as int);
        proof {
            lemma_unscheduled_positions(p, qs, p.tasks.len() as int);
        }
        let s0 = self.score(root_solution);
        let mut best_score = s0;
        let mut best_solution: Vec<Solution> = vec![root_solution.clone()];
        let ghost mut done: Seq<(int, int)> = Seq::empty();
        let ghost mut cs: Seq<Seq<QueueView>> = Seq::empty();
        let ghost mut vals: Seq<Score> = Seq::empty();
        proof {
            assert(solution_views(best_solution@) =~= seq![qs] + ties(cs, vals, best_score));
        }
        let mut r: usize = 0;
        while r < resources.len()
            invariant
                r <= resources@.len(),
                p == project@,
                qs == root_solution@,
                resources@ == p.resources,
                tasks@.map_values(|t: Task| t@) == p.tasks,
                project_wf(p),
                search_room(p, qs),
                qs.len() > 0,
                depth > 0,
                d == depth - 1,
                s0 == score_of(qs),
                unscheduled@.len() == us.len(),
                forall|j: int| 0 <= j < unscheduled@.len() ==> unscheduled@[j] == us[j],
                forall|j: int| 0 <= j < us.len() ==> 0 <= #[trigger] us[j] < p.tasks.len() && !is_scheduled(qs, p.tasks[us[j]].id),
                us == unscheduled_positions(p, qs, p.tasks.len() as int),
                done == candidates_upto(p, qs, r as int),
                cs == children(p, qs, done),
                vals == child_values(p, cs, d),
                best_score == best_of(s0, vals),
                solution_views(best_solution@) == (if score_same(s0, best_score) {
                    seq![qs]
                } else {
                    Seq::empty()
                }) + ties(cs, vals, best_score),
            decreases resources@.len() - r,
        {
            let mut u: usize = 0;
            while u < unscheduled.len()
                invariant
                    r < resources@.len(),
                    u <= unscheduled@.len(),
                    p == project@,
                    qs == root_solution@,
                    resources@ == p.resources,
                    tasks@.map_values(|t: Task| t@) == p.tasks,
                    project_wf(p),
                    search_room(p, qs),
                    qs.len() > 0,
                    depth > 0,
                    d == depth - 1,
                    s0 == score_of(qs),
                    unscheduled@.len() == us.len(),
                    forall|j: int| 0 <= j < unscheduled@.len() ==> unscheduled@[j] == us[j],
                    forall|j: int| 0 <= j < us.len() ==> 0 <= #[trigger] us[j] < p.tasks.len() && !is_scheduled(qs, p.tasks[us[j]].id),
                    us == unscheduled_positions(p, qs, p.tasks.len() as int),
                    done == candidates_upto(p, qs, r as int) + us.take(u as int).map_values(|t: int| (r as int, t)),
                    cs == children(p, qs, done),
                    vals == child_values(p, cs, d),
                    best_score == best_of(s0, vals),
                    solution_views(best_solution@) == (if score_same(s0, best_score) {
                        seq![qs]
                    } else {
                        Seq::empty()
                    }) + ties(cs, vals, best_score),
                    decreases unscheduled@.len() - u,
            {
                let t: usize = unscheduled[u];
                proof {
                    assert(us[u as int] == t);
                    assert(tasks@.map_values(|t: Task| t@).len() == tasks@.len());
                }
                let ghost cand = (r as int, t as int);
                let ghost done2 = done.push(cand);
                proof {
                    assert(done2 =~= candidates_upto(p, qs, r as int) + us.take(u + 1).map_values(|x: int| (r as int, x)));
                    assert(done2.drop_last() == done);
                    assert(tasks[t as int]@ == p.tasks[t as int]);
                    lemma_room_bounds(p, qs);
                }
                let mut child = root_solution.clone();
                let pushed = child.push_task(resources[r].id, &tasks[t]);
                match pushed {
                    Err(_) => {
                        proof {
                            done = done2;
                        }
                    },
                    Ok(_) => {
                        proof {
                            lemma_push_keeps_room(p, qs, r as int, t as int);
                            if valid_solution(p, qs) {
                                lemma_room_bounds(p, qs);
                                lemma_push_keeps_valid(p, qs, r as int, t as int);
                            }
                        }
                        let (score, _winners) = self.inner_minimax(project, &child, depth - 1);
                        let ghost b = best_score;
                        let ghost cv = child@;
                        let ghost cs2 = cs.push(cv);
                        let ghost vals2 = vals.push(score);
                        proof {
                            lemma_best_of_max(s0, vals);
                            lemma_score_order(score, b, s0);
                            lemma_score_order(s0, b, score);
                            lemma_score_order(score, score, score);
                            assert(children(p, qs, done2) == cs2);
                            assert(cs2.drop_last() =~= cs);
                            assert(vals2.drop_last() =~= vals);
                            assert(child_values(p, cs2, d) == vals2);
                            assert(best_of(s0, vals2) == if score_gt(score, b) { score } else { b });
                        }
                        if score.greater_than(&best_score) {
                            best_score = score;
                            best_solution = vec![child];
                            proof {
                                assert forall|j: int| 0 <= j < vals.len() implies !score_same(#[trigger] vals[j], score) by {
                                    lemma_score_order(vals[j], b, score);
                                    lemma_score_order(score, b, vals[j]);
                                    lemma_score_order(score, vals[j], b);
                                }
                                lemma_ties_none(cs, vals, score);
                                assert(ties(cs2, vals2, score) =~= seq![cv]);
                                assert(solution_views(best_solution@) =~= seq![cv]);
                            }
                        } else if score.same_as(&best_score) {
                            let ghost before = best_solution@;
                            best_solution.push(child);
                            proof {
                                assert(ties(cs2, vals2, b) == ties(cs, vals, b).push(cv));
                                assert(solution_views(best_solution@) =~= solution_views(before).push(cv));
                            }
                        } else {
                            proof {
                                assert(ties(cs2, vals2, b) == ties(cs, vals, b));
                            }
                        }
                        proof {
                            cs = cs2;
                            vals = vals2;
                            done = done2;
                        }
                    },
                }
                u = u + 1;
            }
            proof {
                assert(us.take(u as int) =~= us);
                assert(done =~= candidates_upto(p, qs, r + 1));
            }
            r = r + 1;
        }
        (best_score, best_solution)
    }

    /// One round of the search: every successful push is searched `depth - 1` further
    /// pushes deep, and the best value with the children that reach it is returned.
    pub fn par_minimax(&self, project: &Project, root_solution: &Solution, depth: usize) -> (r: Result<
        (Score, Vec<Solution>),
        SolveError,
    >)
        requires
            project_wf(project@),
            search_room(project@, root_solution@),
            depth == 0 ==> root_solution@.len() > 0,
        ensures
            match round_result(project@, root_solution@, depth as nat) {
                Ok((s, kept)) => r matches Ok((s2, v)) && s2 == s && solution_views(v@) == kept,
                Err(e) => r == Err::<(Score, Vec<Solution>), SolveError>(e),
            },
            valid_solution(project@, root_solution@) ==> (r matches Ok((_, v)) ==> forall|j: int|
                0 <= j < v@.len() ==> valid_solution(project@, (#[trigger] v@[j])@)),
    {
        let ghost p = project@;
        let ghost qs = root_solution@;
        proof {
            lemma_room_bounds(p, qs);
        }
        if depth == 0 {
            let s = self.score(root_solution);
            let v = vec![root_solution.clone()];
            proof {
                assert(solution_views(v@) =~= seq![qs]);
            }
            return Ok((s, v));
        }
        let ghost d = (depth - 1) as nat;
        let resources = project.resources();
        let tasks = project.tasks();
        let unscheduled = MiniMax::unscheduled_list(project, root_solution);
        let ghost us = unscheduled_positions(p, qs, p.tasks.len() as int);
        proof {
            lemma_unscheduled_positions(p, qs, p.tasks.len() as int);
        }
        let mut scores: Vec<Score> = Vec::new();
        let mut solutions: Vec<Solution> = Vec::new();
        let ghost mut done: Seq<(int, int)> = Seq::empty();
        let ghost mut cs: Seq<Seq<QueueView>> = Seq::empty();
        let mut r: usize = 0;
        while r < resources.len()
            invariant
                r <= resources@.len(),
                p == project@,
                qs == root_solution@,
                resources@ == p.resources,
                tasks@.map_values(|t: Task| t@) == p.tasks,
                project_wf(p),
                search_room(p, qs),
                depth > 0,
                d == depth - 1,
                unscheduled@.len() == us.len(),
                forall|j: int| 0 <= j < unscheduled@.len() ==> unscheduled@[j] == us[j],
                forall|j: int| 0 <= j < us.len() ==> 0 <= #[trigger] us[j] < p.tasks.len() && !is_scheduled(qs, p.tasks[us[j]].id),
                us == unscheduled_positions(p, qs, p.tasks.len() as int),
                done == candidates_upto(p, qs, r as int),
                cs == children(p, qs, done),
                solution_views(solutions@) == cs,
                scores@ == child_values(p, cs, d),
                valid_solution(p, qs) ==> forall|j: int| 0 <= j < solutions@.len() ==> valid_solution(p, (#[trigger] solutions@[j])@),
            decreases resources@.len() - r,
        {
            let mut u: usize = 0;
            while u < unscheduled.len()
                invariant
                    r < resources@.len(),
                    u <= unscheduled@.len(),
                    p == project@,
                    qs == root_solution@,
                    resources@ == p.resources,
                    tasks@.map_values(|t: Task| t@) == p.tasks,
                    project_wf(p),
                    search_room(p, qs),
                    depth > 0,
                    d == depth - 1,
                    unscheduled@.len() == us.len(),
                    forall|j: int| 0 <= j < unscheduled@.len() ==> unscheduled@[j] == us[j],
                    forall|j: int| 0 <= j < us.len() ==> 0 <= #[trigger] us[j] < p.tasks.len() && !is_scheduled(qs, p.tasks[us[j]].id),
                    us == unscheduled_positions(p, qs, p.tasks.len() as int),
                    done == candidates_upto(p, qs, r as int) + us.take(u as int).map_values(|t: int| (r as int, t)),
                    cs == children(p, qs, done),
                    solution_views(solutions@) == cs,
                    scores@ == child_values(p, cs, d),
                    valid_solution(p, qs) ==> forall|j: int| 0 <= j < solutions@.len() ==> valid_solution(p, (#[trigger] solutions@[j])@),
                decreases unscheduled@.len() - u,
            {
                let t: usize = unscheduled[u];
                proof {
                    assert(us[u as int] == t);
                    assert(tasks@.map_values(|t: Task| t@).len() == tasks@.len());
                }
                let ghost cand = (r as int, t as int);
                let ghost done2 = done.push(cand);
                proof {
                    assert(done2 =~= candidates_upto(p, qs, r as int) + us.take(u + 1).map_values(|x: int| (r as int, x)));
                    assert(done2.drop_last() == done);
                    assert(tasks[t as int]@ == p.tasks[t as int]);
                    lemma_room_bounds(p, qs);
                }
                let mut child = root_solution.clone();
                let pushed = child.push_task(resources[r].id, &tasks[t]);
                match pushed {
                    Err(_) => {
                        proof {
                            done = done2;
                        }
                    },
                    Ok(_) => {
                        proof {
                            lemma_push_keeps_room(p, qs, r as int, t as int);
                            if valid_solution(p, qs) {
                                lemma_room_bounds(p, qs);
                                lemma_push_keeps_valid(p, qs, r as int, t as int);
                            }
                        }
                        let (score, _winners) = self.inner_minimax(project, &child, depth - 1);
                        let ghost before = solutions@;
                        scores.push(score);
                        solutions.push(child);
                        proof {
                            cs = cs.push(solutions@.last()@);
                            done = done2;
                            assert(solution_views(solutions@) =~= solution_views(before).push(solutions@.last()@));
                            assert(cs.drop_last() == children(p, qs, done.drop_last()));
                            assert(forall|j: int| 0 <= j < before.len() ==> solutions@[j] == before[j]);
                        }
                    },
                }
                u = u + 1;
            }
            proof {
                assert(us.take(u as int) =~= us);
                assert(done =~= candidates_upto(p, qs, r + 1));
            }
            r = r + 1;
        }
        let ghost vals = scores@;
        if solutions.len() == 0 {
            return Err(SolveError::AllChildrenFailed);
        }
        proof {
            assert(cs.len() == vals.len()) by {
                lemma_child_values_len(p, cs, d);
            }
        }
        let mut best: Score = scores[0];
        let mut j: usize = 0;
        while j < scores.len()
            invariant
                j <= vals.len(),
                vals == scores@,
                vals.len() > 0,
                best == best_of(vals[0], vals.take(j as int)),
            decreases vals.len() - j,
        {
            proof {
                assert(vals.take(j + 1).drop_last() =~= vals.take(j as int));
                assert(vals.take(j + 1).last() == vals[j as int]);
            }
            if scores[j].greater_than(&best) {
                best = scores[j];
            }
            j = j + 1;
        }
        proof {
            assert(vals.take(j as int) =~= vals);
        }
        let mut kept: Vec<Solution> = Vec::new();
        let mut k: usize = 0;
        while k < solutions.len()
            invariant
                k <= cs.len(),
                cs.len() == vals.len(),
                vals == scores@,
                solution_views(solutions@) == cs,
                solution_views(kept@) == ties(cs.take(k as int), vals.take(k as int), best),
                valid_solution(p, qs) ==> forall|j: int| 0 <= j < solutions@.len() ==> valid_solution(p, (#[trigger] solutions@[j])@),
                valid_solution(p, qs) ==> forall|j: int| 0 <= j < kept@.len() ==> valid_solution(p, (#[trigger] kept@[j])@),
            decreases cs.len() - k,
        {
            proof {
                assert(cs.take(k + 1).drop_last() =~= cs.take(k as int));
                assert(vals.take(k + 1).drop_last() =~= vals.take(k as int));
                assert(cs.take(k + 1).last() == cs[k as int]);
                assert(vals.take(k + 1).last() == vals[k as int]);
                assert(cs[k as int] == solutions@[k as int]@);
            }
            if scores[k].same_as(&best) {
                let ghost before = kept@;
                kept.push(solutions[k].clone());
                proof {
                    assert(solution_views(kept@) =~= solution_views(before).push(solutions@[k as int]@));
                }
            }
            k = k + 1;
        }
        proof {
            assert(cs.take(k as int) =~= cs);
            assert(vals.take(k as int) =~= vals);
        }
        Ok((best, kept))
    }
}

proof fn lemma_child_values_len(p: ProjectView, cs: Seq<Seq<QueueView>>, d: nat)
    ensures
        child_values(p, cs, d).len() == cs.len(),
        forall|j: int| 0 <= j < cs.len() ==> #[trigger] child_values(p, cs, d)[j] == minimax_value(p, cs[j], d),
    decreases cs.len(),
{
    if cs.len() > 0 {
        lemma_child_values_len(p, cs.drop_last(), d);
        let rest = child_values(p, cs.drop_last(), d);
        assert forall|j: int| 0 <= j < cs.len() implies #[trigger] child_values(p, cs, d)[j] == minimax_value(
            p,
            cs[j],
            d,
        ) by {
            if j < cs.len() - 1 {
                assert(child_values(p, cs, d)[j] == rest[j]);
                assert(cs.drop_last()[j] == cs[j]);
            }
        }
    }
}


/// `a` orders strictly before `b`.
pub open spec fn key_before<O: PartialOrd>(a: O, b: O) -> bool {
    a.partial_cmp_spec(&b) == Some(core::cmp::Ordering::Less)
}

/// Every key that `key` can give for each element is no smaller than every key it can give
/// for the element before.
pub open spec fn sorted_by_key<T, O: PartialOrd, P: Fn(&T) -> O>(l: Seq<T>, key: P) -> bool {
    forall|i: int, a: O, b: O|
        #![trigger call_ensures(key, (&l[i],), a), call_ensures(key, (&l[i + 1],), b)]
        0 <= i < l.len() - 1 && call_ensures(key, (&l[i],), a) && call_ensures(key, (&l[i + 1],), b)
            ==> !key_before(b, a)
}

/// Determine if a given slice is ordered according to the key function.
///
/// The result is stated over every key that `key` may give; where the key has a spec
/// function, `is_sorted_by` states it over that function.
pub fn is_sorted<T, O: PartialOrd, P: Fn(&T) -> O>(l: &[T], key: P) -> (r: bool)
    requires
        O::obeys_partial_cmp_spec(),
        forall|x: &T| #[trigger] call_requires(key, (x,)),
        forall|x: &T, a: O, b: O| call_ensures(key, (x,), a) && call_ensures(key, (x,), b) ==> a == b,
    ensures
        r == sorted_by_key(l@, key),
{
    let n: usize = l.len();
    if n == 0 {
        return true;
    }
    let mut i: usize = 0;
    while i + 1 < n
        invariant
            n == l@.len(),
            n > 0,
            i + 1 <= n,
            O::obeys_partial_cmp_spec(),
            forall|x: &T| #[trigger] call_requires(key, (x,)),
            forall|x: &T, a: O, b: O| call_ensures(key, (x,), a) && call_ensures(key, (x,), b) ==> a == b,
            forall|j: int, a: O, b: O|
                #![trigger call_ensures(key, (&l@[j],), a), call_ensures(key, (&l@[j + 1],), b)]
                0 <= j < i && call_ensures(key, (&l@[j],), a) && call_ensures(key, (&l@[j + 1],), b)
                    ==> !key_before(b, a),
        decreases n - i,
    {
        let kb = key(&l[i + 1]);
        let ka = key(&l[i]);
        if kb < ka {
            return false;
        }
        i = i + 1;
    }
    true
}

/// A key by which values of type `T` are ordered, whose meaning is a spec function.
pub trait SortKey<T> {
    type Key: PartialOrd;

    /// The key of `x`.
    spec fn key_spec(&self, x: &T) -> Self::Key;

    /// Compute the key of `x`.
    fn key(&self, x: &T) -> (r: Self::Key)
        ensures
            r == self.key_spec(x),
    ;
}

/// Orders values by themselves.
pub struct ByValue;

impl<T: Copy + PartialOrd> SortKey<T> for ByValue {
    type Key = T;

    open spec fn key_spec(&self, x: &T) -> T {
        *x
    }

    fn key(&self, x: &T) -> (r: T) {
        *x
    }
}

/// No element's key orders strictly before the key of the element before it.
pub open spec fn sorted_by_spec_key<T, O: PartialOrd, K: SortKey<T, Key = O>>(l: Seq<T>, key: K) -> bool {
    forall|i: int, j: int|
        #![trigger key.key_spec(&l[i]), key.key_spec(&l[j])]
        0 <= i && j == i + 1 && j < l.len() ==> !key_before(key.key_spec(&l[j]), key.key_spec(&l[i]))
}

/// Determine if a given slice is ordered according to a key whose meaning is known.
pub fn is_sorted_by<T, O: PartialOrd, K: SortKey<T, Key = O>>(l: &[T], key: &K) -> (r: bool)
    requires
        O::obeys_partial_cmp_spec(),
    ensures
        r == sorted_by_spec_key(l@, *key),
{
    let n: usize = l.len();
    if n == 0 {
        return true;
    }
    let mut i: usize = 0;
    while i + 1 < n
        invariant
            n == l@.len(),
            n > 0,
            i + 1 <= n,
            O::obeys_partial_cmp_spec(),
            forall|a: int, b: int|
                #![trigger key.key_spec(&l@[a]), key.key_spec(&l@[b])]
                0 <= a && b == a + 1 && b <= i ==> !key_before(key.key_spec(&l@[b]), key.key_spec(&l@[a])),
        decreases n - i,
    {
        let kb = key.key(&l[i + 1]);
        let ka = key.key(&l[i]);
        if kb < ka {
            return false;
        }
        i = i + 1;
    }
    true
}


/// `x` is one of the solutions `cs` whose value matches `b`.
pub open spec fn tied_child(x: Seq<QueueView>, cs: Seq<Seq<QueueView>>, vals: Seq<Score>, b: Score) -> bool {
    exists|j: int| 0 <= j < cs.len() && x == cs[j] && score_same(vals[j], b)
}

proof fn lemma_ties_members(cs: Seq<Seq<QueueView>>, vals: Seq<Score>, b: Score)
    requires
        cs.len() == vals.len(),
    ensures
        forall|k: int|
            0 <= k < ties(cs, vals, b).len() ==> tied_child(#[trigger] ties(cs, vals, b)[k], cs, vals, b),
        forall|j: int| 0 <= j < vals.len() && score_same(#[trigger] vals[j], b) ==> ties(cs, vals, b).len() > 0,
    decreases cs.len(),
{
    if cs.len() > 0 {
        let rc = cs.drop_last();
        let rv = vals.drop_last();
        lemma_ties_members(rc, rv, b);
        let rest = ties(rc, rv, b);
        let t = ties(cs, vals, b);
        if score_same(vals.last(), b) {
            assert(t =~= rest.push(cs.last()));
        } else {
            assert(t =~= rest);
        }
        assert forall|k: int| 0 <= k < t.len() implies tied_child(#[trigger] t[k], cs, vals, b) by {
            if k < rest.len() {
                assert(t[k] == rest[k]);
                assert(tied_child(rest[k], rc, rv, b));
                let j = choose|j: int| 0 <= j < rc.len() && rest[k] == rc[j] && score_same(rv[j], b);
                assert(rc[j] == cs[j] && rv[j] == vals[j]);
                assert(t[k] == cs[j] && score_same(vals[j], b));
            } else {
                let j = cs.len() - 1;
                assert(t[k] == cs[j] && score_same(vals[j], b));
            }
        }
        assert forall|j: int| 0 <= j < vals.len() && score_same(#[trigger] vals[j], b) implies ties(cs, vals, b).len()
            > 0 by {
            if j < vals.len() - 1 {
                assert(rv[j] == vals[j]);
            }
        }
    }
}

/// A search never values a solution below its own score.
pub proof fn lemma_minimax_at_least_score(p: ProjectView, qs: Seq<QueueView>, depth: nat)
    ensures
        score_ge(minimax_value(p, qs, depth), score_of(qs)),
{
    let s = score_of(qs);
    lemma_score_order(s, s, s);
    if depth > 0 {
        lemma_best_of_max(s, child_values(p, children(p, qs, candidates(p, qs)), (depth - 1) as nat));
    }
}

/// A round that succeeds keeps at least one child; each kept child is one of the round's
/// children and reaches the round's value, and no child's value beats it.
pub proof fn lemma_round_best(p: ProjectView, qs: Seq<QueueView>, depth: nat)
    requires
        depth > 0,
        round_result(p, qs, depth) is Ok,
    ensures
        ({
            let (best, kept) = round_result(p, qs, depth)->Ok_0;
            let cs = children(p, qs, candidates(p, qs));
            let vals = child_values(p, cs, (depth - 1) as nat);
            &&& kept.len() > 0
            &&& forall|j: int| 0 <= j < vals.len() ==> score_ge(best, #[trigger] vals[j])
            &&& forall|k: int| 0 <= k < kept.len() ==> tied_child(#[trigger] kept[k], cs, vals, best)
            &&& vals.len() == cs.len()
            &&& forall|j: int| 0 <= j < cs.len() ==> #[trigger] vals[j] == minimax_value(p, cs[j], (depth - 1) as nat)
        }),
{
    let cs = children(p, qs, candidates(p, qs));
    let vals = child_values(p, cs, (depth - 1) as nat);
    lemma_child_values_len(p, cs, (depth - 1) as nat);
    let best = best_of(vals[0], vals);
    lemma_best_of_max(vals[0], vals);
    lemma_ties_members(cs, vals, best);
    lemma_score_order(best, best, best);
    if best == vals[0] {
        assert(score_same(vals[0], best));
    } else {
        let j = choose|j: int| 0 <= j < vals.len() && best == vals[j];
        assert(score_same(vals[j], best));
    }
}


/// The first best value from a start is the start, unless the first best value among the
/// values alone beats it.
proof fn lemma_best_of_split(init: Score, vals: Seq<Score>)
    requires
        vals.len() > 0,
    ensures
        best_of(init, vals) == (if score_gt(best_of(vals[0], vals), init) {
            best_of(vals[0], vals)
        } else {
            init
        }),
    decreases vals.len(),
{
    if vals.len() > 1 {
        let rest = vals.drop_last();
        assert(rest[0] == vals[0]);
        lemma_best_of_split(init, rest);
        let v = vals.last();
        let b1 = best_of(vals[0], rest);
        lemma_score_order(v, b1, init);
        lemma_score_order(v, init, b1);
        lemma_score_order(b1, init, v);
        assert(best_of(init, vals) == (if score_gt(v, best_of(init, rest)) { v } else { best_of(init, rest) }));
        assert(best_of(vals[0], vals) == (if score_gt(v, b1) { v } else { b1 }));
    } else {
        assert(vals.drop_last().len() == 0);
        assert(best_of(init, vals.drop_last()) == init);
        assert(best_of(vals[0], vals.drop_last()) == vals[0]);
        lemma_score_order(vals[0], vals[0], vals[0]);
    }
}

/// A round and a search of the same depth agree: the search values the solution at the
/// round's value where that beats the solution's own score, and at its score otherwise.
pub proof fn lemma_round_matches_search(p: ProjectView, qs: Seq<QueueView>, depth: nat)
    requires
        depth > 0,
        round_result(p, qs, depth) is Ok,
    ensures
        ({
            let best = round_result(p, qs, depth)->Ok_0.0;
            minimax_value(p, qs, depth) == (if score_gt(best, score_of(qs)) {
                best
            } else {
                score_of(qs)
            })
        }),
{
    let cs = children(p, qs, candidates(p, qs));
    let vals = child_values(p, cs, (depth - 1) as nat);
    lemma_child_values_len(p, cs, (depth - 1) as nat);
    lemma_best_of_split(score_of(qs), vals);
}

/// Raising each value never lowers the first best value.
proof fn lemma_best_of_mono(init: Score, v1: Seq<Score>, v2: Seq<Score>)
    requires
        v1.len() == v2.len(),
        forall|j: int| 0 <= j < v1.len() ==> score_ge(#[trigger] v2[j], v1[j]),
    ensures
        score_ge(best_of(init, v2), best_of(init, v1)),
{
    lemma_best_of_max(init, v1);
    lemma_best_of_max(init, v2);
    let b1 = best_of(init, v1);
    let b2 = best_of(init, v2);
    if b1 == init {
    } else {
        let j = choose|j: int| 0 <= j < v1.len() && b1 == v1[j];
        lemma_score_order(b2, v2[j], v1[j]);
    }
}

/// A search one push deeper never values a solution lower.
pub proof fn lemma_minimax_deeper(p: ProjectView, qs: Seq<QueueView>, d: nat)
    ensures
        score_ge(minimax_value(p, qs, d + 1), minimax_value(p, qs, d)),
    decreases d, 0nat,
{
    if d == 0 {
        lemma_minimax_at_least_score(p, qs, 1);
    } else {
        let cs = children(p, qs, candidates(p, qs));
        lemma_child_values_deeper(p, cs, (d - 1) as nat);
        lemma_best_of_mono(score_of(qs), child_values(p, cs, (d - 1) as nat), child_values(p, cs, d));
    }
}

proof fn lemma_child_values_deeper(p: ProjectView, cs: Seq<Seq<QueueView>>, d: nat)
    ensures
        child_values(p, cs, d + 1).len() == cs.len(),
        child_values(p, cs, d).len() == cs.len(),
        forall|j: int| 0 <= j < cs.len() ==> score_ge(#[trigger] child_values(p, cs, d + 1)[j], child_values(p, cs, d)[j]),
    decreases d, cs.len(),
{
    if cs.len() > 0 {
        lemma_child_values_deeper(p, cs.drop_last(), d);
        lemma_minimax_deeper(p, cs.last(), d);
        let a = child_values(p, cs.drop_last(), d + 1);
        let b = child_values(p, cs.drop_last(), d);
        assert forall|j: int| 0 <= j < cs.len() implies score_ge(#[trigger] child_values(p, cs, d + 1)[j], child_values(p, cs, d)[j]) by {
            if j < cs.len() - 1 {
                assert(child_values(p, cs, d + 1)[j] == a[j]);
                assert(child_values(p, cs, d)[j] == b[j]);
            }
        }
    }
}


/// A search always keeps at least one solution.
pub proof fn lemma_minimax_winners_nonempty(p: ProjectView, qs: Seq<QueueView>, depth: nat)
    ensures
        minimax_winners(p, qs, depth).len() > 0,
{
    if depth > 0 {
        let cs = children(p, qs, candidates(p, qs));
        let vals = child_values(p, cs, (depth - 1) as nat);
        let s0 = score_of(qs);
        let best = best_of(s0, vals);
        lemma_child_values_len(p, cs, (depth - 1) as nat);
        lemma_best_of_max(s0, vals);
        lemma_ties_members(cs, vals, best);
        lemma_score_order(best, best, best);
        if best != s0 {
            let j = choose|j: int| 0 <= j < vals.len() && best == vals[j];
            assert(score_same(vals[j], best));
        }
    }
}


/// A round that goes on keeps a child of the solution whose value, searched `depth - 1`
/// further pushes, is at least the value of every other child, and the later rounds
/// continue from it.
pub proof fn lemma_solve_rounds_keep_best(p: ProjectView, qs: Seq<QueueView>, depth: nat, k: nat)
    requires
        depth > 0,
        k > 0,
        solve_rounds(p, qs, depth, k) is Ok,
    ensures
        ({
            let cs = children(p, qs, candidates(p, qs));
            exists|j: int|
                #![trigger cs[j]]
                0 <= j < cs.len() && solve_rounds(p, cs[j], depth, (k - 1) as nat) == solve_rounds(p, qs, depth, k)
                    && forall|j2: int|
                    0 <= j2 < cs.len() ==> score_ge(
                        minimax_value(p, cs[j], (depth - 1) as nat),
                        minimax_value(p, #[trigger] cs[j2], (depth - 1) as nat),
                    )
        }),
{
    let cs = children(p, qs, candidates(p, qs));
    let vals = child_values(p, cs, (depth - 1) as nat);
    lemma_round_best(p, qs, depth);
    let (best, kept) = round_result(p, qs, depth)->Ok_0;
    let c = kept.last();
    assert(tied_child(kept[kept.len() - 1], cs, vals, best));
    let j = choose|j: int| 0 <= j < cs.len() && c == cs[j] && score_same(vals[j], best);
    assert(solve_rounds(p, cs[j], depth, (k - 1) as nat) == solve_rounds(p, qs, depth, k));
    assert forall|j2: int| 0 <= j2 < cs.len() implies score_ge(
        minimax_value(p, cs[j], (depth - 1) as nat),
        minimax_value(p, #[trigger] cs[j2], (depth - 1) as nat),
    ) by {
        assert(vals[j2] == minimax_value(p, cs[j2], (depth - 1) as nat));
        assert(score_ge(best, vals[j2]));
        lemma_score_order(vals[j], best, vals[j2]);
        lemma_score_order(best, vals[j], vals[j2]);
    }
}

/// The search runs at the depth it is asked for: from the empty solution, its first round
/// keeps a child whose value, searched `depth - 1` further pushes, is at least the value of
/// every other child, and the schedule returned is the one the later rounds reach from it.
pub proof fn lemma_solve_searches_at_depth(p: ProjectView, depth: nat)
    requires
        depth > 0,
        p.tasks.len() > 0,
        solve_result(p, depth) is Ok,
    ensures
        ({
            let e = empty_solution(p);
            let cs = children(p, e, candidates(p, e));
            exists|j: int|
                #![trigger cs[j]]
                0 <= j < cs.len() && solve_rounds(p, cs[j], depth, (p.tasks.len() - 1) as nat) == Ok::<
                    Seq<QueueView>,
                    SolveError,
                >(solve_result(p, depth)->Ok_0) && forall|j2: int|
                    0 <= j2 < cs.len() ==> score_ge(
                        minimax_value(p, cs[j], (depth - 1) as nat),
                        minimax_value(p, #[trigger] cs[j2], (depth - 1) as nat),
                    )
        }),
{
    let e = empty_solution(p);
    lemma_solve_rounds_keep_best(p, e, depth, p.tasks.len());
}

} // verus!
